use vstd::prelude::*;

verus! {

/// Largest magnitude of a cost, a deficit or a realized gain that the engine
/// keeps, in amount units.
pub const AMOUNT_MAX: i128 = 0xffff_ffff_ffff_ffff_ffff_ffff;

/// Amount units in one unit of currency: an amount is held in 10^-12 of the
/// currency, the product of a price in millionths of the currency and a
/// quantity in millionths of a unit.
pub const AMOUNT_SCALE: u128 = 1_000_000_000_000;

/// What a trade does to the position.
#[derive(Debug, Clone, Copy, PartialEq, Eq, Structural)]
pub enum OperationType {
    Buy,
    Sell,
}

/// One trade: its kind, its price per unit in millionths of the currency and
/// the quantity traded in millionths of a unit.
#[derive(Debug, Clone, Copy, PartialEq, Eq, Structural)]
pub struct Operation {
    pub operation: OperationType,
    pub unit_cost: u64,
    pub quantity: u64,
}

/// The tax owed on one trade, in amount units (10^-12 of the currency).
#[derive(Debug, Clone, Copy, PartialEq, Eq, Structural)]
pub struct Tax {
    pub tax: u128,
}

/// Why a trade could not be applied.
#[derive(Debug, Clone, Copy, PartialEq, Eq, Structural)]
pub enum TradeError {
    /// A sale of more units than are held.
    InsufficientPosition,
    /// A figure of the position would leave the range that the engine keeps.
    Overflow,
}

/// The exemption threshold (a sale's proceeds, in amount units) and the flat
/// tax rate `rate_numerator / rate_denominator`.
#[derive(Debug, Clone, Copy, PartialEq, Eq, Structural)]
pub struct TaxConfig {
    pub min_exempt_notional: u128,
    pub rate_numerator: u32,
    pub rate_denominator: u32,
}

/// The position as mathematical integers: quantity held, cost basis and loss
/// carried forward (amount units), and the weighted average price set by the
/// last purchase, exactly, as the fraction `average_cost / average_units`.
pub struct Position {
    pub quantity: int,
    pub cost: int,
    pub deficit: int,
    pub average_cost: int,
    pub average_units: int,
}

/// The running position of one replay and the configuration it was made with.
#[derive(Debug, Clone, Copy)]
pub struct Portfolio {
    pub quantity: u64,
    pub cost: i128,
    pub deficit: i128,
    pub average_cost: i128,
    pub average_units: u64,
    pub config: TaxConfig,
}

/// `n / d` rounded toward zero.
pub open spec fn div_toward_zero(n: int, d: int) -> int {
    if n >= 0 {
        n / d
    } else {
        -((-n) / d)
    }
}

/// The proceeds of a trade: quantity times price.
pub open spec fn notional(op: Operation) -> int {
    op.quantity * op.unit_cost
}

/// `average_units` times the gain per unit of selling at `op`'s price
/// against the average `average_cost / average_units`.
pub open spec fn gain_rate(op: Operation, average_cost: int, average_units: int) -> int {
    op.unit_cost * average_units - average_cost
}

/// `average_units` times the gain of selling `op`.
pub open spec fn gain_numerator(op: Operation, average_cost: int, average_units: int) -> int {
    gain_rate(op, average_cost, average_units) * op.quantity
}

/// Gain (negative: loss) of selling `op` against the average price
/// `average_cost / average_units`, rounded toward zero once; none while no
/// units were ever bought.
pub open spec fn realized(op: Operation, average_cost: int, average_units: int) -> int {
    if average_units == 0 {
        0
    } else {
        div_toward_zero(gain_numerator(op, average_cost, average_units), average_units)
    }
}

/// The realized gain lies in the range that the engine keeps.
pub open spec fn gain_fits(op: Operation, average_cost: int, average_units: int) -> bool {
    -AMOUNT_MAX <= realized(op, average_cost, average_units) <= AMOUNT_MAX
}

/// The gain of selling `quantity` at `price` against the average
/// `(whole * units + part) / units`, from the parts of the average cost:
/// `(price - whole) * quantity` less `part * quantity / units`, rounded
/// toward zero once.
proof fn lemma_split_gain(
    price: int,
    cost: int,
    units: int,
    quantity: int,
    whole: int,
    part: int,
)
    requires
        units > 0,
        quantity >= 0,
        cost == whole * units + part,
        0 <= part < units,
    ensures
        ({
            let x = (price - whole) * quantity;
            let y = part * quantity;
            let f = y / units;
            let r = y % units;
            &&& 0 <= y
            &&& 0 <= f <= quantity
            &&& 0 <= r < units
            &&& div_toward_zero((price * units - cost) * quantity, units) == x - f - (if r != 0
                && x > f {
                1int
            } else {
                0int
            })
        }),
{
    let x = (price - whole) * quantity;
    let y = part * quantity;
    let f = y / units;
    let r = y % units;
    let n = (price * units - cost) * quantity;
    assert(n == x * units - y) by (nonlinear_arith)
        requires
            n == (price * units - cost) * quantity,
            cost == whole * units + part,
            x == (price - whole) * quantity,
            y == part * quantity,
    ;
    assert(0 <= y <= units * quantity) by (nonlinear_arith)
        requires
            y == part * quantity,
            0 <= part < units,
            quantity >= 0,
    ;
    vstd::arithmetic::div_mod::lemma_fundamental_div_mod(y, units);
    vstd::arithmetic::div_mod::lemma_mod_pos_bound(y, units);
    vstd::arithmetic::div_mod::lemma_div_is_ordered(0, y, units);
    vstd::arithmetic::div_mod::lemma_div_of0(units);
    vstd::arithmetic::div_mod::lemma_div_is_ordered(y, units * quantity, units);
    vstd::arithmetic::div_mod::lemma_div_multiples_vanish(quantity, units);
    let k = x - f;
    assert(n == k * units - r) by (nonlinear_arith)
        requires
            n == x * units - y,
            y == units * f + r,
            k == x - f,
    ;
    if r == 0 {
        if k >= 0 {
            vstd::arithmetic::div_mod::lemma_fundamental_div_mod_converse(n, units, k, 0);
        } else {
            assert(-n == (-k) * units) by (nonlinear_arith)
                requires
                    n == k * units,
            ;
            vstd::arithmetic::div_mod::lemma_fundamental_div_mod_converse(-n, units, -k, 0);
        }
    } else if k >= 1 {
        assert(n == (k - 1) * units + (units - r)) by (nonlinear_arith)
            requires
                n == k * units - r,
        ;
        vstd::arithmetic::div_mod::lemma_fundamental_div_mod_converse(
            n,
            units,
            k - 1,
            units - r,
        );
    } else {
        assert(-n == (-k) * units + r) by (nonlinear_arith)
            requires
                n == k * units - r,
        ;
        assert(n < 0) by (nonlinear_arith)
            requires
                n == k * units - r,
                k <= 0,
                r > 0,
                units > 0,
        ;
        vstd::arithmetic::div_mod::lemma_fundamental_div_mod_converse(-n, units, -k, r);
    }
}

/// `x`, or zero where it is negative.
pub open spec fn max0(x: int) -> int {
    if x >= 0 {
        x
    } else {
        0
    }
}

/// All figures of a position lie in the range that the engine keeps.
pub open spec fn in_range(p: Position) -> bool {
    &&& 0 <= p.quantity <= u64::MAX
    &&& -AMOUNT_MAX <= p.cost <= AMOUNT_MAX
    &&& 0 <= p.deficit <= AMOUNT_MAX
    &&& -AMOUNT_MAX <= p.average_cost <= AMOUNT_MAX
    &&& 0 <= p.average_units <= u64::MAX
}

/// The empty position.
pub open spec fn empty_position() -> Position {
    Position { quantity: 0, cost: 0, deficit: 0, average_cost: 0, average_units: 0 }
}

/// The gain of selling `op` from `p`.
pub open spec fn sale_gain(p: Position, op: Operation) -> int {
    realized(op, p.average_cost, p.average_units)
}

/// The position after buying `op`: cost and quantity grow by the purchase, and
/// the average becomes the new cost over the new quantity.
pub open spec fn after_buy(p: Position, op: Operation) -> Position {
    Position {
        quantity: p.quantity + op.quantity,
        cost: p.cost + notional(op),
        deficit: p.deficit,
        average_cost: p.cost + notional(op),
        average_units: p.quantity + op.quantity,
    }
}

/// A purchase keeps every figure in range.
pub open spec fn purchase_fits(p: Position, op: Operation) -> bool {
    &&& p.cost + notional(op) <= AMOUNT_MAX
    &&& p.quantity + op.quantity <= u64::MAX
}

/// The position after selling `op`: the cost falls by the proceeds, a loss
/// adds to the deficit and a gain is absorbed by it down to zero. The average
/// stays.
pub open spec fn after_sell(p: Position, op: Operation) -> Position {
    Position {
        quantity: p.quantity - op.quantity,
        cost: p.cost - notional(op),
        deficit: max0(p.deficit - sale_gain(p, op)),
        average_cost: p.average_cost,
        average_units: p.average_units,
    }
}

/// A sale keeps every figure in range.
pub open spec fn sale_fits(p: Position, op: Operation) -> bool {
    &&& p.cost - notional(op) >= -AMOUNT_MAX
    &&& gain_fits(op, p.average_cost, p.average_units)
    &&& p.deficit - sale_gain(p, op) <= AMOUNT_MAX
}

/// Tax on a taxable gain: none at or below the exemption threshold, else the
/// rate applied and truncated.
pub open spec fn tax_on(cfg: TaxConfig, op: Operation, taxable: int) -> int {
    if notional(op) <= cfg.min_exempt_notional {
        0
    } else {
        taxable * cfg.rate_numerator / (cfg.rate_denominator as int)
    }
}

/// Tax on selling `op` from `p`: on the part of the gain that the deficit
/// does not absorb.
pub open spec fn sell_tax(cfg: TaxConfig, p: Position, op: Operation) -> int {
    tax_on(cfg, op, max0(sale_gain(p, op) - p.deficit))
}

/// What applying `op` to `p` gives: the next position and the tax, or the
/// error.
pub open spec fn outcome(cfg: TaxConfig, p: Position, op: Operation) -> Result<(Position, int), TradeError> {
    match op.operation {
        OperationType::Buy => {
            if purchase_fits(p, op) {
                Ok((after_buy(p, op), 0))
            } else {
                Err(TradeError::Overflow)
            }
        },
        OperationType::Sell => {
            if op.quantity > p.quantity {
                Err(TradeError::InsufficientPosition)
            } else if sale_fits(p, op) {
                Ok((after_sell(p, op), sell_tax(cfg, p, op)))
            } else {
                Err(TradeError::Overflow)
            }
        },
    }
}

/// Applies `ops` in order from `p`: the final position and the tax of each
/// trade, or the first error.
pub open spec fn replay(cfg: TaxConfig, p: Position, ops: Seq<Operation>) -> Result<
    (Position, Seq<int>),
    TradeError,
>
    decreases ops.len(),
{
    if ops.len() == 0 {
        Ok((p, Seq::empty()))
    } else {
        match replay(cfg, p, ops.drop_last()) {
            Err(e) => Err(e),
            Ok((q, taxes)) => match outcome(cfg, q, ops.last()) {
                Err(e) => Err(e),
                Ok((q2, t)) => Ok((q2, taxes.push(t))),
            },
        }
    }
}

impl TaxConfig {
    /// The rate is a fraction between zero and one.
    pub open spec fn wf(&self) -> bool {
        &&& self.rate_denominator > 0
        &&& self.rate_numerator <= self.rate_denominator
    }

    /// Exemption at or below 20000 in proceeds, and a rate of 20%.
    pub fn standard() -> (r: TaxConfig)
        ensures
            r.min_exempt_notional == 20_000 * AMOUNT_SCALE,
            r.rate_numerator == 20,
            r.rate_denominator == 100,
            r.wf(),
    {
        TaxConfig {
            min_exempt_notional: 20_000_000_000_000_000,
            rate_numerator: 20,
            rate_denominator: 100,
        }
    }
}

impl Operation {
    pub fn new(operation: OperationType, unit_cost: u64, quantity: u64) -> (r: Operation)
        ensures
            r.operation == operation,
            r.unit_cost == unit_cost,
            r.quantity == quantity,
    {
        Operation { operation, unit_cost, quantity }
    }

    /// The proceeds of the trade in amount units.
    pub fn op_cost(&self) -> (r: u128)
        ensures
            r == notional(*self),
    {
        let q: u128 = self.quantity as u128;
        let c: u128 = self.unit_cost as u128;
        proof {
            assert(q * c <= u64::MAX * u64::MAX) by (nonlinear_arith)
                requires
                    q <= u64::MAX,
                    c <= u64::MAX,
            ;
        }
        q * c
    }

    /// Gain of selling against the average price
    /// `average_cost / average_units`, rounded toward zero; `None` where it
    /// leaves the range that the engine keeps.
    pub fn get_profit(&self, average_cost: i128, average_units: u64) -> (r: Option<i128>)
        requires
            -AMOUNT_MAX <= average_cost <= AMOUNT_MAX,
        ensures
            r matches Some(g) ==> g == realized(*self, average_cost as int, average_units as int),
            r is None <==> !gain_fits(*self, average_cost as int, average_units as int),
    {
        if average_units == 0 {
            return Some(0);
        }
        let u: i128 = average_units as i128;
        // average_cost == whole * u + part, with 0 <= part < u
        let whole: i128;
        let part: i128;
        if average_cost >= 0 {
            whole = average_cost / u;
            part = average_cost % u;
            proof {
                vstd::arithmetic::div_mod::lemma_fundamental_div_mod(average_cost as int, u as int);
                vstd::arithmetic::div_mod::lemma_mod_pos_bound(average_cost as int, u as int);
                vstd::arithmetic::div_mod::lemma_div_is_ordered(average_cost as int, AMOUNT_MAX as int, u as int);
                vstd::arithmetic::div_mod::lemma_div_is_ordered_by_denominator(AMOUNT_MAX as int, 1, u as int);
                vstd::arithmetic::div_mod::lemma_div_is_ordered(0, average_cost as int, u as int);
                vstd::arithmetic::div_mod::lemma_div_of0(u as int);
                let (ci, ui, wi, pi) = (average_cost as int, u as int, whole as int, part as int);
                assert(ci == wi * ui + pi) by (nonlinear_arith)
                    requires
                        ci == ui * wi + pi,
                ;
            }
        } else {
            let m: i128 = -average_cost;
            let q0: i128 = m / u;
            let r0: i128 = m % u;
            proof {
                vstd::arithmetic::div_mod::lemma_fundamental_div_mod(m as int, u as int);
                vstd::arithmetic::div_mod::lemma_mod_pos_bound(m as int, u as int);
                vstd::arithmetic::div_mod::lemma_div_is_ordered(m as int, AMOUNT_MAX as int, u as int);
                vstd::arithmetic::div_mod::lemma_div_is_ordered_by_denominator(AMOUNT_MAX as int, 1, u as int);
                vstd::arithmetic::div_mod::lemma_div_is_ordered(0, m as int, u as int);
                vstd::arithmetic::div_mod::lemma_div_of0(u as int);
            }
            if r0 == 0 {
                whole = -q0;
                part = 0;
            } else {
                whole = -q0 - 1;
                part = u - r0;
            }
            proof {
                let (mi, ui, qi, ri, wi, pi) = (
                    m as int,
                    u as int,
                    q0 as int,
                    r0 as int,
                    whole as int,
                    part as int,
                );
                assert(average_cost == wi * ui + pi) by (nonlinear_arith)
                    requires
                        mi == -average_cost,
                        mi == ui * qi + ri,
                        ri == 0 ==> wi == -qi && pi == 0,
                        ri != 0 ==> wi == -qi - 1 && pi == ui - ri,
                ;
            }
        }
        assert(average_cost == whole * u + part);
        assert(0 <= part < u);
        assert(-AMOUNT_MAX - 1 <= whole <= AMOUNT_MAX);
        let qty: u128 = self.quantity as u128;
        let pu: u128 = part as u128;
        proof {
            assert(pu * qty <= u64::MAX * u64::MAX) by (nonlinear_arith)
                requires
                    pu < u <= u64::MAX,
                    qty <= u64::MAX,
            ;
            lemma_split_gain(
                self.unit_cost as int,
                average_cost as int,
                u as int,
                qty as int,
                whole as int,
                part as int,
            );
        }
        let y: u128 = pu * qty;
        let f: u128 = y / (u as u128);
        let rem: u128 = y % (u as u128);
        let d: i128 = self.unit_cost as i128 - whole;
        let x: i128 = match d.checked_mul(self.quantity as i128) {
            Some(x) => x,
            None => {
                return None;
            },
        };
        if x > 2 * AMOUNT_MAX || x < -2 * AMOUNT_MAX {
            return None;
        }
        let g: i128 = if rem != 0 && x > f as i128 {
            x - f as i128 - 1
        } else {
            x - f as i128
        };
        if g > AMOUNT_MAX || g < -AMOUNT_MAX {
            return None;
        }
        Some(g)
    }
}

impl Tax {
    /// The tax in whole currency units, the fraction truncated.
    pub fn amount(&self) -> (r: u128)
        ensures
            r == self.tax / AMOUNT_SCALE,
    {
        self.tax / AMOUNT_SCALE
    }
}

impl View for Portfolio {
    type V = Position;

    open spec fn view(&self) -> Position {
        Position {
            quantity: self.quantity as int,
            cost: self.cost as int,
            deficit: self.deficit as int,
            average_cost: self.average_cost as int,
            average_units: self.average_units as int,
        }
    }
}

/// `n / d` rounded toward zero, for `d > 0`.
fn divide_toward_zero(n: i128, d: i128) -> (r: i128)
    requires
        -AMOUNT_MAX <= n <= AMOUNT_MAX,
        d > 0,
    ensures
        r == div_toward_zero(n as int, d as int),
        -AMOUNT_MAX <= r <= AMOUNT_MAX,
{
    if n >= 0 {
        proof {
            assert(n as int / d as int <= n) by (nonlinear_arith)
                requires
                    n >= 0,
                    d > 0,
            ;
        }
        n / d
    } else {
        let m: i128 = -n;
        proof {
            assert(m as int / d as int <= m) by (nonlinear_arith)
                requires
                    m >= 0,
                    d > 0,
            ;
        }
        -(m / d)
    }
}

impl Portfolio {
    /// All figures are in range and the rate is a fraction.
    pub open spec fn wf(&self) -> bool {
        &&& in_range(self@)
        &&& self.config.wf()
    }

    /// An empty position with the standard configuration.
    pub fn new() -> (r: Portfolio)
        ensures
            r@ == empty_position(),
            r.config.min_exempt_notional == 20_000 * AMOUNT_SCALE,
            r.config.rate_numerator == 20,
            r.config.rate_denominator == 100,
            r.wf(),
    {
        Portfolio::with_config(TaxConfig::standard())
    }

    /// An empty position taxed by `config`.
    pub fn with_config(config: TaxConfig) -> (r: Portfolio)
        requires
            config.wf(),
        ensures
            r@ == empty_position(),
            r.config == config,
            r.wf(),
    {
        Portfolio { quantity: 0, cost: 0, deficit: 0, average_cost: 0, average_units: 0, config }
    }

    pub fn quantity(&self) -> (r: u64)
        ensures
            r == self.quantity,
    {
        self.quantity
    }

    pub fn cost(&self) -> (r: i128)
        ensures
            r == self.cost,
    {
        self.cost
    }

    pub fn deficit(&self) -> (r: i128)
        ensures
            r == self.deficit,
    {
        self.deficit
    }

    /// The cost held right after the last purchase.
    pub fn average_cost(&self) -> (r: i128)
        ensures
            r == self.average_cost,
    {
        self.average_cost
    }

    /// The quantity held right after the last purchase.
    pub fn average_units(&self) -> (r: u64)
        ensures
            r == self.average_units,
    {
        self.average_units
    }

    /// The weighted average price in millionths of the currency per unit,
    /// rounded toward zero for display; `None` before any units were bought.
    pub fn weighted_average_price(&self) -> (r: Option<i128>)
        requires
            self.wf(),
        ensures
            self.average_units == 0 ==> r is None,
            self.average_units > 0 ==> r == Some(
                div_toward_zero(self.average_cost as int, self.average_units as int) as i128,
            ),
    {
        if self.average_units == 0 {
            None
        } else {
            Some(divide_toward_zero(self.average_cost, self.average_units as i128))
        }
    }

    /// Applies one trade. On success the position moves as `outcome` says and
    /// the tax of the trade is returned; on an error nothing changes.
    pub fn execute(&mut self, operation: Operation) -> (r: Result<Tax, TradeError>)
        requires
            old(self).wf(),
        ensures
            final(self).wf(),
            final(self).config == old(self).config,
            match outcome(old(self).config, old(self)@, operation) {
                Ok((p, t)) => r matches Ok(x) && x.tax == t && final(self)@ == p,
                Err(e) => r == Err::<Tax, TradeError>(e) && final(self)@ == old(self)@,
            },
    {
        match operation.operation {
            OperationType::Buy => self.buy(operation),
            OperationType::Sell => self.sell(operation),
        }
    }

    /// Tax on `taxable` for a sale with proceeds `operation_cost`.
    fn calculate_tax(&self, operation: Operation, operation_cost: u128, taxable: i128) -> (r: Tax)
        requires
            self.wf(),
            operation_cost == notional(operation),
            0 <= taxable <= AMOUNT_MAX,
        ensures
            r.tax == tax_on(self.config, operation, taxable as int),
            r.tax <= AMOUNT_MAX,
    {
        if operation_cost > self.config.min_exempt_notional {
            let t: u128 = taxable as u128;
            let num: u128 = self.config.rate_numerator as u128;
            let den: u128 = self.config.rate_denominator as u128;
            proof {
                let ti = t as int;
                let ni = num as int;
                let di = den as int;
                assert(ti * ni <= AMOUNT_MAX * u32::MAX) by (nonlinear_arith)
                    requires
                        0 <= ti <= AMOUNT_MAX,
                        0 <= ni <= u32::MAX,
                ;
                assert(ti * ni <= ti * di) by (nonlinear_arith)
                    requires
                        0 <= ti,
                        0 <= ni <= di,
                ;
                vstd::arithmetic::div_mod::lemma_div_is_ordered(ti * ni, ti * di, di);
                vstd::arithmetic::div_mod::lemma_div_multiples_vanish(ti, di);
                assert(ti * di == di * ti) by (nonlinear_arith);
            }
            Tax { tax: t * num / den }
        } else {
            Tax { tax: 0 }
        }
    }

    fn buy(&mut self, operation: Operation) -> (r: Result<Tax, TradeError>)
        requires
            old(self).wf(),
            operation.operation == OperationType::Buy,
        ensures
            final(self).wf(),
            final(self).config == old(self).config,
            match outcome(old(self).config, old(self)@, operation) {
                Ok((p, t)) => r matches Ok(x) && x.tax == t && final(self)@ == p,
                Err(e) => r == Err::<Tax, TradeError>(e) && final(self)@ == old(self)@,
            },
    {
        let notional: u128 = operation.op_cost();
        if notional > 2 * (AMOUNT_MAX as u128) {
            return Err(TradeError::Overflow);
        }
        let quantity: u128 = self.quantity as u128 + operation.quantity as u128;
        if quantity > u64::MAX as u128 {
            return Err(TradeError::Overflow);
        }
        let cost: i128 = self.cost + notional as i128;
        if cost > AMOUNT_MAX {
            return Err(TradeError::Overflow);
        }
        self.quantity = quantity as u64;
        self.cost = cost;
        self.average_cost = cost;
        self.average_units = quantity as u64;
        Ok(Tax { tax: 0 })
    }

    fn sell(&mut self, operation: Operation) -> (r: Result<Tax, TradeError>)
        requires
            old(self).wf(),
            operation.operation == OperationType::Sell,
        ensures
            final(self).wf(),
            final(self).config == old(self).config,
            match outcome(old(self).config, old(self)@, operation) {
                Ok((p, t)) => r matches Ok(x) && x.tax == t && final(self)@ == p,
                Err(e) => r == Err::<Tax, TradeError>(e) && final(self)@ == old(self)@,
            },
    {
        if operation.quantity > self.quantity {
            return Err(TradeError::InsufficientPosition);
        }
        let notional: u128 = operation.op_cost();
        if notional > 2 * (AMOUNT_MAX as u128) {
            return Err(TradeError::Overflow);
        }
        let cost: i128 = self.cost - notional as i128;
        if cost < -AMOUNT_MAX {
            return Err(TradeError::Overflow);
        }
        let profit: i128 = match operation.get_profit(self.average_cost, self.average_units) {
            Some(g) => g,
            None => return Err(TradeError::Overflow),
        };
        let remaining: i128 = self.deficit - profit;
        if remaining > AMOUNT_MAX {
            return Err(TradeError::Overflow);
        }
        let tax = if remaining >= 0 {
            // the deficit absorbs the whole gain, or grows by the loss
            Tax { tax: 0 }
        } else {
            // the gain exceeds the deficit: the rest is taxable
            self.calculate_tax(operation, notional, -remaining)
        };
        self.quantity = self.quantity - operation.quantity;
        self.cost = cost;
        self.deficit = if remaining >= 0 {
            remaining
        } else {
            0
        };
        Ok(tax)
    }
}

/// A purchase is never taxed.
pub proof fn buy_is_never_taxed(cfg: TaxConfig, p: Position, op: Operation)
    requires
        op.operation == OperationType::Buy,
    ensures
        outcome(cfg, p, op) matches Ok((_, t)) ==> t == 0,
{
}

/// A purchase whose figures stay in range always succeeds, untaxed.
pub proof fn buy_within_range_succeeds(cfg: TaxConfig, p: Position, op: Operation)
    requires
        op.operation == OperationType::Buy,
        purchase_fits(p, op),
    ensures
        outcome(cfg, p, op) == Ok::<(Position, int), TradeError>((after_buy(p, op), 0)),
{
}

/// A sale of more units than are held fails with `InsufficientPosition`
/// (and `execute` then leaves the position as it was).
pub proof fn oversized_sale_is_refused(cfg: TaxConfig, p: Position, op: Operation)
    requires
        op.operation == OperationType::Sell,
        op.quantity > p.quantity,
    ensures
        outcome(cfg, p, op) == Err::<(Position, int), TradeError>(TradeError::InsufficientPosition),
{
}

/// After a purchase the weighted average price is exactly
/// `(prior cost + quantity * unit cost) / (prior quantity + quantity)`: the
/// position holds that numerator and that denominator.
pub proof fn buy_sets_weighted_average(cfg: TaxConfig, p: Position, op: Operation)
    requires
        op.operation == OperationType::Buy,
    ensures
        outcome(cfg, p, op) matches Ok((q, _)) ==> q.average_cost == p.cost + op.quantity
            * op.unit_cost && q.average_units == p.quantity + op.quantity,
{
}

/// Replaying trades from a position in range ends in a position in range.
proof fn replay_stays_in_range(cfg: TaxConfig, p: Position, ops: Seq<Operation>)
    requires
        in_range(p),
    ensures
        replay(cfg, p, ops) matches Ok((q, _)) ==> in_range(q),
    decreases ops.len(),
{
    if ops.len() > 0 {
        replay_stays_in_range(cfg, p, ops.drop_last());
    }
}

/// Whatever sequence of trades is applied, the deficit after each of them
/// is non-negative.
pub proof fn deficit_never_negative(cfg: TaxConfig, p: Position, ops: Seq<Operation>)
    requires
        in_range(p),
    ensures
        forall|i: int|
            0 <= i <= ops.len() ==> (#[trigger] replay(cfg, p, ops.take(i)) matches Ok((q, _))
                ==> q.deficit >= 0),
{
    assert forall|i: int| 0 <= i <= ops.len() implies (#[trigger] replay(
        cfg,
        p,
        ops.take(i),
    ) matches Ok((q, _)) ==> q.deficit >= 0) by {
        replay_stays_in_range(cfg, p, ops.take(i));
    }
}

/// A sale whose proceeds are at or below the exemption threshold is not
/// taxed, whatever its gain.
pub proof fn small_sale_is_exempt(cfg: TaxConfig, p: Position, op: Operation)
    requires
        op.operation == OperationType::Sell,
        notional(op) <= cfg.min_exempt_notional,
    ensures
        outcome(cfg, p, op) matches Ok((_, t)) ==> t == 0,
{
}

/// A sale of at most the quantity held whose new cost, gain and deficit stay
/// in range succeeds: the position moves as `after_sell` says and the tax is
/// `sell_tax`.
pub proof fn sale_within_range_succeeds(cfg: TaxConfig, p: Position, op: Operation)
    requires
        op.operation == OperationType::Sell,
        op.quantity <= p.quantity,
        sale_fits(p, op),
    ensures
        outcome(cfg, p, op) == Ok::<(Position, int), TradeError>(
            (after_sell(p, op), sell_tax(cfg, p, op)),
        ),
{
}

/// A sale of at most the quantity held, with proceeds at or below the
/// exemption threshold and figures in range, succeeds with tax 0, whatever its
/// gain and the deficit.
pub proof fn small_sale_succeeds_untaxed(cfg: TaxConfig, p: Position, op: Operation)
    requires
        op.operation == OperationType::Sell,
        op.quantity <= p.quantity,
        notional(op) <= cfg.min_exempt_notional,
        sale_fits(p, op),
    ensures
        outcome(cfg, p, op) == Ok::<(Position, int), TradeError>((after_sell(p, op), 0)),
{
}

/// The tax of a sale in whole currency units (`Tax::amount` of what
/// `tax_on` gives) is the exact tax truncated, not rounded:
/// `w <= taxable * numerator / (denominator * AMOUNT_SCALE) < w + 1`.
pub proof fn whole_tax_is_truncated(taxable: int, numerator: int, denominator: int)
    requires
        taxable >= 0,
        numerator >= 0,
        denominator > 0,
    ensures
        ({
            let w = (taxable * numerator / denominator) / (AMOUNT_SCALE as int);
            let d = denominator * AMOUNT_SCALE;
            &&& w == taxable * numerator / d
            &&& w * d <= taxable * numerator < (w + 1) * d
        }),
{
    let x: int = taxable * numerator;
    let d: int = denominator * AMOUNT_SCALE;
    assert(taxable * numerator >= 0) by (nonlinear_arith)
        requires
            taxable >= 0,
            numerator >= 0,
    ;
    assert((x / denominator) / (AMOUNT_SCALE as int) == x / d) by {
        vstd::arithmetic::div_mod::lemma_div_denominator(x, denominator, AMOUNT_SCALE as int);
    }
    assert(d > 0) by (nonlinear_arith)
        requires
            denominator > 0,
            d == denominator * AMOUNT_SCALE,
    ;
    vstd::arithmetic::div_mod::lemma_fundamental_div_mod(x, d);
    assert((x / d) * d == d * (x / d)) by (nonlinear_arith);
    assert((x / d + 1) * d == d * (x / d) + d) by (nonlinear_arith);
}

} // verus!
