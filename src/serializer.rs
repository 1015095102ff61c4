use vstd::prelude::*;
use crate::portfolio::{
    empty_position, replay, Operation, Portfolio, Tax, TaxConfig, AMOUNT_SCALE,
};

verus! {

/// Why a batch of trades gave no list of taxes.
#[derive(Debug, Clone, Copy, PartialEq, Eq, Structural)]
pub enum ConverterError {
    /// The input could not be read as trades.
    InvalidInput,
    /// A trade could not be applied to the position.
    InvalidOperation,
    /// The list of taxes could not be written out.
    InvalidTaxConversion,
}

/// The value of each tax in amount units.
pub open spec fn tax_values(taxes: Seq<Tax>) -> Seq<int> {
    taxes.map_values(|t: Tax| t.tax as int)
}

/// The whole currency units of each tax, the fraction truncated.
pub open spec fn whole_units(taxes: Seq<Tax>) -> Seq<int> {
    taxes.map_values(|t: Tax| t.tax as int / (AMOUNT_SCALE as int))
}

/// Once a prefix of the trades fails, every longer prefix fails.
proof fn replay_failure_persists(cfg: TaxConfig, ops: Seq<Operation>, i: int, j: int)
    requires
        0 <= i <= j <= ops.len(),
        replay(cfg, empty_position(), ops.take(i)) is Err,
    ensures
        replay(cfg, empty_position(), ops.take(j)) is Err,
    decreases j - i,
{
    if j > i {
        replay_failure_persists(cfg, ops, i, j - 1);
        assert(ops.take(j).drop_last() =~= ops.take(j - 1));
    }
}

/// Replays `operations` in order on an empty position taxed by `config`:
/// the tax of every trade, or `InvalidOperation` where any trade fails, with
/// no partial list.
pub fn compute_taxes(operations: &Vec<Operation>, config: TaxConfig) -> (r: Result<
    Vec<Tax>,
    ConverterError,
>)
    requires
        config.wf(),
    ensures
        match replay(config, empty_position(), operations@) {
            Ok((_, taxes)) => r matches Ok(v) && tax_values(v@) == taxes,
            Err(_) => r == Err::<Vec<Tax>, ConverterError>(ConverterError::InvalidOperation),
        },
{
    let mut portfolio = Portfolio::with_config(config);
    let mut taxes: Vec<Tax> = Vec::new();
    let n: usize = operations.len();
    let mut i: usize = 0;
    assert(operations@.take(0) =~= Seq::<Operation>::empty());
    assert(tax_values(taxes@) =~= Seq::<int>::empty());
    while i < n
        invariant
            n == operations.len(),
            0 <= i <= n,
            portfolio.wf(),
            portfolio.config == config,
            replay(config, empty_position(), operations@.take(i as int)) == Ok::<
                (crate::portfolio::Position, Seq<int>),
                crate::portfolio::TradeError,
            >((portfolio@, tax_values(taxes@))),
        decreases n - i,
    {
        let op = operations[i];
        let ghost prior = taxes@;
        assert(operations@.take(i + 1).drop_last() =~= operations@.take(i as int));
        assert(operations@.take(i + 1).last() == op);
        match portfolio.execute(op) {
            Ok(tax) => {
                taxes.push(tax);
                assert(tax_values(taxes@) =~= tax_values(prior).push(tax.tax as int));
            },
            Err(_) => {
                proof {
                    replay_failure_persists(config, operations@, i + 1, n as int);
                    assert(operations@.take(n as int) =~= operations@);
                }
                return Err(ConverterError::InvalidOperation);
            },
        }
        i = i + 1;
    }
    assert(operations@.take(n as int) =~= operations@);
    Ok(taxes)
}

pub const OPEN_BRACKET: u8 = 91;
pub const CLOSE_BRACKET: u8 = 93;
pub const COMMA: u8 = 44;
pub const OPEN_BRACE: u8 = 123;
pub const CLOSE_BRACE: u8 = 125;
pub const QUOTE: u8 = 34;
pub const COLON: u8 = 58;
pub const LETTER_T: u8 = 116;
pub const LETTER_A: u8 = 97;
pub const LETTER_X: u8 = 120;

/// Decimal digits of `n` in ASCII, most significant first, no leading zero.
pub open spec fn digits(n: nat) -> Seq<u8>
    decreases n,
{
    if n < 10 {
        seq![(48 + n) as u8]
    } else {
        digits(n / 10).push((48 + n % 10) as u8)
    }
}

/// `{"tax":w}`.
pub open spec fn tax_item(w: int) -> Seq<u8> {
    seq![OPEN_BRACE, QUOTE, LETTER_T, LETTER_A, LETTER_X, QUOTE, COLON] + digits(w as nat) + seq![CLOSE_BRACE]
}

/// The items of `ws`, separated by commas.
pub open spec fn tax_items(ws: Seq<int>) -> Seq<u8>
    decreases ws.len(),
{
    if ws.len() == 0 {
        Seq::empty()
    } else if ws.len() == 1 {
        tax_item(ws[0])
    } else {
        tax_items(ws.drop_last()) + seq![COMMA] + tax_item(ws.last())
    }
}

/// `[{"tax":w0},{"tax":w1},...]`.
pub open spec fn tax_list(ws: Seq<int>) -> Seq<u8> {
    seq![OPEN_BRACKET] + tax_items(ws) + seq![CLOSE_BRACKET]
}

fn push_digits(out: &mut Vec<u8>, n: u128)
    ensures
        final(out)@ == old(out)@ + digits(n as nat),
    decreases n,
{
    if n >= 10 {
        push_digits(out, n / 10);
    }
    out.push((48 + n % 10) as u8);
    proof {
        if n >= 10 {
            assert(old(out)@ + digits(n as nat) =~= old(out)@ + digits((n / 10) as nat) + seq![
                (48 + n % 10) as u8,
            ]);
        }
    }
}

fn push_tax_item(out: &mut Vec<u8>, w: u128)
    ensures
        final(out)@ == old(out)@ + tax_item(w as int),
{
    out.push(OPEN_BRACE);
    out.push(QUOTE);
    out.push(LETTER_T);
    out.push(LETTER_A);
    out.push(LETTER_X);
    out.push(QUOTE);
    out.push(COLON);
    push_digits(out, w);
    out.push(CLOSE_BRACE);
    assert(final(out)@ =~= old(out)@ + tax_item(w as int));
}

/// Writes each tax as `{"tax":w}` in a JSON array, `w` the whole currency
/// units with the fraction truncated.
pub fn encode_taxes(taxes: &Vec<Tax>) -> (r: Vec<u8>)
    ensures
        r@ == tax_list(whole_units(taxes@)),
{
    let ghost ws = whole_units(taxes@);
    let mut out: Vec<u8> = Vec::new();
    out.push(OPEN_BRACKET);
    let mut i: usize = 0;
    assert(ws.take(0) =~= Seq::<int>::empty());
    while i < taxes.len()
        invariant
            0 <= i <= taxes.len(),
            ws == whole_units(taxes@),
            out@ == seq![OPEN_BRACKET] + tax_items(ws.take(i as int)),
        decreases taxes.len() - i,
    {
        let ghost prior = out@;
        if i > 0 {
            out.push(COMMA);
        }
        push_tax_item(&mut out, taxes[i].amount());
        proof {
            let t = ws.take(i + 1);
            assert(t.drop_last() =~= ws.take(i as int));
            assert(t.last() == ws[i as int]);
            if i == 0 {
                assert(tax_items(t) == tax_item(t[0]));
            }
            assert(out@ =~= seq![OPEN_BRACKET] + tax_items(t));
        }
        i = i + 1;
    }
    out.push(CLOSE_BRACKET);
    assert(ws.take(taxes.len() as int) =~= ws);
    out
}

/// An ASCII decimal digit.
pub open spec fn is_digit(b: u8) -> bool {
    48 <= b <= 57
}

/// The number that a string of ASCII digits writes.
pub open spec fn value_of(s: Seq<u8>) -> int
    decreases s.len(),
{
    if s.len() == 0 {
        0
    } else {
        value_of(s.drop_last()) * 10 + (s.last() - 48)
    }
}

/// Every item can hold its value again in amount units.
pub open spec fn fits(ws: Seq<int>) -> bool {
    forall|i: int| 0 <= i < ws.len() ==> 0 <= #[trigger] ws[i] <= u128::MAX / AMOUNT_SCALE
}

/// `b` holds `{"tax":w}` from `pos` on.
pub open spec fn item_at(b: Seq<u8>, pos: int, w: int) -> bool {
    &&& 0 <= w <= u128::MAX
    &&& 0 <= pos
    &&& pos + tax_item(w).len() <= b.len()
    &&& b.subrange(pos, pos + tax_item(w).len()) == tax_item(w)
}

proof fn lemma_digits(n: nat)
    ensures
        digits(n).len() >= 1,
        forall|i: int| 0 <= i < digits(n).len() ==> is_digit(#[trigger] digits(n)[i]),
        value_of(digits(n)) == n,
    decreases n,
{
    if n >= 10 {
        lemma_digits(n / 10);
        let d = digits(n);
        assert(d.drop_last() =~= digits(n / 10));
        assert(d.last() - 48 == n % 10);
        assert(n == (n / 10) * 10 + n % 10) by {
            vstd::arithmetic::div_mod::lemma_fundamental_div_mod(n as int, 10);
        }
        assert(value_of(d) == value_of(d.drop_last()) * 10 + (d.last() - 48));
        assert(value_of(d) == (n / 10) * 10 + n % 10);
        assert forall|i: int| 0 <= i < d.len() implies is_digit(#[trigger] d[i]) by {
            if i < d.len() - 1 {
                assert(d[i] == digits(n / 10)[i]);
            }
        }
    } else {
        let d = digits(n);
        assert(d.drop_last() =~= Seq::<u8>::empty());
        assert(value_of(Seq::<u8>::empty()) == 0);
        assert(d.last() == (48 + n) as u8);
        assert(value_of(d) == value_of(d.drop_last()) * 10 + (d.last() - 48));
    }
}

proof fn lemma_value_of_prefix(s: Seq<u8>, j: int)
    requires
        0 <= j <= s.len(),
        forall|i: int| 0 <= i < s.len() ==> is_digit(#[trigger] s[i]),
    ensures
        0 <= value_of(s.take(j)) <= value_of(s),
    decreases s.len(),
{
    if j == s.len() {
        assert(s.take(j) =~= s);
        if s.len() > 0 {
            lemma_value_of_prefix(s.drop_last(), j - 1);
            assert(s.drop_last().take(j - 1) =~= s.drop_last());
        }
    } else {
        let t = s.drop_last();
        assert forall|i: int| 0 <= i < t.len() implies is_digit(#[trigger] t[i]) by {
            assert(t[i] == s[i]);
        }
        lemma_value_of_prefix(t, j);
        lemma_value_of_prefix(t, t.len() as int);
        assert(t.take(j) =~= s.take(j));
        assert(t.take(t.len() as int) =~= t);
    }
}

/// What `item_at` says, byte by byte.
proof fn lemma_item_at(b: Seq<u8>, pos: int, w: int)
    requires
        item_at(b, pos, w),
    ensures
        ({
            let len = digits(w as nat).len() as int;
            let start = pos + 7;
            &&& len >= 1
            &&& tax_item(w).len() == len + 8
            &&& b[pos] == OPEN_BRACE
            &&& b[pos + 1] == QUOTE
            &&& b[pos + 2] == LETTER_T
            &&& b[pos + 3] == LETTER_A
            &&& b[pos + 4] == LETTER_X
            &&& b[pos + 5] == QUOTE
            &&& b[pos + 6] == COLON
            &&& forall|i: int| start <= i < start + len ==> is_digit(#[trigger] b[i])
            &&& b[start + len] == CLOSE_BRACE
            &&& b.subrange(start, start + len) == digits(w as nat)
            &&& value_of(b.subrange(start, start + len)) == w
        }),
{
    let d = digits(w as nat);
    lemma_digits(w as nat);
    let item = tax_item(w);
    let len = d.len() as int;
    let start = pos + 7;
    assert(item.len() == len + 8);
    assert forall|i: int| 0 <= i < item.len() implies b[pos + i] == #[trigger] item[i] by {
        assert(b.subrange(pos, pos + item.len())[i] == b[pos + i]);
    }
    assert(item[0] == OPEN_BRACE);
    assert(item[1] == QUOTE);
    assert(item[2] == LETTER_T);
    assert(item[3] == LETTER_A);
    assert(item[4] == LETTER_X);
    assert(item[5] == QUOTE);
    assert(item[6] == COLON);
    assert(item[len + 7] == CLOSE_BRACE);
    assert(b[pos + len + 7] == item[len + 7]);
    assert forall|i: int| 0 <= i < len implies b[start + i] == #[trigger] d[i] by {
        assert(item[7 + i] == d[i]);
        assert(b[pos + (7 + i)] == item[7 + i]);
    }
    assert(b.subrange(start, start + len) =~= d);
    assert forall|i: int| start <= i < start + len implies is_digit(#[trigger] b[i]) by {
        assert(b[start + (i - start)] == d[i - start]);
    }
}

/// Reads `{"tax":w}` at `pos`: `w` and the position after it. Finds every
/// item that is there.
fn parse_item(bytes: &Vec<u8>, pos: usize) -> (r: Option<(u128, usize)>)
    ensures
        r matches Some((_, next)) ==> pos < next <= bytes@.len(),
        forall|w: int|
            #[trigger] item_at(bytes@, pos as int, w) ==> r == Some::<(u128, usize)>(
                (w as u128, (pos + tax_item(w).len()) as usize),
            ),
{
    let ghost b = bytes@;
    let ghost w0 = choose|w: int| item_at(b, pos as int, w);
    proof {
        if item_at(b, pos as int, w0) {
            lemma_item_at(b, pos as int, w0);
        }
        assert forall|w: int| #[trigger] item_at(b, pos as int, w) implies w == w0 by {
            lemma_item_at(b, pos as int, w);
            lemma_item_at(b, pos as int, w0);
            let l = digits(w as nat).len() as int;
            let l0 = digits(w0 as nat).len() as int;
            if l < l0 {
                assert(is_digit(b[pos + 7 + l]));
            } else if l0 < l {
                assert(is_digit(b[pos + 7 + l0]));
            }
        }
    }
    let n: usize = bytes.len();
    if pos > n || n - pos < 8 {
        return None;
    }
    if bytes[pos] != OPEN_BRACE || bytes[pos + 1] != QUOTE || bytes[pos + 2] != LETTER_T
        || bytes[pos + 3] != LETTER_A || bytes[pos + 4] != LETTER_X || bytes[pos + 5] != QUOTE
        || bytes[pos + 6] != COLON {
        return None;
    }
    let start: usize = pos + 7;
    let mut i: usize = start;
    let mut value: u128 = 0;
    while i < n && 48 <= bytes[i] && bytes[i] <= 57
        invariant
            b == bytes@,
            n == b.len(),
            start == pos + 7,
            start <= i <= n,
            forall|j: int| start <= j < i ==> is_digit(#[trigger] b[j]),
            value == value_of(b.subrange(start as int, i as int)),
            item_at(b, pos as int, w0) ==> i <= start + digits(w0 as nat).len(),
            forall|w: int| #[trigger] item_at(b, pos as int, w) ==> w == w0,
        decreases n - i,
    {
        let ghost before = b.subrange(start as int, i as int);
        let ghost after = b.subrange(start as int, i + 1);
        assert(after.drop_last() =~= before);
        assert(after.last() == b[i as int]);
        proof {
            if item_at(b, pos as int, w0) {
                lemma_item_at(b, pos as int, w0);
                let d = digits(w0 as nat);
                assert(i < start + d.len()) by {
                    if i == start + d.len() {
                        assert(CLOSE_BRACE == 125);
                        assert(b[i as int] == CLOSE_BRACE);
                    }
                }
                assert(after =~= d.take(i + 1 - start)) by {
                    assert(b.subrange(start as int, start + d.len()) == d);
                    assert forall|j: int| 0 <= j < after.len() implies after[j] == #[trigger] d.take(
                        i + 1 - start,
                    )[j] by {
                        assert(b.subrange(start as int, start + d.len())[j] == b[start + j]);
                    }
                }
                lemma_value_of_prefix(d, i + 1 - start);
            }
        }
        let digit: u128 = (bytes[i] - 48) as u128;
        let next: Option<u128> = match value.checked_mul(10) {
            Some(v) => v.checked_add(digit),
            None => None,
        };
        match next {
            Some(v) => {
                value = v;
            },
            None => {
                return None;
            },
        }
        i = i + 1;
    }
    if i == start || i >= n || bytes[i] != CLOSE_BRACE {
        return None;
    }
    proof {
        if item_at(b, pos as int, w0) {
            lemma_item_at(b, pos as int, w0);
            let l = digits(w0 as nat).len() as int;
            if i < start + l {
                assert(is_digit(b[i as int]));
            }
        }
    }
    Some((value, i + 1))
}

/// What stands before the `k`-th item: a comma, but none before the first.
pub open spec fn separator(k: int) -> Seq<u8> {
    if k == 0 {
        Seq::empty()
    } else {
        seq![COMMA]
    }
}

proof fn lemma_items_step(ws: Seq<int>, k: int)
    requires
        0 <= k < ws.len(),
    ensures
        tax_items(ws.take(k + 1)) == tax_items(ws.take(k)) + separator(k) + tax_item(ws[k]),
{
    let t = ws.take(k + 1);
    assert(t.drop_last() =~= ws.take(k));
    assert(t.last() == ws[k]);
    if k == 0 {
        assert(tax_items(ws.take(0)) == Seq::<u8>::empty());
        assert(tax_items(t) == tax_item(t[0]));
        assert(tax_items(ws.take(k)) + separator(k) + tax_item(ws[k]) =~= tax_item(ws[k]));
    }
}

proof fn lemma_items_prefix(ws: Seq<int>, k: int)
    requires
        0 <= k <= ws.len(),
    ensures
        tax_items(ws.take(k)).len() <= tax_items(ws).len(),
        tax_items(ws).subrange(0, tax_items(ws.take(k)).len() as int) == tax_items(ws.take(k)),
    decreases ws.len(),
{
    if k == ws.len() {
        assert(ws.take(k) =~= ws);
        assert(tax_items(ws).subrange(0, tax_items(ws).len() as int) =~= tax_items(ws));
    } else {
        let p = ws.drop_last();
        assert(ws.take(k) =~= p.take(k));
        lemma_items_prefix(p, k);
        let m = tax_items(p.take(k)).len() as int;
        if ws.len() == 1 {
            assert(tax_items(ws.take(k)) =~= Seq::<u8>::empty());
            assert(tax_items(ws).subrange(0, 0) =~= Seq::<u8>::empty());
        } else {
            assert(tax_items(ws) == tax_items(p) + seq![COMMA] + tax_item(ws.last()));
            assert(tax_items(ws).subrange(0, m) =~= tax_items(p).subrange(0, m));
        }
    }
}

/// Where the `k`-th item of `tax_list(ws)` stands.
proof fn lemma_list_layout(b: Seq<u8>, ws: Seq<int>, k: int)
    requires
        b == tax_list(ws),
        fits(ws),
        0 <= k <= ws.len(),
    ensures
        ({
            let p: int = 1 + tax_items(ws.take(k)).len() as int;
            let q: int = p + separator(k).len();
            &&& k == ws.len() ==> p + 1 == b.len() && b[p] == CLOSE_BRACKET
            &&& k < ws.len() ==> {
                &&& k > 0 ==> b[p] == COMMA
                &&& item_at(b, q, ws[k])
                &&& 1 + tax_items(ws.take(k + 1)).len() == q + tax_item(ws[k]).len()
            }
        }),
{
    let items = tax_items(ws);
    let p: int = 1 + tax_items(ws.take(k)).len() as int;
    assert(b.len() == items.len() + 2);
    assert forall|j: int| 0 <= j < items.len() implies b[1 + j] == #[trigger] items[j] by {}
    if k == ws.len() {
        assert(ws.take(k) =~= ws);
        assert(b[p] == CLOSE_BRACKET);
    } else {
        let sep = separator(k);
        let item = tax_item(ws[k]);
        let q: int = p + sep.len();
        let pre = tax_items(ws.take(k + 1));
        lemma_items_step(ws, k);
        lemma_items_prefix(ws, k + 1);
        assert(pre.len() <= items.len());
        assert forall|j: int| 0 <= j < pre.len() implies b[1 + j] == #[trigger] pre[j] by {
            assert(items.subrange(0, pre.len() as int)[j] == items[j]);
        }
        assert(0 <= ws[k] <= u128::MAX / AMOUNT_SCALE);
        let end: int = q + item.len();
        assert forall|j: int| 0 <= j < item.len() implies b.subrange(q, end)[j]
            == #[trigger] item[j] by {
            assert(pre[(p - 1) + sep.len() + j] == item[j]);
            assert(b[1 + ((p - 1) + sep.len() + j)] == pre[(p - 1) + sep.len() + j]);
        }
        assert(b.subrange(q, end) =~= item);
        if k > 0 {
            assert(pre[p - 1] == COMMA);
            assert(b[1 + (p - 1)] == pre[p - 1]);
        }
    }
}

/// Whether two byte strings are equal.
fn same_bytes(a: &Vec<u8>, b: &Vec<u8>) -> (r: bool)
    ensures
        r == (a@ == b@),
{
    if a.len() != b.len() {
        return false;
    }
    let mut i: usize = 0;
    while i < a.len()
        invariant
            a.len() == b.len(),
            0 <= i <= a.len(),
            forall|j: int| 0 <= j < i ==> a@[j] == b@[j],
        decreases a.len() - i,
    {
        if a[i] != b[i] {
            return false;
        }
        i = i + 1;
    }
    assert(a@ =~= b@);
    true
}

/// Reads a list written by `encode_taxes`: each `{"tax":w}` becomes a tax of
/// `w` whole units. It succeeds exactly on such lists whose items fit in amount units.
pub fn decode_taxes(bytes: &Vec<u8>) -> (r: Option<Vec<Tax>>)
    ensures
        r matches Some(v) ==> bytes@ == tax_list(whole_units(v@)) && forall|i: int|
            0 <= i < v@.len() ==> #[trigger] v@[i].tax % AMOUNT_SCALE == 0,
        forall|ws: Seq<int>|
            fits(ws) && #[trigger] tax_list(ws) == bytes@ ==> (r matches Some(v) && whole_units(
                v@,
            ) == ws),
{
    let ghost b = bytes@;
    let n: usize = bytes.len();
    proof {
        assert forall|ws: Seq<int>| fits(ws) && #[trigger] tax_list(ws) == b implies n >= 2
            && b[0] == OPEN_BRACKET by {}
    }
    if n < 2 || bytes[0] != OPEN_BRACKET {
        return None;
    }
    let mut out: Vec<Tax> = Vec::new();
    let mut pos: usize = 1;
    proof {
        assert forall|ws: Seq<int>| fits(ws) && #[trigger] tax_list(ws) == b implies (0
            <= ws.len() && whole_units(out@) == ws.take(0) && pos == 1 + tax_items(
            ws.take(0),
        ).len()) by {
            assert(whole_units(out@) =~= ws.take(0));
            assert(ws.take(0) =~= Seq::<int>::empty());
        }
    }
    while pos < n && bytes[pos] != CLOSE_BRACKET
        invariant
            b == bytes@,
            n == b.len(),
            1 <= pos <= n,
            forall|i: int| 0 <= i < out@.len() ==> #[trigger] out@[i].tax % AMOUNT_SCALE == 0,
            forall|ws: Seq<int>|
                fits(ws) && #[trigger] tax_list(ws) == b ==> (out@.len() <= ws.len()
                    && whole_units(out@) == ws.take(out@.len() as int) && pos == 1
                    + tax_items(ws.take(out@.len() as int)).len()),
        decreases n - pos,
    {
        let ghost k = out@.len() as int;
        let ghost q: int = pos + separator(k).len();
        proof {
            assert forall|ws: Seq<int>| fits(ws) && #[trigger] tax_list(ws) == b implies k
                < ws.len() && (k > 0 ==> b[pos as int] == COMMA) && item_at(b, q, ws[k]) && 1
                + tax_items(ws.take(k + 1)).len() == q + tax_item(ws[k]).len() by {
                lemma_list_layout(b, ws, k);
            }
        }
        let mut at: usize = pos;
        if out.len() > 0 {
            if bytes[pos] != COMMA {
                return None;
            }
            at = pos + 1;
        }
        let (w, next) = match parse_item(bytes, at) {
            Some(x) => x,
            None => {
                return None;
            },
        };
        let value: u128 = match w.checked_mul(AMOUNT_SCALE) {
            Some(c) => c,
            None => {
                return None;
            },
        };
        let ghost prior = out@;
        proof {
            vstd::arithmetic::div_mod::lemma_div_multiples_vanish(w as int, AMOUNT_SCALE as int);
            vstd::arithmetic::div_mod::lemma_fundamental_div_mod(value as int, AMOUNT_SCALE as int);
            assert(value as int / (AMOUNT_SCALE as int) == w);
        }
        out.push(Tax { tax: value });
        proof {
            assert forall|i: int| 0 <= i < out@.len() implies #[trigger] out@[i].tax % AMOUNT_SCALE
                == 0 by {
                if i < prior.len() {
                    assert(out@[i] == prior[i]);
                }
            }
            assert forall|ws: Seq<int>| fits(ws) && #[trigger] tax_list(ws) == b implies (
            out@.len() <= ws.len() && whole_units(out@) == ws.take(out@.len() as int) && next
                == 1 + tax_items(ws.take(out@.len() as int)).len()) by {
                assert(item_at(b, at as int, ws[k]));
                assert(whole_units(out@) =~= ws.take(k + 1)) by {
                    assert(whole_units(prior) == ws.take(k));
                    assert forall|i: int| 0 <= i < k implies whole_units(out@)[i] == ws.take(
                        k + 1,
                    )[i] by {
                        assert(out@[i] == prior[i]);
                        assert(whole_units(prior)[i] == ws.take(k)[i]);
                    }
                }
            }
        }
        pos = next;
    }
    proof {
        assert forall|ws: Seq<int>| fits(ws) && #[trigger] tax_list(ws) == b implies out@.len()
            == ws.len() && pos + 1 == n by {
            lemma_list_layout(b, ws, out@.len() as int);
            if out@.len() < ws.len() {
                let k = out@.len() as int;
                let q: int = pos + separator(k).len();
                lemma_item_at(b, q, ws[k]);
            }
        }
    }
    if pos >= n || pos + 1 != n {
        return None;
    }
    let again = encode_taxes(&out);
    if !same_bytes(&again, bytes) {
        proof {
            assert forall|ws: Seq<int>| fits(ws) && #[trigger] tax_list(ws) == b implies false by {
                assert(ws.take(ws.len() as int) =~= ws);
            }
        }
        return None;
    }
    proof {
        assert forall|ws: Seq<int>| fits(ws) && #[trigger] tax_list(ws) == b implies whole_units(
            out@,
        ) == ws by {
            assert(ws.take(ws.len() as int) =~= ws);
        }
    }
    Some(out)
}

/// Encoding a list of taxes and decoding it again. `decode_taxes` finds
/// every list that `encode_taxes` writes, since the whole units of any tax fit;
/// what it gives back (whole units equal, every tax a whole number of units)
/// holds each tax truncated to whole units, in amount units. The fraction is lost: a
/// tax with one does not come back equal.
pub proof fn encoding_round_trip(taxes: Seq<Tax>, decoded: Seq<Tax>)
    requires
        whole_units(decoded) == whole_units(taxes),
        forall|i: int| 0 <= i < decoded.len() ==> #[trigger] decoded[i].tax % AMOUNT_SCALE == 0,
    ensures
        fits(whole_units(taxes)),
        decoded.len() == taxes.len(),
        forall|i: int|
            0 <= i < taxes.len() ==> #[trigger] decoded[i].tax == taxes[i].tax / AMOUNT_SCALE * AMOUNT_SCALE,
        forall|i: int|
            0 <= i < taxes.len() && taxes[i].tax % AMOUNT_SCALE != 0 ==> #[trigger] decoded[i]
                != taxes[i],
{
    assert(whole_units(decoded).len() == decoded.len());
    assert forall|i: int| 0 <= i < taxes.len() implies #[trigger] decoded[i].tax
        == taxes[i].tax / AMOUNT_SCALE * AMOUNT_SCALE by {
        let c = decoded[i].tax as int;
        let m = AMOUNT_SCALE as int;
        assert(whole_units(decoded)[i] == whole_units(taxes)[i]);
        assert(whole_units(decoded)[i] == c / m);
        assert(whole_units(taxes)[i] == taxes[i].tax as int / m);
        vstd::arithmetic::div_mod::lemma_fundamental_div_mod(c, m);
        assert(c == m * (c / m));
    }
    assert forall|i: int| 0 <= i < whole_units(taxes).len() implies 0 <= #[trigger] whole_units(
        taxes,
    )[i] <= u128::MAX / AMOUNT_SCALE by {
        vstd::arithmetic::div_mod::lemma_div_is_ordered(taxes[i].tax as int, u128::MAX as int, AMOUNT_SCALE as int);
    }
}

} // verus!
