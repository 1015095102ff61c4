use capital_gains::portfolio::{Operation, OperationType, Tax, TaxConfig};
use capital_gains::serializer::{compute_taxes, decode_taxes, encode_taxes, ConverterError};

/// A price in cents and a quantity in whole units, in the library's scales.
fn buy(cents: u64, units: u64) -> Operation {
    Operation::new(OperationType::Buy, cents * 10_000, units * 1_000_000)
}

fn sell(cents: u64, units: u64) -> Operation {
    Operation::new(OperationType::Sell, cents * 10_000, units * 1_000_000)
}

/// A tax of `c` cents.
fn cents(c: u128) -> Tax {
    Tax { tax: c * 10_000_000_000 }
}

fn run(operations: Vec<Operation>) -> Result<String, ConverterError> {
    let taxes = compute_taxes(&operations, TaxConfig::standard())?;
    Ok(String::from_utf8(encode_taxes(&taxes)).unwrap())
}

#[test]
fn test_serializer_invalid_input_order() {
    let result = run(vec![sell(1500, 50), buy(1000, 100), sell(1500, 50)]);
    assert!(result.is_err());
    assert!(matches!(result.unwrap_err(), ConverterError::InvalidOperation));
}

#[test]
fn test_serializer_case_1() {
    let result = run(vec![buy(1000, 100), sell(1500, 50), sell(1500, 50)]);
    assert_eq!(result.unwrap(), r#"[{"tax":0},{"tax":0},{"tax":0}]"#);
}

#[test]
fn test_serializer_case_2() {
    let result = run(vec![buy(1000, 10000), sell(2000, 5000), sell(500, 5000)]);
    assert_eq!(result.unwrap(), r#"[{"tax":0},{"tax":10000},{"tax":0}]"#);
}

#[test]
fn test_serializer_case_3() {
    let result = run(vec![buy(1000, 10000), sell(500, 5000), sell(2000, 5000)]);
    assert_eq!(result.unwrap(), r#"[{"tax":0},{"tax":0},{"tax":5000}]"#);
}

#[test]
fn test_serializer_case_4() {
    let result = run(vec![buy(1000, 10000), buy(2500, 5000), sell(1500, 10000)]);
    assert_eq!(result.unwrap(), r#"[{"tax":0},{"tax":0},{"tax":0}]"#);
}

#[test]
fn test_serializer_case_5() {
    let result = run(vec![
        buy(1000, 10000),
        buy(2500, 5000),
        sell(1500, 10000),
        sell(2500, 5000),
    ]);
    assert_eq!(result.unwrap(), r#"[{"tax":0},{"tax":0},{"tax":0},{"tax":10000}]"#);
}

#[test]
fn test_serializer_case_6() {
    let result = run(vec![
        buy(1000, 10000),
        sell(200, 5000),
        sell(2000, 2000),
        sell(2000, 2000),
        sell(2500, 1000),
    ]);
    assert_eq!(
        result.unwrap(),
        r#"[{"tax":0},{"tax":0},{"tax":0},{"tax":0},{"tax":3000}]"#
    );
}

#[test]
fn failure_late_in_batch_discards_earlier_taxes() {
    let operations = vec![buy(1000, 10000), sell(2000, 5000), sell(2000, 5001)];
    assert_eq!(
        compute_taxes(&operations, TaxConfig::standard()),
        Err(ConverterError::InvalidOperation)
    );
}

#[test]
fn empty_batch_gives_empty_list() {
    assert_eq!(compute_taxes(&vec![], TaxConfig::standard()), Ok(vec![]));
    assert_eq!(encode_taxes(&vec![]), b"[]".to_vec());
}

#[test]
fn compute_taxes_gives_cents() {
    let taxes = compute_taxes(&vec![buy(1000, 10000), sell(2000, 5000)], TaxConfig::standard());
    assert_eq!(taxes, Ok(vec![cents(0), cents(1_000_000)]));
}

#[test]
fn encoding_truncates_to_whole_units() {
    let encoded = encode_taxes(&vec![cents(1234)]);
    assert_eq!(encoded, br#"[{"tax":12}]"#.to_vec());
    let encoded = encode_taxes(&vec![cents(99), Tax { tax: u128::MAX }]);
    assert_eq!(encoded, br#"[{"tax":0},{"tax":340282366920938463463374607}]"#.to_vec());
}

#[test]
fn test_tax_struct() {
    let serialized = encode_taxes(&vec![cents(1234)]);
    assert_eq!(serialized, br#"[{"tax":12}]"#.to_vec());
    let deserialized = decode_taxes(&serialized).unwrap();
    assert_eq!(deserialized[0], cents(1200));
}

#[test]
fn round_trip_keeps_truncated_units() {
    let taxes = vec![cents(0), cents(1_000_000), cents(2018), cents(99)];
    let decoded = decode_taxes(&encode_taxes(&taxes)).unwrap();
    assert_eq!(
        decoded,
        vec![cents(0), cents(1_000_000), cents(2000), cents(0)]
    );
    // the fraction is lost
    assert_ne!(decoded, taxes);
    let amounts: Vec<u128> = decoded.iter().map(|t| t.amount()).collect();
    assert_eq!(amounts, vec![0, 10_000, 20, 0]);
}

#[test]
fn round_trip_of_largest_tax() {
    let taxes = vec![Tax { tax: u128::MAX }];
    let decoded = decode_taxes(&encode_taxes(&taxes)).unwrap();
    assert_eq!(decoded, vec![Tax { tax: u128::MAX / 1_000_000_000_000 * 1_000_000_000_000 }]);
}

#[test]
fn decode_empty_list() {
    assert_eq!(decode_taxes(&b"[]".to_vec()), Some(vec![]));
}

#[test]
fn decode_refuses_what_encoding_never_writes() {
    for text in [
        "",
        "[",
        "]",
        "[{\"tax\":1}",
        "[{\"tax\":01}]",
        "[{\"tax\": 1}]",
        "[{\"tax\":}]",
        "[,{\"tax\":1}]",
        "[{\"tax\":1},]",
        "[{\"tax\":1}{\"tax\":2}]",
        "[{\"tax\":1}] ",
        "[{\"tix\":1}]",
        "[{\"tax\":340282366920938463463374608}]",
        "[{\"tax\":9999999999999999999999999999999999999999}]",
    ] {
        assert_eq!(decode_taxes(&text.as_bytes().to_vec()), None, "{}", text);
    }
}

#[test]
fn decode_reads_several_items() {
    let decoded = decode_taxes(&br#"[{"tax":0},{"tax":10000},{"tax":3000}]"#.to_vec());
    assert_eq!(
        decoded,
        Some(vec![cents(0), cents(1_000_000), cents(300_000)])
    );
}
