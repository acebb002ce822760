use ssa::text::decimal;

#[test]
fn decimal_of_numbers() {
    assert_eq!(decimal(0), "0");
    assert_eq!(decimal(7), "7");
    assert_eq!(decimal(4294967295), "4294967295");
}
