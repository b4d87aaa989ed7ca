use spreadsheet_addresses::Coordinate;

#[test]
fn column_letters_cross_every_digit_length_boundary() {
    assert_eq!(Coordinate::new(0, 0, true, true).to_address(), "A1".to_string());
    assert_eq!(Coordinate::new(0, 25, true, true).to_address(), "Z1".to_string());
    assert_eq!(Coordinate::new(0, 26, true, true).to_address(), "AA1".to_string());
    assert_eq!(Coordinate::new(0, 27, true, true).to_address(), "AB1".to_string());
    assert_eq!(Coordinate::new(0, 701, true, true).to_address(), "ZZ1".to_string());
    assert_eq!(Coordinate::new(0, 702, true, true).to_address(), "AAA1".to_string());
}

#[test]
fn column_letters_decode_across_the_same_boundaries() {
    assert_eq!(Coordinate::from_address("A1"), Ok(Coordinate::new(0, 0, true, true)));
    assert_eq!(Coordinate::from_address("Z1"), Ok(Coordinate::new(0, 25, true, true)));
    assert_eq!(Coordinate::from_address("AA1"), Ok(Coordinate::new(0, 26, true, true)));
    assert_eq!(Coordinate::from_address("AB1"), Ok(Coordinate::new(0, 27, true, true)));
    assert_eq!(Coordinate::from_address("ZZ1"), Ok(Coordinate::new(0, 701, true, true)));
    assert_eq!(Coordinate::from_address("AAA1"), Ok(Coordinate::new(0, 702, true, true)));
}

#[test]
fn rows_are_rendered_one_based() {
    assert_eq!(Coordinate::new(0, 0, true, true).to_address(), "A1".to_string());
    assert_eq!(Coordinate::new(99, 0, true, true).to_address(), "A100".to_string());
}

#[test]
fn row_digit_run_one_past_the_widest_row_fails() {
    assert_eq!(
        Coordinate::from_address("A4294967295"),
        Ok(Coordinate::new(u32::MAX - 1, 0, true, true))
    );
    assert_eq!(
        Coordinate::from_address("A4294967296"),
        Err(spreadsheet_addresses::AddressParsingError {
            input: "A4294967296".to_string()
        })
    );
}

#[test]
fn row_zero_has_no_zero_based_index_and_fails() {
    assert!(Coordinate::from_address("A0").is_err());
    assert!(Coordinate::from_address("A000").is_err());
    assert!(Coordinate::from_address("A01").is_ok());
    assert_eq!(Coordinate::from_address("A01"), Ok(Coordinate::new(0, 0, true, true)));
}

#[test]
fn column_letter_run_past_the_widest_column_fails() {
    let widest = Coordinate::new(0, u32::MAX, true, true).to_address();
    assert_eq!(Coordinate::from_address(&widest), Ok(Coordinate::new(0, u32::MAX, true, true)));
    assert!(Coordinate::from_address("ZZZZZZZ1").is_err());
}
