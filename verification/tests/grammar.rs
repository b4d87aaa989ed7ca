use spreadsheet_addresses::{AddressParsingError, Coordinate};

#[test]
fn marker_before_letters_pins_the_column() {
    assert_eq!(
        Coordinate::from_address("$CV23"),
        Ok(Coordinate {
            row: 22,
            column: 99,
            relative_row: true,
            relative_column: false,
        })
    );
}

#[test]
fn marker_before_digits_pins_the_row() {
    assert_eq!(
        Coordinate::from_address("CV$23"),
        Ok(Coordinate {
            row: 22,
            column: 99,
            relative_row: false,
            relative_column: true,
        })
    );
    assert_eq!(
        Coordinate::from_address("$CV$23"),
        Ok(Coordinate {
            row: 22,
            column: 99,
            relative_row: false,
            relative_column: false,
        })
    );
}

#[test]
fn markers_anywhere_else_fail() {
    assert!(Coordinate::from_address("CV23$").is_err());
    assert!(Coordinate::from_address("C$V23").is_err());
    assert!(Coordinate::from_address("$$CV23").is_err());
    assert!(Coordinate::from_address("$CV$$23").is_err());
}

#[test]
fn text_that_does_not_match_the_grammar_fails() {
    assert_eq!(
        Coordinate::from_address("Hello World"),
        Err(AddressParsingError {
            input: "Hello World".to_string()
        })
    );
    assert!(Coordinate::from_address("A").is_err());
    assert!(Coordinate::from_address("23").is_err());
    assert!(Coordinate::from_address("a1").is_err());
    assert!(Coordinate::from_address("A1 ").is_err());
    assert!(Coordinate::from_address("A1X").is_err());
    assert!(Coordinate::from_address("").is_err());
    assert!(Coordinate::from_address("$").is_err());
    assert!(Coordinate::from_address("$1").is_err());
    assert!(Coordinate::from_address("Ä1").is_err());
}

#[test]
fn the_error_carries_the_failing_text_back() {
    let failing = ["", "A", "23", "a1", "A1 ", "A1X", "CV23$", "A0"];
    for text in failing {
        assert_eq!(
            Coordinate::from_address(text),
            Err(AddressParsingError {
                input: text.to_string()
            })
        );
    }
}

#[test]
fn new_stores_its_fields_unchanged() {
    let coordinate = Coordinate::new(16, 2, true, false);
    assert_eq!(
        coordinate,
        Coordinate {
            row: 16,
            column: 2,
            relative_row: true,
            relative_column: false,
        }
    );
}
