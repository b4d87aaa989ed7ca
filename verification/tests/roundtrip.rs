use spreadsheet_addresses::Coordinate;

#[test]
fn convert_absolute_coordinates_to_addresses_and_back_0_to_n() {
    for row in 0..1000u32 {
        for column in 0..1000u32 {
            let coordinate = Coordinate::new(row, column, false, false);
            let address = coordinate.to_address().to_owned();
            let parsed_coordinate = Coordinate::from_address(&address).unwrap();
            assert_eq!(coordinate, parsed_coordinate);
        }
    }
}

#[test]
fn convert_relative_coordinates_to_addresses_and_back_0_to_n() {
    for row in 0..1000u32 {
        for column in 0..1000u32 {
            let coordinate = Coordinate::new(row, column, true, true);
            let address = coordinate.to_address().to_owned();
            let parsed_coordinate = Coordinate::from_address(&address).unwrap();
            assert_eq!(coordinate, parsed_coordinate);
        }
    }
}

#[test]
fn round_trip_holds_for_every_flag_combination() {
    for row in 0..200u32 {
        for column in 0..200u32 {
            for relative_row in [false, true] {
                for relative_column in [false, true] {
                    let coordinate = Coordinate::new(row, column, relative_row, relative_column);
                    let address = coordinate.to_address();
                    let parsed_coordinate = Coordinate::from_address(&address).unwrap();
                    assert_eq!(coordinate, parsed_coordinate);
                }
            }
        }
    }
}

#[test]
fn round_trip_holds_at_the_edges_of_the_domain() {
    let rows = [0u32, 1, 25, 26, 99, 100, u32::MAX - 2, u32::MAX - 1];
    let columns = [0u32, 1, 25, 26, 701, 702, u32::MAX - 1, u32::MAX];
    for &row in rows.iter() {
        for &column in columns.iter() {
            for relative_row in [false, true] {
                for relative_column in [false, true] {
                    let coordinate = Coordinate::new(row, column, relative_row, relative_column);
                    let address = coordinate.to_address();
                    let parsed_coordinate = Coordinate::from_address(&address).unwrap();
                    assert_eq!(coordinate, parsed_coordinate);
                }
            }
        }
    }
}
