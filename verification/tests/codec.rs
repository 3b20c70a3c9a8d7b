use sheetgrid::coord::{Coord, CoordFromRefErr};

#[test]
fn round_trip_columns() {
    for i in 0..10000usize {
        let name = Coord::index_to_b26(i);
        let refer = format!("{}1", name);
        let got = Coord::from_ref(&refer, Some((0, name.len(), refer.len())));
        assert_eq!(got, Ok(Coord { x: i, y: 0 }));
    }
}

#[test]
fn reference_decode() {
    assert_eq!(
        Coord::from_ref("AA10", Some((0, 2, 4))),
        Ok(Coord { x: 26, y: 9 })
    );
    assert_eq!(Coord::from_ref("A1", Some((0, 1, 2))), Ok(Coord { x: 0, y: 0 }));
}

#[test]
fn encode_column_names() {
    assert_eq!(Coord::index_to_b26(0), "A");
    assert_eq!(Coord::index_to_b26(25), "Z");
    assert_eq!(Coord::index_to_b26(26), "AA");
    assert_eq!(Coord::index_to_b26(27), "AB");
    assert_eq!(Coord::index_to_b26(701), "ZZ");
    assert_eq!(Coord::index_to_b26(702), "AAA");
}

#[test]
fn invalid_letter_rejected() {
    assert_eq!(
        Coord::from_ref("a1", Some((0, 1, 2))),
        Err(CoordFromRefErr::InvalidLetter)
    );
    assert_eq!(
        Coord::from_ref("A;2", Some((0, 2, 3))),
        Err(CoordFromRefErr::InvalidLetter)
    );
}

#[test]
fn invalid_number_rejected() {
    // A row of zero is one-based, so it cannot decode.
    assert_eq!(
        Coord::from_ref("A0", Some((0, 1, 2))),
        Err(CoordFromRefErr::InvalidNumber)
    );
    // An empty digit span is not a positive integer.
    assert_eq!(
        Coord::from_ref("AB", Some((0, 2, 2))),
        Err(CoordFromRefErr::InvalidNumber)
    );
    // Digits with a stray character in them do not parse.
    assert_eq!(
        Coord::from_ref("A1x2", Some((0, 1, 4))),
        Err(CoordFromRefErr::InvalidNumber)
    );
}

#[test]
fn to_ref_writes_one_based_reference() {
    assert_eq!(Coord { x: 0, y: 0 }.to_ref(), "A1");
    assert_eq!(Coord { x: 26, y: 9 }.to_ref(), "AA10");
    assert_eq!(Coord { x: 2, y: 11 }.to_ref(), "C12");
}

#[test]
fn to_ref_decodes_back_to_the_coordinate() {
    for &(x, y) in &[(0usize, 0usize), (25, 3), (26, 9), (701, 41), (702, 0)] {
        let c = Coord { x, y };
        let refer = c.to_ref();
        let letters = Coord::index_to_b26(x).len();
        assert_eq!(Coord::from_ref(&refer, Some((0, letters, refer.len()))), Ok(c));
    }
}

#[test]
fn diagnostic_line_format() {
    assert_eq!(
        sheetgrid::diag::format_diagnostic("f.csv", 0, 3, "boom"),
        "f.csv:1:4 Error: boom"
    );
    assert_eq!(
        sheetgrid::diag::format_diagnostic("dir/data.txt", 11, 0, "bad cell"),
        "dir/data.txt:12:1 Error: bad cell"
    );
}
