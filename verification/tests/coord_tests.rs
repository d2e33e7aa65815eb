use hexboard::coord::{Coord, ParseCoordError};

#[test]
fn test_constructor() {
    assert_eq!(Coord::new(14, 15).unwrap(), Coord { x: 14, y: 15 });
    assert_eq!(Coord::new(14, 26), None);
}

#[test]
fn test_neighbors() {
    assert_eq!(
        Coord { x: 0, y: 0 }.neighbors(),
        vec![Coord { x: 1, y: 0 }, Coord { x: 0, y: 1 }]
    );
    assert_eq!(
        Coord { x: 0, y: 5 }.neighbors(),
        vec![
            Coord { x: 0, y: 4 },
            Coord { x: 1, y: 4 },
            Coord { x: 1, y: 5 },
            Coord { x: 0, y: 6 }
        ]
    );
    assert_eq!(
        Coord { x: 4, y: 0 }.neighbors(),
        vec![
            Coord { x: 5, y: 0 },
            Coord { x: 4, y: 1 },
            Coord { x: 3, y: 1 },
            Coord { x: 3, y: 0 }
        ]
    );
    assert_eq!(
        Coord { x: 7, y: 5 }.neighbors(),
        vec![
            Coord { x: 7, y: 4 },
            Coord { x: 8, y: 4 },
            Coord { x: 8, y: 5 },
            Coord { x: 7, y: 6 },
            Coord { x: 6, y: 6 },
            Coord { x: 6, y: 5 }
        ]
    );
}

#[test]
fn test_neighbor_counts() {
    assert_eq!(Coord { x: 0, y: 0 }.neighbors().len(), 2);
    assert_eq!(Coord { x: 0, y: 7 }.neighbors().len(), 4);
    assert_eq!(Coord { x: 7, y: 0 }.neighbors().len(), 4);
    assert_eq!(Coord { x: 3, y: 9 }.neighbors().len(), 6);
}

#[test]
fn test_is_neighbor() {
    assert!(Coord { x: 0, y: 0 }.is_neighbor(Coord { x: 0, y: 1 }));
    assert!(Coord { x: 0, y: 0 }.is_neighbor(Coord { x: 1, y: 0 }));
    assert!(Coord { x: 3, y: 0 }.is_neighbor(Coord { x: 2, y: 0 }));
    assert!(Coord { x: 0, y: 5 }.is_neighbor(Coord { x: 0, y: 4 }));
    assert!(Coord { x: 3, y: 0 }.is_neighbor(Coord { x: 2, y: 1 }));
    assert!(Coord { x: 0, y: 5 }.is_neighbor(Coord { x: 1, y: 4 }));
    assert!(Coord { x: 6, y: 7 }.is_neighbor(Coord { x: 6, y: 7 }));

    assert!(!Coord { x: 0, y: 0 }.is_neighbor(Coord { x: 1, y: 1 }));
    assert!(!Coord { x: 0, y: 0 }.is_neighbor(Coord { x: 12, y: 10 }));
    assert!(!Coord { x: 3, y: 0 }.is_neighbor(Coord { x: 2, y: 2 }));
}

#[test]
fn test_distance() {
    assert_eq!(Coord { x: 0, y: 0 }.distance(Coord { x: 1, y: 1 }), 2);
    assert_eq!(Coord { x: 4, y: 3 }.distance(Coord { x: 1, y: 1 }), 5);
    assert_eq!(Coord { x: 4, y: 3 }.distance(Coord { x: 4, y: 2 }), 1);
    assert_eq!(Coord { x: 4, y: 3 }.distance(Coord { x: 4, y: 3 }), 0);
}

#[test]
fn test_distance_neighbor_relation() {
    let a = Coord { x: 4, y: 3 };
    for x in 0..10u8 {
        for y in 0..10u8 {
            let b = Coord { x, y };
            assert_eq!(a.distance(b) == 0, a == b);
            assert_eq!(a.distance(b) == 1, a.is_neighbor(b) && a != b);
        }
    }
}

#[test]
fn coord_test_display() {
    assert_eq!(Coord { x: 0, y: 0 }.to_text(), "a1");
    assert_eq!(Coord { x: 13, y: 0 }.to_text(), "n1");
    assert_eq!(Coord { x: 13, y: 5 }.to_text(), "n6");
    assert_eq!(Coord { x: 25, y: 25 }.to_text(), "z26");
    assert_eq!(Coord { x: 25, y: 0 }.to_text(), "z1");
}

#[test]
fn test_parsing() {
    for string in vec!["a1", "a16", "B6", "z6", "z23", "Q25"].iter() {
        assert_eq!(
            string.to_lowercase(),
            Coord::from_text(string).unwrap().to_text()
        );
    }
    assert!(Coord::from_text("ZZ").is_err());
    assert!(Coord::from_text("Z126").is_err());
}

#[test]
fn test_parse_errors() {
    assert_eq!(Coord::from_text("ZZ"), Err(ParseCoordError::InvalidInt));
    assert_eq!(Coord::from_text("!7"), Err(ParseCoordError::InvalidFormat));
    assert_eq!(Coord::from_text("a"), Err(ParseCoordError::InvalidFormat));
    assert_eq!(Coord::from_text(""), Err(ParseCoordError::InvalidFormat));
    assert_eq!(Coord::from_text("1a"), Err(ParseCoordError::InvalidFormat));
    assert_eq!(Coord::from_text("z126"), Err(ParseCoordError::InvalidInt));
    assert_eq!(Coord::from_text("a0"), Err(ParseCoordError::InvalidInt));
    assert_eq!(Coord::from_text("a27"), Err(ParseCoordError::InvalidInt));
    assert_eq!(Coord::from_text("b2x"), Err(ParseCoordError::InvalidInt));
    assert_eq!(Coord::from_text("a26"), Ok(Coord { x: 0, y: 25 }));
    assert_eq!(Coord::from_text("A01"), Ok(Coord { x: 0, y: 0 }));
}
