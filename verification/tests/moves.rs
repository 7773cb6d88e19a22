use halite_net::codec::deserialize_move_set;
use halite_net::codec::serialize_move_set;
use halite_net::error::ProtocolError;
use halite_net::grid::Location;
use halite_net::moves::MoveSet;

fn line(s: &str) -> Vec<u8> {
    s.as_bytes().to_vec()
}

#[test]
fn move_set_round_trip() {
    // Encoding a move set then parsing it back token by token yields the
    // same (coordinate, direction) facts.
    let mut ms = MoveSet::new();
    ms.insert(Location { x: 3, y: 4 }, 2);
    ms.insert(Location { x: 1, y: 2 }, 0);
    ms.insert(Location { x: 65535, y: 0 }, 255);
    let encoded = serialize_move_set(&ms);
    let back = deserialize_move_set(&encoded).unwrap();
    assert_eq!(back.entries, ms.entries);
}

#[test]
fn move_set_serializes_positionally() {
    let mut ms = MoveSet::new();
    ms.insert(Location { x: 3, y: 4 }, 2);
    assert_eq!(serialize_move_set(&ms), b"3 4 2 ".to_vec());
}

#[test]
fn empty_move_set_is_whitespace_only() {
    // An empty set encodes to a token-free line, and that line decodes
    // back to an empty set.
    let ms = MoveSet::new();
    let encoded = serialize_move_set(&ms);
    assert!(encoded.iter().all(|b| *b == b' ' || *b == b'\t' || *b == b'\r' || *b == b'\n'));
    let back = deserialize_move_set(&encoded).unwrap();
    assert_eq!(back.entries.len(), 0);
    let also = deserialize_move_set(&line("   \t ")).unwrap();
    assert_eq!(also.entries.len(), 0);
}

#[test]
fn insert_replaces_existing_coordinate() {
    let mut ms = MoveSet::new();
    ms.insert(Location { x: 7, y: 7 }, 1);
    ms.insert(Location { x: 7, y: 7 }, 4);
    assert_eq!(ms.len(), 1);
    assert_eq!(ms.entry_at(0), (Location { x: 7, y: 7 }, 4));
}

#[test]
fn insert_keeps_distinct_coordinates() {
    let mut ms = MoveSet::new();
    ms.insert(Location { x: 1, y: 0 }, 1);
    ms.insert(Location { x: 0, y: 1 }, 2);
    assert_eq!(ms.len(), 2);
}

#[test]
fn decode_moves_missing_field() {
    assert!(matches!(deserialize_move_set(&line("3 4")), Err(ProtocolError::MissingField)));
    assert!(matches!(deserialize_move_set(&line("3 4 2 7")), Err(ProtocolError::MissingField)));
}

#[test]
fn decode_moves_malformed() {
    assert!(matches!(deserialize_move_set(&line("3 4 x")), Err(ProtocolError::MalformedInt)));
    assert!(matches!(deserialize_move_set(&line("3 4 300")), Err(ProtocolError::MalformedInt)));
    assert!(matches!(deserialize_move_set(&line("99999 4 2")), Err(ProtocolError::MalformedInt)));
}

#[test]
fn decode_moves_any_order() {
    // The engine reads the line as an unordered set of facts: both
    // orderings carry the same facts.
    let a = deserialize_move_set(&line("1 2 3 4 5 6")).unwrap();
    let b = deserialize_move_set(&line("4 5 6 1 2 3")).unwrap();
    let mut fa = a.entries.clone();
    let mut fb = b.entries.clone();
    fa.sort_by_key(|e| (e.0.x, e.0.y));
    fb.sort_by_key(|e| (e.0.x, e.0.y));
    assert_eq!(fa, fb);
}
