use halite_net::error::ProtocolError;
use halite_net::grid::Location;
use halite_net::moves::MoveSet;
use halite_net::session::get_frame;
use halite_net::session::get_init;
use halite_net::session::send_frame;
use halite_net::session::send_init_response;

fn line(s: &str) -> Vec<u8> {
    s.as_bytes().to_vec()
}

#[test]
fn handshake_happy_path() {
    let tag_line = line("1");
    let size_line = line("2 2");
    let prod_line = line("1 2 3 4");
    let map_line = line("2 1 2 2 10 20 30 40");
    let (tag, g) = get_init(Some(&tag_line), Some(&size_line), Some(&prod_line), Some(&map_line))
        .unwrap();
    assert_eq!(tag, 1);
    assert_eq!((g.width, g.height), (2, 2));
    // First frame rewrites every tile: owners row-major [1, 1, 2, 2].
    assert_eq!(g.tile_at(0, 0).owner, 1);
    assert_eq!(g.tile_at(1, 0).owner, 1);
    assert_eq!(g.tile_at(0, 1).owner, 2);
    assert_eq!(g.tile_at(1, 1).owner, 2);
    assert_eq!(g.tile_at(1, 1).strength, 40);
}

#[test]
fn handshake_eof_is_transport_closed() {
    let tag_line = line("1");
    let size_line = line("2 2");
    let prod_line = line("1 2 3 4");
    assert!(matches!(
        get_init(None, None, None, None),
        Err(ProtocolError::TransportClosed)
    ));
    assert!(matches!(
        get_init(Some(&tag_line), Some(&size_line), Some(&prod_line), None),
        Err(ProtocolError::TransportClosed)
    ));
}

#[test]
fn handshake_bad_tag() {
    let size_line = line("2 2");
    let prod_line = line("1 2 3 4");
    let map_line = line("4 1 1 1 1 1");
    let empty = line("");
    let two = line("1 2");
    assert!(matches!(
        get_init(Some(&empty), Some(&size_line), Some(&prod_line), Some(&map_line)),
        Err(ProtocolError::MissingField)
    ));
    assert!(matches!(
        get_init(Some(&two), Some(&size_line), Some(&prod_line), Some(&map_line)),
        Err(ProtocolError::MalformedInt)
    ));
}

#[test]
fn handshake_error_propagates_from_each_line() {
    let tag_line = line("0");
    let bad_size = line("x 2");
    let size_line = line("2 2");
    let short_prods = line("1 2 3");
    let prod_line = line("1 2 3 4");
    let bad_map = line("4 1 1 1 1");
    assert!(matches!(
        get_init(Some(&tag_line), Some(&bad_size), Some(&prod_line), Some(&bad_map)),
        Err(ProtocolError::MalformedInt)
    ));
    assert!(matches!(
        get_init(Some(&tag_line), Some(&size_line), Some(&short_prods), Some(&bad_map)),
        Err(ProtocolError::TokenCountMismatch)
    ));
    assert!(matches!(
        get_init(Some(&tag_line), Some(&size_line), Some(&prod_line), Some(&bad_map)),
        Err(ProtocolError::TokenCountMismatch)
    ));
}

#[test]
fn turn_loop_eof_ends_session_cleanly() {
    // End of stream at the start of a turn-loop read is a normal shutdown,
    // not an error, and leaves the board untouched.
    let tag_line = line("1");
    let size_line = line("2 1");
    let prod_line = line("5 6");
    let map_line = line("2 1 7 8");
    let (_, mut g) = get_init(Some(&tag_line), Some(&size_line), Some(&prod_line), Some(&map_line))
        .unwrap();
    assert_eq!(get_frame(None, &mut g), Ok(false));
    assert_eq!(g.tile_at(0, 0).owner, 1);
    assert_eq!(g.tile_at(0, 0).strength, 7);
    assert_eq!(g.tile_at(1, 0).strength, 8);
}

#[test]
fn turn_loop_frame_updates_in_place() {
    let tag_line = line("1");
    let size_line = line("2 1");
    let prod_line = line("5 6");
    let map_line = line("2 1 7 8");
    let (_, mut g) = get_init(Some(&tag_line), Some(&size_line), Some(&prod_line), Some(&map_line))
        .unwrap();
    let turn = line("1 2 1 0 30 40");
    assert_eq!(get_frame(Some(&turn), &mut g), Ok(true));
    assert_eq!(g.tile_at(0, 0).owner, 2);
    assert_eq!(g.tile_at(1, 0).owner, 0);
    assert_eq!(g.tile_at(0, 0).strength, 30);
    assert_eq!(g.tile_at(1, 0).strength, 40);
}

#[test]
fn turn_loop_bad_frame_is_an_error() {
    let tag_line = line("1");
    let size_line = line("2 1");
    let prod_line = line("5 6");
    let map_line = line("2 1 7 8");
    let (_, mut g) = get_init(Some(&tag_line), Some(&size_line), Some(&prod_line), Some(&map_line))
        .unwrap();
    let bad = line("1 2");
    assert_eq!(
        get_frame(Some(&bad), &mut g),
        Err(ProtocolError::TruncatedRunLengthEncoding)
    );
    // Untouched on error.
    assert_eq!(g.tile_at(0, 0).strength, 7);
}

#[test]
fn send_frame_serializes_the_move_set() {
    let mut ms = MoveSet::new();
    ms.insert(Location { x: 0, y: 1 }, 3);
    assert_eq!(send_frame(&ms), b"0 1 3 ".to_vec());
}

#[test]
fn init_response_is_the_name_verbatim() {
    assert_eq!(send_init_response(String::from("MyBot")), String::from("MyBot"));
}
