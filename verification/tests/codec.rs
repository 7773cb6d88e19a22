use halite_net::codec::deserialize_map;
use halite_net::codec::deserialize_map_size;
use halite_net::codec::deserialize_productions;
use halite_net::error::ProtocolError;
use halite_net::grid::GameMap;
use halite_net::grid::Tile;

fn line(s: &str) -> Vec<u8> {
    s.as_bytes().to_vec()
}

fn five_tile_row() -> GameMap {
    deserialize_productions(&line("0 0 0 0 0"), 5, 1).unwrap()
}

#[test]
fn size_happy_path() {
    assert_eq!(deserialize_map_size(&line("30 20")), Ok((30, 20)));
}

#[test]
fn size_tolerates_whitespace_runs() {
    assert_eq!(deserialize_map_size(&line("  30 \t 20  ")), Ok((30, 20)));
}

#[test]
fn size_extra_tokens_ignored() {
    assert_eq!(deserialize_map_size(&line("30 20 99")), Ok((30, 20)));
}

#[test]
fn size_missing_field() {
    assert_eq!(deserialize_map_size(&line("42")), Err(ProtocolError::MissingField));
    assert_eq!(deserialize_map_size(&line("")), Err(ProtocolError::MissingField));
    assert_eq!(deserialize_map_size(&line("   ")), Err(ProtocolError::MissingField));
}

#[test]
fn size_malformed_first_token() {
    assert_eq!(deserialize_map_size(&line("abc 20")), Err(ProtocolError::MalformedInt));
}

#[test]
fn size_malformed_second_token() {
    assert_eq!(deserialize_map_size(&line("30 2x")), Err(ProtocolError::MalformedInt));
}

#[test]
fn size_out_of_range_is_malformed() {
    assert_eq!(deserialize_map_size(&line("70000 2")), Err(ProtocolError::MalformedInt));
}

#[test]
fn productions_positional() {
    // Strength at (x, y) is the token at row-major index y * width + x, and
    // every tile starts unclaimed.
    let g = deserialize_productions(&line("1 2 3 4 5 6"), 3, 2).unwrap();
    for y in 0..2u16 {
        for x in 0..3u16 {
            let t = g.tile_at(x, y);
            assert_eq!(t.owner, 0);
            assert_eq!(t.strength, (y * 3 + x + 1) as u8);
        }
    }
}

#[test]
fn productions_token_count_mismatch() {
    assert!(matches!(
        deserialize_productions(&line("1 2 3 4 5"), 3, 2),
        Err(ProtocolError::TokenCountMismatch)
    ));
    assert!(matches!(
        deserialize_productions(&line("1 2 3 4 5 6 7"), 3, 2),
        Err(ProtocolError::TokenCountMismatch)
    ));
}

#[test]
fn productions_malformed_token() {
    assert!(matches!(
        deserialize_productions(&line("1 2 x 4 5 6"), 3, 2),
        Err(ProtocolError::MalformedInt)
    ));
}

#[test]
fn productions_out_of_range_is_malformed() {
    assert!(matches!(
        deserialize_productions(&line("1 2 300 4 5 6"), 3, 2),
        Err(ProtocolError::MalformedInt)
    ));
}

#[test]
fn productions_empty_board() {
    let g = deserialize_productions(&line(""), 0, 5).unwrap();
    assert_eq!(g.width, 0);
    assert_eq!(g.height, 5);
}

#[test]
fn grid_new_and_set_tile() {
    let mut g = GameMap::new(3, 2);
    assert_eq!((g.width, g.height), (3, 2));
    for y in 0..2u16 {
        for x in 0..3u16 {
            assert_eq!(g.tile_at(x, y), Tile { owner: 0, strength: 0 });
        }
    }
    g.set_tile(2, 1, Tile { owner: 5, strength: 200 });
    assert_eq!(g.tile_at(2, 1), Tile { owner: 5, strength: 200 });
    assert_eq!(g.tile_at(1, 1), Tile { owner: 0, strength: 0 });
}

#[test]
fn run_length_decode_single_row() {
    // Pairs (3, 1) and (2, 0) over a 5-tile single-row grid: owners come
    // out as [1, 1, 1, 0, 0].
    let mut g = five_tile_row();
    deserialize_map(&line("3 1 2 0 9 8 7 6 5"), &mut g).unwrap();
    let owners: Vec<u8> = (0..5).map(|x| g.tile_at(x, 0).owner).collect();
    assert_eq!(owners, vec![1, 1, 1, 0, 0]);
    let strengths: Vec<u8> = (0..5).map(|x| g.tile_at(x, 0).strength).collect();
    assert_eq!(strengths, vec![9, 8, 7, 6, 5]);
}

#[test]
fn run_length_sum_short_is_truncated() {
    // Runs summing to 4 over a 5-tile grid, with nothing after them.
    let mut g = five_tile_row();
    assert_eq!(
        deserialize_map(&line("3 1 1 0"), &mut g),
        Err(ProtocolError::TruncatedRunLengthEncoding)
    );
    // The board is left exactly as it was.
    for x in 0..5 {
        assert_eq!(g.tile_at(x, 0).owner, 0);
        assert_eq!(g.tile_at(x, 0).strength, 0);
    }
}

#[test]
fn run_length_zero_run_is_truncated() {
    let mut g = five_tile_row();
    assert_eq!(
        deserialize_map(&line("0 1 5 2 9 9 9 9 9"), &mut g),
        Err(ProtocolError::TruncatedRunLengthEncoding)
    );
}

#[test]
fn run_length_overrun_is_truncated() {
    let mut g = five_tile_row();
    assert_eq!(
        deserialize_map(&line("6 1 9 9 9 9 9"), &mut g),
        Err(ProtocolError::TruncatedRunLengthEncoding)
    );
}

#[test]
fn run_length_ends_mid_pair() {
    let mut g = five_tile_row();
    assert_eq!(
        deserialize_map(&line("3 1 2"), &mut g),
        Err(ProtocolError::TruncatedRunLengthEncoding)
    );
}

#[test]
fn frame_malformed_in_ownership_section() {
    let mut g = five_tile_row();
    assert_eq!(
        deserialize_map(&line("a 1 2 0 9 8 7 6 5"), &mut g),
        Err(ProtocolError::MalformedInt)
    );
    assert_eq!(
        deserialize_map(&line("3 one 2 0 9 8 7 6 5"), &mut g),
        Err(ProtocolError::MalformedInt)
    );
}

#[test]
fn frame_malformed_in_strength_section() {
    let mut g = five_tile_row();
    assert_eq!(
        deserialize_map(&line("3 1 2 0 9 8 x 6 5"), &mut g),
        Err(ProtocolError::MalformedInt)
    );
}

#[test]
fn frame_strength_section_short() {
    let mut g = five_tile_row();
    assert_eq!(
        deserialize_map(&line("3 1 2 0 9 8"), &mut g),
        Err(ProtocolError::TokenCountMismatch)
    );
}

#[test]
fn frame_trailing_tokens_ignored() {
    let mut g = five_tile_row();
    assert_eq!(deserialize_map(&line("5 2 1 2 3 4 5 77"), &mut g), Ok(()));
    assert_eq!(g.tile_at(4, 0).owner, 2);
    assert_eq!(g.tile_at(4, 0).strength, 5);
}

#[test]
fn frame_overwrites_previous_turn() {
    let mut g = five_tile_row();
    deserialize_map(&line("5 1 1 2 3 4 5"), &mut g).unwrap();
    deserialize_map(&line("2 3 3 0 9 9 9 9 9"), &mut g).unwrap();
    let owners: Vec<u8> = (0..5).map(|x| g.tile_at(x, 0).owner).collect();
    assert_eq!(owners, vec![3, 3, 0, 0, 0]);
    assert_eq!(g.tile_at(2, 0).strength, 9);
}
