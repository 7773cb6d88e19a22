use halite_net::text::parse_bounded;
use halite_net::text::push_dec;
use halite_net::text::tokenize;

fn line(s: &str) -> Vec<u8> {
    s.as_bytes().to_vec()
}

#[test]
fn tokenize_collapses_whitespace_runs() {
    let toks = tokenize(&line("  12 \t 7\r\n"));
    assert_eq!(toks, vec![b"12".to_vec(), b"7".to_vec()]);
}

#[test]
fn tokenize_empty_and_blank_lines() {
    assert_eq!(tokenize(&line("")).len(), 0);
    assert_eq!(tokenize(&line(" \t  ")).len(), 0);
}

#[test]
fn parse_bounded_reads_decimal() {
    assert_eq!(parse_bounded(&line("255"), 255), Some(255));
    assert_eq!(parse_bounded(&line("007"), 255), Some(7));
    assert_eq!(parse_bounded(&line("0"), 255), Some(0));
}

#[test]
fn parse_bounded_rejects_non_numeric() {
    assert_eq!(parse_bounded(&line(""), 255), None);
    assert_eq!(parse_bounded(&line("12a"), 255), None);
    assert_eq!(parse_bounded(&line("-3"), 255), None);
}

#[test]
fn parse_bounded_rejects_out_of_range() {
    assert_eq!(parse_bounded(&line("256"), 255), None);
    assert_eq!(parse_bounded(&line("65536"), 65535), None);
    assert_eq!(parse_bounded(&line("000000000000000000255"), 255), Some(255));
}

#[test]
fn push_dec_renders_decimal() {
    let mut out = Vec::new();
    push_dec(&mut out, 0);
    out.push(b' ');
    push_dec(&mut out, 65535);
    out.push(b' ');
    push_dec(&mut out, 10);
    assert_eq!(out, b"0 65535 10".to_vec());
}
