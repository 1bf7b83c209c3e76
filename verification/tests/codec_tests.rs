use notelog::codec::{decode_pairs, encode_pairs};

fn pairs(v: &[(&str, &str)]) -> Vec<(String, String)> {
    v.iter().map(|(a, b)| (a.to_string(), b.to_string())).collect()
}

#[test]
fn round_trip_two_notes() {
    let ps = pairs(&[
        ("2024-01-01 10:00:00", "hello"),
        ("2024-01-02 11:30:00", "a multi\nline body with - dashes"),
    ]);
    let text = encode_pairs(&ps);
    let back = decode_pairs(&text, "1999-01-01 00:00:00");
    assert_eq!(back, ps);
}

#[test]
fn encode_exact_format() {
    let ps = pairs(&[("t", "c")]);
    assert_eq!(encode_pairs(&ps), "t\nc\n\n---\n\n");
}

#[test]
fn decode_empty_text() {
    let back = decode_pairs("", "fb");
    assert!(back.is_empty());
}

#[test]
fn decode_whitespace_only_fragments_dropped() {
    let back = decode_pairs("  \n \n\n---\n\n", "fb");
    assert!(back.is_empty());
}

#[test]
fn decode_fragment_without_newline_uses_fallback() {
    let back = decode_pairs("justoneblock", "2020-02-02 02:02:02");
    assert_eq!(back, pairs(&[("2020-02-02 02:02:02", "justoneblock")]));
}

#[test]
fn decode_trims_fields() {
    let back = decode_pairs("  2024-01-01 00:00:00  \n  body  \n\n---\n\n", "fb");
    assert_eq!(back, pairs(&[("2024-01-01 00:00:00", "body")]));
}
