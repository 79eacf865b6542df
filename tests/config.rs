use synapse_compress_state::config::parse_level_sizes;

#[test]
fn parses_default_level_sizes() {
    assert_eq!(parse_level_sizes("100,50,25"), Some(vec![100, 50, 25]));
    assert_eq!(parse_level_sizes("1"), Some(vec![1]));
    assert_eq!(parse_level_sizes("007,3"), Some(vec![7, 3]));
}

#[test]
fn rejects_malformed_level_sizes() {
    assert_eq!(parse_level_sizes(""), None);
    assert_eq!(parse_level_sizes("1,,2"), None);
    assert_eq!(parse_level_sizes("1,"), None);
    assert_eq!(parse_level_sizes("0"), None);
    assert_eq!(parse_level_sizes("2,a"), None);
    assert_eq!(parse_level_sizes(" 2"), None);
    assert_eq!(parse_level_sizes("99999999999999999999999999"), None);
}

#[test]
fn accepts_a_leading_plus_per_size() {
    assert_eq!(parse_level_sizes("+5,+2"), Some(vec![5, 2]));
    assert_eq!(parse_level_sizes("+5,2"), Some(vec![5, 2]));
    assert_eq!(parse_level_sizes("+"), None);
    assert_eq!(parse_level_sizes("3,+"), None);
    assert_eq!(parse_level_sizes("++5"), None);
    assert_eq!(parse_level_sizes("5+"), None);
    assert_eq!(parse_level_sizes("1+2"), None);
    assert_eq!(parse_level_sizes("-5"), None);
}
