use night::interval::parse_u64;

#[test]
fn parse_u64_matches_std() {
    for s in ["0", "007", "+12", "18446744073709551615", "", "+", "-0", "12a", "18446744073709551616", " 1", "1 "] {
        assert_eq!(parse_u64(s), s.parse::<u64>().ok(), "input {:?}", s);
    }
}
