use komodo_ingress::text::{
    contains, parse_u16, split_char, starts_with, str_eq, strip_prefix, trim, trim_start_matches, u16_to_decimal,
};

#[test]
fn parse_u16_matches_std() {
    for s in ["0", "80", "+80", "0080", "65535", "65536", "", "+", "-1", " 80", "80 ", "8a", "99999999999", "+-1", "１"] {
        assert_eq!(parse_u16(s), s.parse::<u16>().ok(), "input {s:?}");
    }
}

#[test]
fn decimal_matches_display() {
    for n in [0u16, 7, 10, 99, 100, 8080, 65535] {
        assert_eq!(u16_to_decimal(n), n.to_string());
    }
}

#[test]
fn trim_matches_std() {
    for s in ["", "  ", " a ", "\u{a0}x\u{2003}", "\u{200b}y", "a b", "\t\n\r x \u{3000}"] {
        assert_eq!(trim(s), s.trim(), "input {s:?}");
    }
}

#[test]
fn split_matches_std() {
    for s in ["", "a", "a.b", ".a.", "..", "é.ü"] {
        let ours = split_char(s, '.');
        let theirs: Vec<String> = s.split('.').map(|p| p.to_string()).collect();
        assert_eq!(ours, theirs, "input {s:?}");
    }
}

#[test]
fn search_matches_std() {
    assert!(contains("traefik.http.services.a.loadbalancer.server.port", "loadbalancer.server.port"));
    assert!(!contains("loadbalancer.server", "loadbalancer.server.port"));
    assert!(contains("abc", ""));
    assert!(contains("", ""));
    assert!(starts_with("traefik.x", "traefik."));
    assert!(!starts_with("traefik", "traefik."));
    assert_eq!(strip_prefix("traefik.http", "traefik."), Some("http"));
    assert_eq!(strip_prefix("http", "traefik."), None);
    assert_eq!(trim_start_matches("abababc", "ab"), "c");
    assert_eq!(trim_start_matches("abc", ""), "abc");
    assert!(str_eq("ü", "ü"));
    assert!(!str_eq("u", "ü"));
}
