use sshconfig::path::expand_config_path;
use sshconfig::text::{keyword_is, parse_port, split_first_space, trim_spaces};

#[test]
fn trim_removes_unicode_whitespace_at_both_ends() {
    assert_eq!(trim_spaces("  a b \t\r\n"), "a b");
    assert_eq!(trim_spaces("\u{a0}\u{3000}x\u{2009}"), "x");
    assert_eq!(trim_spaces(" \t "), "");
    assert_eq!(trim_spaces(""), "");
}

#[test]
fn split_at_first_space_only() {
    assert_eq!(split_first_space("Host a b"), Some(("Host", "a b")));
    assert_eq!(split_first_space("Host"), None);
    assert_eq!(split_first_space("a\tb"), None);
}

#[test]
fn keywords_compare_without_ascii_case() {
    assert!(keyword_is("IdentityFile", "identityfile"));
    assert!(keyword_is("HOST", "host"));
    assert!(!keyword_is("hostname", "host"));
    assert!(!keyword_is("hosu", "host"));
}

#[test]
fn port_values() {
    assert_eq!(parse_port("22"), Some(22));
    assert_eq!(parse_port("0"), Some(0));
    assert_eq!(parse_port("65535"), Some(65535));
    assert_eq!(parse_port("0065535"), Some(65535));
    assert_eq!(parse_port("+443"), Some(443));
    assert_eq!(parse_port("65536"), None);
    assert_eq!(parse_port("99999999999"), None);
    assert_eq!(parse_port("-1"), None);
    assert_eq!(parse_port("+"), None);
    assert_eq!(parse_port(""), None);
    assert_eq!(parse_port("2 2"), None);
    assert_eq!(parse_port("22a"), None);
}

#[test]
fn path_without_tilde_is_unchanged() {
    assert_eq!(expand_config_path("/etc/ssh/ssh_config"), "/etc/ssh/ssh_config");
    assert_eq!(expand_config_path("~other/config"), "~other/config");
}

#[test]
fn tilde_path_is_expanded_to_home() {
    let p = expand_config_path("~/.ssh/config");
    assert!(p.ends_with("/.ssh/config"));
    assert_ne!(p, "~/.ssh/config");
}
