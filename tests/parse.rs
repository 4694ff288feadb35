use sshconfig::parse_config_lines;
use sshconfig::HostEntry;

fn lines(text: &[&str]) -> Vec<String> {
    text.iter().map(|l| l.to_string()).collect()
}

fn parse(text: &[&str]) -> Vec<HostEntry> {
    parse_config_lines(&lines(text))
}

#[test]
fn test_parse_ssh_config() {
    let entries = parse(&[
        "# SSH Config Example",
        "Host github.com",
        "    HostName github.com",
        "    User git",
        "    IdentityFile ~/.ssh/github_rsa",
        "    Port 22",
        "",
        "Host example.com",
        "    HostName example.org",
        "    User admin",
        "    Port 2222",
    ]);

    assert_eq!(entries.len(), 2);

    assert_eq!(entries[0].host, "github.com");
    assert_eq!(entries[0].name, "github.com");
    assert_eq!(entries[0].user, "git");
    assert_eq!(
        entries[0].identity_file,
        Some("~/.ssh/github_rsa".to_string())
    );
    assert_eq!(entries[0].port, Some(22));

    assert_eq!(entries[1].host, "example.org");
    assert_eq!(entries[1].name, "example.com");
    assert_eq!(entries[1].user, "admin");
    assert_eq!(entries[1].port, Some(2222));
    assert_eq!(entries[1].identity_file, Some("~/.ssh/id_rsa".to_string()));
}

#[test]
fn test_default_values() {
    let entries = parse(&["Host myserver"]);

    assert_eq!(entries.len(), 1);

    assert_eq!(entries[0].host, "myserver");
    assert_eq!(entries[0].name, "myserver");
    assert_eq!(entries[0].user, "root");
    assert_eq!(entries[0].port, Some(22));
    assert_eq!(entries[0].identity_file, Some("~/.ssh/id_rsa".to_string()));
}

#[test]
fn test_multiple_hosts() {
    let entries = parse(&["Host server1 server2 server3", "    User shared", "    Port 2222"]);

    assert_eq!(entries.len(), 1);

    assert_eq!(entries[0].host, "server1 server2 server3");
    assert_eq!(entries[0].user, "shared");
    assert_eq!(entries[0].port, Some(2222));
}

#[test]
fn one_entry_per_host_line_in_order() {
    let entries = parse(&["Host a", "User x", "Host b", "", "Host c", "Port 10"]);
    let names: Vec<&str> = entries.iter().map(|e| e.name.as_str()).collect();
    assert_eq!(names, vec!["a", "b", "c"]);
    assert_eq!(entries[0].user, "x");
    assert_eq!(entries[1].user, "root");
    assert_eq!(entries[2].port, Some(10));
}

#[test]
fn defaults_when_no_directive_sets_a_field() {
    let entries = parse(&["Host box", "Port not-a-number"]);
    assert_eq!(entries.len(), 1);
    assert_eq!(entries[0].host, "box");
    assert_eq!(entries[0].user, "root");
    assert_eq!(entries[0].port, Some(22));
    assert_eq!(entries[0].identity_file, Some("~/.ssh/id_rsa".to_string()));
}

#[test]
fn unparsable_port_keeps_earlier_port() {
    let entries = parse(&["Host box", "Port 2222", "Port 99999", "Port -1", "Port"]);
    assert_eq!(entries[0].port, Some(2222));
}

#[test]
fn parsing_twice_gives_the_same_entries() {
    let text = lines(&["Host a", "HostName a.example", "User u", "Host b", "Port 8022"]);
    let first = parse_config_lines(&text);
    let second = parse_config_lines(&text);
    assert_eq!(first.len(), second.len());
    for (x, y) in first.iter().zip(second.iter()) {
        assert_eq!(x.name, y.name);
        assert_eq!(x.host, y.host);
        assert_eq!(x.port, y.port);
        assert_eq!(x.user, y.user);
        assert_eq!(x.identity_file, y.identity_file);
    }
}

#[test]
fn keyword_case_is_ignored() {
    for kw in ["HOSTNAME", "HostName", "hostname"] {
        let line = format!("{} target.example", kw);
        let entries = parse(&["Host t", line.as_str()]);
        assert_eq!(entries[0].host, "target.example");
    }
    let entries = parse(&["HOST up", "USER admin", "port 2200", "identityFILE /k"]);
    assert_eq!(entries[0].name, "up");
    assert_eq!(entries[0].user, "admin");
    assert_eq!(entries[0].port, Some(2200));
    assert_eq!(entries[0].identity_file, Some("/k".to_string()));
}

#[test]
fn last_user_line_wins() {
    let entries = parse(&["Host h", "User first", "User second"]);
    assert_eq!(entries[0].user, "second");
}

#[test]
fn multi_pattern_host_line_is_one_entry() {
    let entries = parse(&["Host a b c"]);
    assert_eq!(entries.len(), 1);
    assert_eq!(entries[0].name, "a b c");
    assert_eq!(entries[0].host, "a b c");
}

#[test]
fn directives_before_first_host_are_dropped() {
    let entries = parse(&["User early", "Port 1", "Host h"]);
    assert_eq!(entries.len(), 1);
    assert_eq!(entries[0].user, "root");
    assert_eq!(entries[0].port, Some(22));
}

#[test]
fn no_host_line_gives_no_entries() {
    assert!(parse(&["User u", "HostName x", "# Host commented"]).is_empty());
    assert!(parse(&[]).is_empty());
}

#[test]
fn example_with_two_blocks() {
    let entries = parse(&[
        "# comment",
        "Host alpha",
        "    HostName alpha.example",
        "    User git",
        "    Port 22",
        "Host beta",
        "    User admin",
    ]);
    assert_eq!(entries.len(), 2);
    assert_eq!(entries[0].name, "alpha");
    assert_eq!(entries[0].host, "alpha.example");
    assert_eq!(entries[0].user, "git");
    assert_eq!(entries[0].port, Some(22));
    assert_eq!(entries[0].identity_file, Some("~/.ssh/id_rsa".to_string()));
    assert_eq!(entries[1].name, "beta");
    assert_eq!(entries[1].host, "beta");
    assert_eq!(entries[1].user, "admin");
    assert_eq!(entries[1].port, Some(22));
    assert_eq!(entries[1].identity_file, Some("~/.ssh/id_rsa".to_string()));
}

#[test]
fn values_keep_inner_spaces_and_hashes() {
    let entries = parse(&["\tHost  h  ", "IdentityFile  ~/my keys/id #1  ", "User\tnobody"]);
    assert_eq!(entries[0].name, "h");
    assert_eq!(entries[0].identity_file, Some("~/my keys/id #1".to_string()));
    // a tab does not separate keyword and value
    assert_eq!(entries[0].user, "root");
}

#[test]
fn lines_without_value_and_unknown_keywords_are_skipped() {
    let entries = parse(&["Host h", "User", "Compression yes", "ForwardAgent yes"]);
    assert_eq!(entries.len(), 1);
    assert_eq!(entries[0].user, "root");
}

#[test]
fn new_entry_has_defaults() {
    let e = HostEntry::new("srv".to_string());
    assert_eq!(e.name, "srv");
    assert_eq!(e.host, "srv");
    assert_eq!(e.port, Some(22));
    assert_eq!(e.user, "root");
    assert_eq!(e.identity_file, Some("~/.ssh/id_rsa".to_string()));
}

#[test]
fn apply_directive_sets_fields() {
    let mut e = HostEntry::new("srv".to_string());
    e.apply_directive("HostName", "srv.example");
    e.apply_directive("port", "+80");
    e.apply_directive("Port", "x");
    e.apply_directive("User", "me");
    e.apply_directive("IdentityFile", "/id");
    e.apply_directive("Other", "ignored");
    assert_eq!(e.name, "srv");
    assert_eq!(e.host, "srv.example");
    assert_eq!(e.port, Some(80));
    assert_eq!(e.user, "me");
    assert_eq!(e.identity_file, Some("/id".to_string()));
}
