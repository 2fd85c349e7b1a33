use rustasshn::sshconfig::first_visit;
use rustasshn::text::split_lines;
use rustasshn::sshconfig::{add_host, list_entries};
use rustasshn::sshconfig::apply_directive;
use rustasshn::paths::{expand_path, include_pattern, join_path};
use rustasshn::sshconfig::{
    config_with_host, hosts_of_entries, is_literal_pattern, load, merge_hosts, parse_config, parse_port,
    prepare_new_host, split_directive, strip_inline_comment, AddHostError, AddHostInput, ConfigEntry, Host,
};

fn lines(text: &str) -> Vec<String> {
    text.lines().map(|l| l.to_string()).collect()
}

fn hosts_of(text: &str, source: &str) -> Vec<Host> {
    let entries = parse_config(&lines(text), source);
    hosts_of_entries(&entries, &Vec::new())
}

fn env(pairs: &[(&str, &str)]) -> Vec<(String, String)> {
    pairs.iter().map(|(k, v)| (k.to_string(), v.to_string())).collect()
}

#[test]
fn test_load_includes_and_last_wins() {
    let primary_path = "/home/u/.ssh/config";
    let primary = "Include conf.d/*.conf\n\nHost app\n  HostName app-primary\n  User alice\n\nHost wildcard-*\n  HostName ignored\n";
    let base = "Host db\n  HostName db.internal\n  User bob\n  Port 2222\n";
    let entries = parse_config(&lines(primary), primary_path);
    let raw = match &entries[0] {
        ConfigEntry::Include(r) => r.clone(),
        other => panic!("expected an include, got {other:?}"),
    };
    let pattern = include_pattern(primary_path, &raw, &env(&[("HOME", "/home/u")])).unwrap();
    assert_eq!(pattern, "/home/u/.ssh/conf.d/*.conf");
    let included = vec![hosts_of(base, "/home/u/.ssh/conf.d/base.conf")];
    let file_hosts = hosts_of_entries(&entries, &included);
    let hosts = load(&vec![file_hosts]).unwrap();
    assert_eq!(hosts.len(), 2);
    assert!(hosts.iter().any(|h| h.alias == "app" && h.hostname == "app-primary"));
    assert!(hosts.iter().any(|h| h.alias == "db" && h.port == 2222 && h.user == "bob"));
}

#[test]
fn test_add_host_appends_block() {
    let old = "Host old\n  HostName old.example\n".to_string();
    let existing = hosts_of(&old, "/tmp/config");
    let input = AddHostInput {
        alias: "newbox".into(),
        hostname: "10.0.0.10".into(),
        user: "matt".into(),
        port: 2201,
        proxyjump: "bastion".into(),
        identity_file: "~/.ssh/id_ed25519".into(),
    };
    let ready = prepare_new_host(&input, &existing).unwrap();
    let content = config_with_host(Some(old), &ready);
    for want in [
        "Host newbox",
        "HostName 10.0.0.10",
        "User matt",
        "Port 2201",
        "ProxyJump bastion",
        "IdentityFile ~/.ssh/id_ed25519",
    ] {
        assert!(content.contains(want), "missing {want} in:\n{content}");
    }
}

#[test]
fn test_add_host_rejects_duplicate() {
    let existing = hosts_of("Host existing\n  HostName 1.2.3.4\n", "/tmp/config");
    let err = prepare_new_host(
        &AddHostInput { alias: "existing".into(), hostname: "5.6.7.8".into(), ..Default::default() },
        &existing,
    )
    .unwrap_err();
    assert!(err.message().contains("already exists"));
}

#[test]
fn test_add_host_requires_alias() {
    let err = prepare_new_host(
        &AddHostInput { hostname: "1.2.3.4".into(), ..Default::default() },
        &Vec::new(),
    )
    .unwrap_err();
    assert!(err.message().contains("alias is required"));
}

#[test]
fn test_inline_comment_stripping() {
    let cases = [
        ("HostName 1.2.3.4 # production", "HostName 1.2.3.4"),
        ("HostName 1.2.3.4", "HostName 1.2.3.4"),
        ("HostName \"foo#bar\" # real comment", "HostName \"foo#bar\""),
        ("# full line comment", ""),
        ("HostName 'has#hash'", "HostName 'has#hash'"),
    ];
    for (input, want) in cases {
        assert_eq!(strip_inline_comment(input), want);
    }
}

#[test]
fn test_parse_port() {
    let cases = [("22", 22), ("2222", 2222), ("", 0), ("abc", 0), ("-1", 0), ("0", 0), ("  3000  ", 3000)];
    for (i, w) in cases {
        assert_eq!(parse_port(i), w);
    }
}

#[test]
fn test_is_literal_pattern() {
    let cases = [
        ("myhost", true),
        ("my-host.example.com", true),
        ("*", false),
        ("web-*", false),
        ("!negated", false),
        ("host[1-3]", false),
        ("host?", false),
        ("", false),
    ];
    for (i, w) in cases {
        assert_eq!(is_literal_pattern(i), w);
    }
}

#[test]
fn test_multiple_identity_files() {
    let text = "Host multi\n  HostName 1.2.3.4\n  IdentityFile ~/.ssh/id_rsa\n  IdentityFile ~/.ssh/id_ed25519\n";
    let hosts = load(&vec![hosts_of(text, "/tmp/config")]).unwrap();
    assert_eq!(hosts.len(), 1);
    assert_eq!(hosts[0].identity_files.len(), 2);
}

#[test]
fn test_load_missing_file() {
    let hosts = load(&vec![Vec::new()]).unwrap();
    assert_eq!(hosts.len(), 0);
}

#[test]
fn test_split_directive() {
    let cases = [
        ("HostName 1.2.3.4", Some(("HostName".to_string(), "1.2.3.4".to_string()))),
        ("Port=2222", Some(("Port".to_string(), "2222".to_string()))),
        ("User\tadmin", Some(("User".to_string(), "admin".to_string()))),
        ("", None),
        ("single", None),
    ];
    for (input, want) in cases {
        assert_eq!(split_directive(input), want);
    }
}

#[test]
fn loading_no_files_is_an_error() {
    let err = load(&Vec::new()).unwrap_err();
    assert_eq!(err.message(), "no ssh config paths provided");
}

#[test]
fn later_hosts_win_and_sort_by_alias() {
    let a = hosts_of("Host zeta beta\n  HostName first\nHost alpha\n  User x\n", "/a");
    let b = hosts_of("Host beta\n  HostName second\n  Port 22\n", "/b");
    let merged = load(&vec![a, b]).unwrap();
    let aliases: Vec<&str> = merged.iter().map(|h| h.alias.as_str()).collect();
    assert_eq!(aliases, ["alpha", "beta", "zeta"]);
    assert_eq!(merged[1].hostname, "second");
    assert_eq!(merged[1].port, 22);
    assert_eq!(merged[1].source_path, "/b");
    assert_eq!(merged[2].hostname, "first");
    assert_eq!(merged[2].source_line, 1);
    let again = merge_hosts(&merged);
    assert_eq!(again.len(), 3);
}

#[test]
fn blocks_close_at_match_and_include() {
    let text = "User nobody\nHost a\n  User ann\nMatch host x\n  User ignored\nHost b c*\n  port 2200\n  HOSTNAME bee\n";
    let hosts = hosts_of(text, "/f");
    assert_eq!(hosts.len(), 2);
    assert_eq!(hosts[0].alias, "a");
    assert_eq!(hosts[0].user, "ann");
    assert_eq!(hosts[1].alias, "b");
    assert_eq!(hosts[1].port, 2200);
    assert_eq!(hosts[1].hostname, "bee");
    assert_eq!(hosts[1].source_line, 6);
}

#[test]
fn added_block_follows_old_text() {
    let input = AddHostInput { alias: " box ".into(), port: 0, ..Default::default() };
    let ready = prepare_new_host(&input, &Vec::new()).unwrap();
    assert_eq!(ready.hostname, "box");
    assert_eq!(config_with_host(None, &ready), "Host box\n  HostName box\n");
    assert_eq!(
        config_with_host(Some("Host a".to_string()), &ready),
        "Host a\n\nHost box\n  HostName box\n"
    );
    assert_eq!(config_with_host(Some(String::new()), &ready), "\nHost box\n  HostName box\n");
    let existing = hosts_of("Host box\n", "/f");
    match prepare_new_host(&input, &existing) {
        Err(AddHostError::AliasExists(a)) => assert_eq!(a, "box"),
        other => panic!("unexpected {other:?}"),
    }
    assert_eq!(
        AddHostError::AliasExists("box".into()).message(),
        "host alias already exists: box"
    );
}

#[test]
fn paths_expand_variables_and_home() {
    let e = env(&[("HOME", "/home/u"), ("CONF", "/etc/ssh"), ("EMPTY", "")]);
    assert_eq!(expand_path("  ~/.ssh/config ", &e), "/home/u/.ssh/config");
    assert_eq!(expand_path("~", &e), "/home/u");
    assert_eq!(expand_path("$CONF/extra", &e), "/etc/ssh/extra");
    assert_eq!(expand_path("$NOPE/x$", &e), "$NOPE/x$");
    assert_eq!(expand_path("a$EMPTY-b", &e), "a-b");
    assert_eq!(expand_path("~/~/x", &e), "/home/u/x");
    assert_eq!(expand_path("~/x", &env(&[])), "~/x");
    assert_eq!(expand_path("   ", &e), "");
    assert_eq!(join_path("/a/", "b"), "/a/b");
    assert_eq!(join_path("/a", "/b"), "/b");
    assert_eq!(join_path("", "b"), "b");
    assert_eq!(include_pattern("/etc/ssh/ssh_config", "/abs/*.conf", &e).unwrap(), "/abs/*.conf");
    assert!(include_pattern("/etc/ssh/ssh_config", "  ", &e).is_none());
}

#[test]
fn directives_apply_with_lowercased_keys() {
    let mut out = Vec::new();
    let mut current = None;
    apply_directive(&mut out, &mut current, &"host".to_string(), &"host".to_string(), "web db".to_string(), 3, "/f");
    apply_directive(&mut out, &mut current, &"hostname".to_string(), &"hostname".to_string(), " web.example ".to_string(), 4, "/f");
    apply_directive(&mut out, &mut current, &"HostName".to_string(), &"HostName".to_string(), "ignored".to_string(), 5, "/f");
    apply_directive(&mut out, &mut current, &"include".to_string(), &"include".to_string(), "x/*".to_string(), 6, "/f");
    assert_eq!(out.len(), 3);
    match &out[0] {
        ConfigEntry::Host(h) => {
            assert_eq!(h.alias, "web");
            assert_eq!(h.hostname, "web.example");
            assert_eq!(h.source_line, 3);
        }
        other => panic!("unexpected {other:?}"),
    }
    assert!(matches!(&out[2], ConfigEntry::Include(r) if r == "x/*"));
    assert!(current.is_none());
}

#[test]
fn adding_a_host_gives_the_new_text() {
    let existing = hosts_of("Host old\n", "/f");
    let input = AddHostInput { alias: "new".into(), user: " u ".into(), port: 22, ..Default::default() };
    assert_eq!(
        add_host(Some("Host old\n".to_string()), &input, &existing).unwrap(),
        "Host old\n\nHost new\n  HostName new\n  User u\n  Port 22\n"
    );
    let dup = AddHostInput { alias: "old".into(), ..Default::default() };
    assert!(matches!(add_host(None, &dup, &existing), Err(AddHostError::AliasExists(_))));
}

#[test]
fn json_list_entries_drop_unset_ports() {
    let hosts = hosts_of("Host a\n  Port 0\nHost b\n  Port 2022\n  IdentityFile k\n", "/f");
    let entries = list_entries(&hosts);
    assert_eq!(entries.len(), 2);
    assert_eq!(entries[0].port, None);
    assert_eq!(entries[1].port, Some(2022));
    assert_eq!(entries[1].identity_files, vec!["k".to_string()]);
}

#[test]
fn each_file_is_visited_once() {
    let mut visited = Vec::new();
    assert!(first_visit(&mut visited, "/a"));
    assert!(first_visit(&mut visited, "/b"));
    assert!(!first_visit(&mut visited, "/a"));
    assert_eq!(visited, vec!["/a".to_string(), "/b".to_string()]);
}

#[test]
fn stripping_a_comment_twice_is_stripping_once() {
    for line in ["a # b # c", "x '#' y # z", "plain", "\"#\" # q  "] {
        let once = strip_inline_comment(line);
        assert_eq!(strip_inline_comment(&once), once);
    }
}

#[test]
fn lines_split_as_str_lines_does() {
    for text in ["", "a", "a\n", "a\r\nb", "a\n\nb\r\n", "x\ry\n", "\n", "end\r"] {
        let expected: Vec<String> = text.lines().map(|l| l.to_string()).collect();
        assert_eq!(split_lines(text), expected);
    }
    assert_eq!(split_lines("Host a\r\n  User u\n"), vec!["Host a".to_string(), "  User u".to_string()]);
}

#[test]
fn an_added_host_is_loaded_back_with_the_old_ones() {
    let old = "Host old\n  HostName old.example\nHost *\n  User any\nHost other";
    let before = load(&vec![hosts_of(old, "/f")]).unwrap();
    let input = AddHostInput {
        alias: " new ".into(),
        user: " u ".into(),
        port: 2222,
        proxyjump: "jump".into(),
        identity_file: "~/.ssh/k".into(),
        ..Default::default()
    };
    let text = add_host(Some(old.to_string()), &input, &before).unwrap();
    let entries = parse_config(&split_lines(&text), "/f");
    let after = load(&vec![hosts_of_entries(&entries, &Vec::new())]).unwrap();
    for h in &before {
        assert!(after.iter().any(|x| x.alias == h.alias));
    }
    let new = after.iter().find(|x| x.alias == "new").unwrap();
    assert_eq!(new.hostname, "new");
    assert_eq!(new.user, "u");
    assert_eq!(new.port, 2222);
    assert_eq!(new.proxyjump, "jump");
    assert_eq!(new.identity_files, vec!["~/.ssh/k".to_string()]);
    assert_eq!(new.source_line, split_lines(old).len() + 2);
    assert_eq!(after.len(), before.len() + 1);
}

fn walk(files: &[(&str, &str)], path: &str, visited: &mut Vec<String>) -> Vec<Host> {
    if !first_visit(visited, path) {
        return Vec::new();
    }
    let Some((_, text)) = files.iter().find(|(p, _)| *p == path) else {
        return Vec::new();
    };
    let entries = parse_config(&split_lines(text), path);
    let mut included: Vec<Vec<Host>> = Vec::new();
    for e in &entries {
        if let ConfigEntry::Include(raw) = e {
            included.push(walk(files, raw, visited));
        }
    }
    hosts_of_entries(&entries, &included)
}

#[test]
fn an_include_cycle_reads_each_file_once() {
    let files = [("/a", "Host a1\nInclude /b\nHost a2\n"), ("/b", "Host b1\nInclude /a\nHost b2\n")];
    let mut visited = Vec::new();
    let hosts = walk(&files, "/a", &mut visited);
    let aliases: Vec<&str> = hosts.iter().map(|h| h.alias.as_str()).collect();
    assert_eq!(aliases, vec!["a1", "b1", "b2", "a2"]);
    assert_eq!(visited, vec!["/a".to_string(), "/b".to_string()]);
    assert!(walk(&files, "/a", &mut visited).is_empty());
}
