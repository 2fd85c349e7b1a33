use rustasshn::picker::{Key, KeyPress, Mods, PaneAction, Picker, Reply};
use rustasshn::search::{build_candidates, fuzzy_match_pos, key_less, match_sort_key, token_prefix_pos};
use rustasshn::sshconfig::Host;
use rustasshn::state::Store;
use rustasshn::termio::{drain_step, DrainStep, ReadOutcome, TTY_RESTORE};

fn host(alias: &str, hostname: &str, user: &str, proxyjump: &str) -> Host {
    Host {
        alias: alias.to_string(),
        hostname: hostname.to_string(),
        user: user.to_string(),
        port: 0,
        proxyjump: proxyjump.to_string(),
        identity_files: Vec::new(),
        source_path: String::new(),
        source_line: 1,
    }
}

fn key(c: char) -> KeyPress {
    KeyPress { code: Key::Char(c), mods: Mods::Plain }
}

fn plain(code: Key) -> KeyPress {
    KeyPress { code, mods: Mods::Plain }
}

fn picker(in_search: bool, enter_mode: &str, in_tmux: bool) -> Picker {
    Picker::new(
        vec![
            host("alpha", "10.0.0.1", "ann", ""),
            host("beta", "b.example", "", "alpha"),
            host("gamma", "", "gus", ""),
        ],
        Store::default(),
        in_search,
        true,
        enter_mode.to_string(),
        in_tmux,
    )
}

#[test]
fn test_fuzzy_match_pos() {
    assert!(fuzzy_match_pos("abc", "a_b_c").is_some());
    assert!(fuzzy_match_pos("abc", "acb").is_none());
}

#[test]
fn test_match_sort_key_prefers_alias_prefix_over_proxyjump() {
    let c_alias = &build_candidates(&vec![host("bacchus.lmig.com", "", "", "")])[0];
    let c_proxy = &build_candidates(&vec![host("010k-onos-leaf-sw1", "10.0.0.1", "", "bacchus.lmig.com")])[0];
    let q = "bacchus";
    let k1 = match_sort_key(q, c_alias).unwrap();
    let k2 = match_sort_key(q, c_proxy).unwrap();
    assert!(k1.bucket < k2.bucket);
}

#[test]
fn ranking_buckets_and_positions() {
    let c = &build_candidates(&vec![host("web-prod-1", "prod.example.com", "", "")])[0];
    assert_eq!(match_sort_key("web", c).unwrap().bucket, 0);
    assert_eq!(match_sort_key("prod.ex", c).unwrap().bucket, 1);
    let k = match_sort_key("prod-1", c).unwrap();
    assert_eq!((k.bucket, k.position), (2, 4));
    assert_eq!(match_sort_key("", c).unwrap().bucket, 255);
    assert!(match_sort_key("zzz", c).is_none());
    assert_eq!(token_prefix_pos("web-prod", "prod"), Some(4));
    assert_eq!(token_prefix_pos("webprod", "prod"), None);
    assert_eq!(fuzzy_match_pos("wp", "web-prod"), Some(0));
    let a = match_sort_key("web", c).unwrap();
    let b = match_sort_key("prod.ex", c).unwrap();
    assert!(key_less(&a, &b));
    assert!(!key_less(&b, &a));
}

#[test]
fn typing_filters_and_enter_connects() {
    let mut p = picker(true, "p", true);
    assert_eq!(p.filtered.len(), 3);
    for c in "gam".chars() {
        p.handle_key(key(c));
    }
    assert_eq!(p.filtered.len(), 1);
    let step = p.handle_key(plain(Key::Enter));
    assert!(step.save_state);
    match step.reply {
        Reply::Connect { alias, user } => {
            assert_eq!(alias, "gamma");
            assert_eq!(user, "gus");
        }
        other => panic!("unexpected {other:?}"),
    }
    assert_eq!(p.store.recents, vec!["gamma".to_string()]);
}

#[test]
fn list_keys_move_mark_and_launch() {
    let mut p = picker(false, "w", true);
    p.handle_key(key('j'));
    assert_eq!(p.selected, 1);
    p.handle_key(key('G'));
    assert_eq!(p.selected, 2);
    p.handle_key(key('g'));
    p.handle_key(key('g'));
    assert_eq!(p.selected, 0);
    p.handle_key(key(' '));
    p.handle_key(key('j'));
    p.handle_key(key(' '));
    assert_eq!(p.selected_aliases.len(), 2);
    match p.handle_key(key('v')).reply {
        Reply::Launch { action, targets } => {
            assert_eq!(action, PaneAction::SplitVertical);
            assert_eq!(targets.len(), 2);
        }
        other => panic!("unexpected {other:?}"),
    }
    assert!(matches!(p.handle_key(key('q')).reply, Reply::Quit));
}

#[test]
fn tmux_actions_outside_tmux_stay_in_picker() {
    let mut p = picker(false, "p", false);
    let step = p.handle_key(key('w'));
    assert!(matches!(step.reply, Reply::Continue));
    assert_eq!(p.status, "tmux actions require running inside tmux");
}

#[test]
fn favorites_filter_and_forms() {
    let mut p = picker(false, "p", true);
    let step = p.handle_key(key('f'));
    assert!(step.save_state);
    assert_eq!(p.status, "favorite added");
    p.handle_key(key('F'));
    assert_eq!(p.filtered.len(), 1);
    p.handle_key(key('c'));
    assert!(p.show_cred);
    assert_eq!(p.cred.host, "alpha");
    let screen = p.cred_screen();
    assert_eq!(screen.title, "Store Credential");
    assert_eq!(screen.lines[0].text, "Host: alpha");
    assert!(screen.lines[1].focused);
    assert!(matches!(p.handle_key(plain(Key::Esc)).reply, Reply::Continue));
    assert!(!p.show_cred);
    p.handle_key(key('a'));
    assert!(p.show_add);
    for c in "newbox".chars() {
        p.handle_key(key(c));
    }
    let add = p.add_screen();
    assert_eq!(add.lines[0].text, "Alias: newbox");
    assert!(add.lines[0].focused);
    match p.handle_key(plain(Key::Enter)).reply {
        Reply::AddHost { input } => assert_eq!(input.alias, "newbox"),
        other => panic!("unexpected {other:?}"),
    }
}

#[test]
fn list_screen_rows() {
    let mut p = picker(false, "p", true);
    p.handle_key(key('f'));
    let s = p.list_screen(2);
    assert_eq!(s.search_line, "/ ");
    assert_eq!(s.rows.len(), 2);
    assert!(s.rows[0].cursor && s.rows[0].favorite && !s.rows[0].marked);
    assert!(s.rows[0].line.starts_with("alpha"));
    assert!(!s.no_match);
    assert!(s.footer.ends_with("favorite added"));
    assert!(s.footer.starts_with(" / search | enter connect"));
    p.handle_key(key('/'));
    for c in "zzz".chars() {
        p.handle_key(key(c));
    }
    let s = p.list_screen(10);
    assert!(s.no_match);
    assert!(s.rows.is_empty());
}

#[test]
fn test_restore_aborts_pending_sequence_first() {
    assert!(TTY_RESTORE.starts_with('\u{18}'));
}

#[test]
fn test_restore_covers_modes_a_remote_can_leave_set() {
    for seq in [
        "\x1b[?1049l",
        "\x1b[?1047l",
        "\x0f",
        "\x1b(B",
        "\x1b)B",
        "\x1b[?1000l",
        "\x1b[?1002l",
        "\x1b[?1003l",
        "\x1b[?1005l",
        "\x1b[?1006l",
        "\x1b[?1015l",
        "\x1b[?1004l",
        "\x1b[?2004l",
        "\x1b[?2026l",
        "\x1b[?1l",
        "\x1b>",
        "\x1b[?7h",
        "\x1b[r",
        "\x1b[m",
        "\x1b[?25h",
    ] {
        assert!(TTY_RESTORE.contains(seq), "missing {seq:?}");
    }
}

#[test]
fn test_restore_leaves_alternate_screen_early() {
    let alt = TTY_RESTORE.find("\x1b[?1049l").expect("no alt-screen exit");
    let sgr = TTY_RESTORE.find("\x1b[m").expect("no SGR reset");
    let cursor = TTY_RESTORE.find("\x1b[?25h").expect("no cursor show");
    assert!(alt < sgr && alt < cursor);
    assert!(TTY_RESTORE.starts_with('\u{18}'));
    assert!(alt < TTY_RESTORE.find("\x1b[?1047l").unwrap());
}

#[test]
fn test_restore_does_not_clear_scrollback() {
    assert!(!TTY_RESTORE.contains("\x1bc"));
}

#[test]
fn draining_stops_when_quiet_or_late() {
    assert_eq!(drain_step(ReadOutcome::Bytes, 900, 0), DrainStep::ReadAgain);
    assert_eq!(drain_step(ReadOutcome::WouldBlock, 10, 10), DrainStep::SleepThenRead);
    assert_eq!(drain_step(ReadOutcome::WouldBlock, 10, 50), DrainStep::Stop);
    assert_eq!(drain_step(ReadOutcome::WouldBlock, 500, 0), DrainStep::Stop);
    assert_eq!(drain_step(ReadOutcome::Eof, 0, 0), DrainStep::Stop);
    assert_eq!(drain_step(ReadOutcome::Failed, 0, 0), DrainStep::Stop);
}

#[test]
fn filtering_by_lowercased_query() {
    let p = picker(false, "p", true);
    assert_eq!(p.compute_filtered(&"beta".to_string()), vec![1]);
    assert_eq!(p.compute_filtered(&String::new()), vec![0, 1, 2]);
    assert_eq!(p.compute_filtered(&"alpha".to_string()), vec![0, 1]);
}

#[test]
fn o_opens_the_origin_pane() {
    let mut p = picker(false, "p", true);
    p.handle_key(key('j'));
    let step = p.handle_key(key('o'));
    assert!(step.save_state);
    match step.reply {
        Reply::Origin { alias } => assert_eq!(alias, "beta"),
        other => panic!("unexpected {other:?}"),
    }
    assert_eq!(p.store.recents, vec!["beta".to_string()]);
}

#[test]
fn enter_in_origin_mode_opens_the_origin_pane() {
    let mut p = picker(true, "o", true);
    for c in "gam".chars() {
        p.handle_key(key(c));
    }
    let step = p.handle_key(plain(Key::Enter));
    assert!(step.save_state);
    match step.reply {
        Reply::Origin { alias } => assert_eq!(alias, "gamma"),
        other => panic!("unexpected {other:?}"),
    }
    assert_eq!(p.store.recents, vec!["gamma".to_string()]);
    let mut q = picker(false, "p", true);
    assert!(matches!(q.handle_key(plain(Key::Enter)).reply, Reply::Connect { .. }));
}
