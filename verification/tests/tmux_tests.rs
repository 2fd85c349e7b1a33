use rustasshn::tmuxrun::disabling_word;
use rustasshn::tmuxrun::{
    command_args, in_tmux, log_dir, log_file_path, logging_disabled, login_shell, logs_base_dir,
    pipe_bracket, pipe_start_cmd, pipe_stop_cmd, reset_prefix, sanitize_alias, select_layout_args,
    shell_quote, socket_path, ssh_command, tiled_split_args, tmux_failure, PaneEnv, PaneInfo, Session,
};

fn env() -> PaneEnv {
    PaneEnv { shell: "/bin/zsh".to_string(), reset: reset_prefix(Some("/usr/local/bin/rustasshn")) }
}

fn args(v: &[&str]) -> Vec<String> {
    v.iter().map(|s| s.to_string()).collect()
}

fn askpass_session() -> Session {
    Session {
        askpass_script: Some("/tmp/tssm-askpass.sh".to_string()),
        host_users: vec![("edge1".to_string(), "admin".to_string())],
    }
}

#[test]
fn test_ssh_command_quotes_alias() {
    assert_eq!(
        ssh_command("prod'box", &env(), None),
        format!("ssh 'prod'\"'\"'box'; {}exec '/bin/zsh' -l", env().reset)
    );
}

#[test]
fn test_ssh_command_simple_alias() {
    assert_eq!(ssh_command("edge1", &env(), None), format!("ssh 'edge1'; {}exec '/bin/zsh' -l", env().reset));
}

#[test]
fn test_ssh_command_empty_alias() {
    assert_eq!(ssh_command("", &env(), None), format!("ssh ''; {}exec '/bin/zsh' -l", env().reset));
}

#[test]
fn test_logging_disabled_emits_no_bracket() {
    assert!(logging_disabled(Some("1")));
    assert_eq!(pipe_bracket(None), (String::new(), String::new()));
    assert!(!ssh_command("edge1", &env(), None).contains("pipe-pane"));
}

#[test]
fn test_pipe_start_cmd_targets_own_pane_and_quotes_path() {
    let got = pipe_start_cmd("/logs/edge 1/it's.log");
    assert_eq!(
        got,
        "tmux pipe-pane -O -t \"$TMUX_PANE\" 'cat >> '\"'\"'/logs/edge 1/it'\"'\"'\"'\"'\"'\"'\"'\"'s.log'\"'\"' 2>/dev/null'; "
    );
    assert!(got.contains("\"$TMUX_PANE\""));
    assert!(!got.contains(" -o "));
}

#[test]
fn test_pipe_stop_cmd_closes_pipe_for_own_pane() {
    assert_eq!(pipe_stop_cmd(), "tmux pipe-pane -t \"$TMUX_PANE\"; ");
}

#[test]
fn test_pane_command_brackets_ssh_with_logging() {
    let got = ssh_command("edge1", &env(), Some("/tmp/x.log"));
    let open = got.find("pipe-pane -O").expect("no pipe open");
    let ssh = got.find("ssh 'edge1'").expect("no ssh");
    let close = got.rfind("pipe-pane -t").expect("no pipe close");
    let reset = got.find("__reset").expect("no reset");
    let shell = got.find("exec ").expect("no exec");
    assert!(open < ssh && ssh < close && close < reset && reset < shell, "wrong order: {got}");
}

#[test]
fn test_reset_prefix_is_quoted_and_trailing_separated() {
    let p = reset_prefix(Some("/usr/local/bin/rustasshn"));
    assert!(p.ends_with("__reset; "), "unexpected prefix: {p:?}");
    assert!(p.starts_with('\''), "exe path must be quoted: {p:?}");
    assert_eq!(reset_prefix(None), "");
}

#[test]
fn test_ssh_command_resets_between_ssh_and_shell() {
    let got = ssh_command("edge1", &env(), None);
    let reset = got.find("__reset").expect("reset step missing");
    let ssh = got.find("ssh ").expect("ssh missing");
    let shell = got.find("exec ").expect("exec missing");
    assert!(ssh < reset && reset < shell, "wrong order: {got}");
}

#[test]
fn test_session_ssh_command_resets_on_askpass_path() {
    let got = askpass_session().ssh_command_string("edge1", true, &env(), None);
    let reset = got.find("__reset").expect("reset step missing");
    let shell = got.find("exec ").expect("exec missing");
    assert!(reset < shell, "wrong order: {got}");
}

#[test]
fn test_session_ssh_command_disables_pubkey() {
    let got = askpass_session().ssh_command_string("edge1", true, &env(), None);
    assert!(got.contains("PubkeyAuthentication=no"));
    assert!(got.contains("PreferredAuthentications=keyboard-interactive,password"));
    assert!(got.starts_with("export TSSM_HOST='edge1' TSSM_USER='admin' SSH_ASKPASS='/tmp/tssm-askpass.sh'"));
}

#[test]
fn test_session_ssh_command_without_credential() {
    let got = askpass_session().ssh_command_string("edge1", false, &env(), None);
    assert!(!got.contains("PubkeyAuthentication"));
}

#[test]
fn test_shell_quote() {
    let cases = [
        ("simple", "'simple'"),
        ("", "''"),
        ("it's", "'it'\"'\"'s'"),
        ("a b c", "'a b c'"),
        ("$VAR", "'$VAR'"),
    ];
    for (i, w) in cases {
        assert_eq!(shell_quote(i), w);
    }
}

#[test]
fn test_in_tmux_reads_env() {
    assert!(!in_tmux(Some("")));
    assert!(in_tmux(Some("/tmp/tmux-501/default,12345,0")));
    assert!(!in_tmux(None));
}

#[test]
fn test_socket_path() {
    assert_eq!(socket_path(Some("/tmp/tmux-501/default,12345,0")), "/tmp/tmux-501/default");
    assert_eq!(socket_path(Some("")), "");
    assert_eq!(socket_path(None), "");
}

#[test]
fn test_login_shell_fallback() {
    assert_eq!(login_shell(Some("")), "sh");
    assert_eq!(login_shell(Some("/bin/zsh")), "/bin/zsh");
    assert_eq!(login_shell(None), "sh");
}

#[test]
fn test_sanitize_alias() {
    let cases = [
        ("edge1", "edge1"),
        ("my-host.local", "my-host.local"),
        ("user@host", "user_host"),
        ("host with spaces", "host_with_spaces"),
        ("host/path", "host_path"),
        ("", "_"),
        ("caf\u{00e9}", "caf_"),
    ];
    for (i, w) in cases {
        assert_eq!(sanitize_alias(i), w);
    }
}

#[test]
fn test_log_dir_uses_xdg() {
    let base = logs_base_dir(Some("/tmp/xdg"), Some("/home/u")).unwrap();
    assert_eq!(base, "/tmp/xdg/rustasshn/logs");
    assert_eq!(log_dir(&base, "edge1"), "/tmp/xdg/rustasshn/logs/edge1");
}

#[test]
fn test_ensure_log_file_creates_file() {
    let path = log_file_path("/tmp/xdg/rustasshn/logs/edge1", "2024-05-06");
    assert_eq!(path, "/tmp/xdg/rustasshn/logs/edge1/2024-05-06.log");
}

#[test]
fn logging_switch_values() {
    for v in ["1", "true", " YES ", "On"] {
        assert!(logging_disabled(Some(v)), "{v}");
    }
    for v in ["0", "", "off", "no"] {
        assert!(!logging_disabled(Some(v)), "{v}");
    }
    assert!(!logging_disabled(None));
}

#[test]
fn pane_and_window_arguments() {
    let s = Session::new();
    let w = s.new_window("edge1", false, &env(), None);
    assert_eq!(w[..5], args(&["new-window", "-n", "edge1", "/bin/zsh", "-lc"])[..]);
    assert_eq!(w[5], ssh_command("edge1", &env(), None));
    let v = s.split_vertical("edge1", false, &env(), None);
    assert_eq!(v[..6], args(&["split-window", "-v", "-c", "#{pane_current_path}", "/bin/zsh", "-lc"])[..]);
    let h = s.split_horizontal("edge1", false, &env(), None);
    assert_eq!(h[1], "-h");
    let r = s.respawn_origin_pane("edge1", true, " %3 ", "", false, &env(), None).unwrap();
    assert_eq!(r[..6], args(&["respawn-pane", "-t", "%3", "-k", "-c", "#{pane_current_path}"])[..]);
    let r = s.respawn_origin_pane("edge1", true, "", "/srv", false, &env(), None).unwrap();
    assert_eq!(r[..5], args(&["respawn-pane", "-k", "-c", "#{pane_current_path}", "--"])[..]);
    let e = s.respawn_origin_pane("edge1", false, "%3", "", false, &env(), None).unwrap_err();
    assert_eq!(e.message(), "origin pane requires running inside tmux");
}

#[test]
fn tiled_plans_one_window() {
    let s = askpass_session();
    let aliases = args(&["edge1", "edge2", "edge3"]);
    let panes = vec![
        PaneInfo { has_credential: true, log_path: None },
        PaneInfo { has_credential: false, log_path: Some("/l/e2.log".to_string()) },
        PaneInfo { has_credential: false, log_path: None },
    ];
    let plan = s.tiled(&aliases, " ", &env(), &panes).unwrap();
    assert_eq!(plan.first[..6], args(&["new-window", "-P", "-F", "#{window_id}", "-n", "tiled"])[..]);
    assert!(plan.first[8].contains("PubkeyAuthentication=no"));
    assert_eq!(plan.splits.len(), 2);
    assert!(plan.splits[0].contains("pipe-pane -O"));
    assert_eq!(plan.layout, "tiled");
    assert!(s.tiled(&Vec::new(), "", &env(), &Vec::new()).is_none());
    assert_eq!(
        tiled_split_args("@4", "/bin/sh", "ssh x"),
        args(&["split-window", "-v", "-t", "@4", "/bin/sh", "-lc", "ssh x"])
    );
    assert_eq!(select_layout_args("@4", "even-vertical"), args(&["select-layout", "-t", "@4", "even-vertical"]));
}

#[test]
fn tmux_socket_and_failures() {
    assert_eq!(command_args("/s", &args(&["ls"])), args(&["-S", "/s", "ls"]));
    assert_eq!(command_args("", &args(&["ls"])), args(&["ls"]));
    assert_eq!(tmux_failure(&args(&["new-window", "-n", "x"]), " no server \n"), "tmux new-window -n x: no server");
    assert_eq!(tmux_failure(&args(&["ls"]), ""), "tmux ls: tmux ls failed");
}

#[test]
fn lowercased_logging_words() {
    assert!(disabling_word("yes"));
    assert!(!disabling_word("YES"));
    assert!(!disabling_word(" on"));
}

#[test]
fn default_session_has_no_askpass() {
    let s = Session::default();
    assert!(s.askpass_script.is_none());
    assert_eq!(s.ssh_command_string("edge1", true, &env(), None), ssh_command("edge1", &env(), None));
}
