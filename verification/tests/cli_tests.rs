use rustasshn::cli::{search_first_for, starts_in_search};
use rustasshn::cli::{enter_mode_for, split_plan_for};
use rustasshn::cli::{
    askpass_env, askpass_script_content, askpass_ssh_args, credential_args, credential_user_candidates,
    extract_ssh_credential_target, host_and_user_from_destination, normalize_enter_mode,
    parse_askpass_prompt_target, split_plan, split_ssh_option, subject, SplitError, SplitPlan,
};

fn args(v: &[&str]) -> Vec<String> {
    v.iter().map(|s| s.to_string()).collect()
}

#[test]
fn test_normalize_enter_mode() {
    let cases = [
        ("p", "p"),
        ("pane", "p"),
        ("P", "p"),
        ("o", "o"),
        ("origin", "o"),
        ("O", "o"),
        ("w", "w"),
        ("window", "w"),
        ("s", "s"),
        ("split", "s"),
        ("split-h", "s"),
        ("v", "v"),
        ("split-v", "v"),
        ("", "p"),
        ("junk", "p"),
    ];
    for (i, w) in cases {
        assert_eq!(normalize_enter_mode(i), w);
    }
}

#[test]
fn test_extract_ssh_credential_target_user_at_host() {
    let target = extract_ssh_credential_target("ssh", &args(&["matt@edge1"])).unwrap();
    assert_eq!(target.host, "edge1");
    assert_eq!(target.user, "matt");
}

#[test]
fn test_extract_ssh_credential_target_user_flag() {
    let target = extract_ssh_credential_target("ssh", &args(&["-l", "matt", "edge1"])).unwrap();
    assert_eq!(target.host, "edge1");
    assert_eq!(target.user, "matt");
}

#[test]
fn test_extract_ssh_credential_target_option_user_flag() {
    let target = extract_ssh_credential_target("ssh", &args(&["-o", "User=matt", "edge1"])).unwrap();
    assert_eq!(target.host, "edge1");
    assert_eq!(target.user, "matt");
}

#[test]
fn test_extract_ssh_credential_target_for_scp() {
    let target =
        extract_ssh_credential_target("scp", &args(&["file.txt", "matt@edge1:/tmp/file.txt"])).unwrap();
    assert_eq!(target.host, "edge1");
    assert_eq!(target.user, "matt");
}

#[test]
fn test_connect_askpass_env_names_are_stable() {
    let cmd = credential_args("set", "narrs-dev4.lmig.com", "root", "password");
    assert_eq!(
        cmd,
        args(&["cred", "set", "--host", "narrs-dev4.lmig.com", "--kind", "password", "--user", "root"])
    );
    let env = askpass_env("narrs-dev4.lmig.com", "root", "/tmp/askpass.sh");
    assert!(env.iter().any(|(k, _)| k == "TSSM_HOST"));
    assert!(env.iter().any(|(k, _)| k == "TSSM_USER"));
}

#[test]
fn test_parse_askpass_prompt_target_user_at_host_password() {
    let t = parse_askpass_prompt_target("alice@bastion's password:").unwrap();
    assert_eq!(t.user, "alice");
    assert_eq!(t.host, "bastion");
}

#[test]
fn test_parse_askpass_prompt_target_user_at_host_colon_password() {
    let t = parse_askpass_prompt_target("bob@jump: Password:").unwrap();
    assert_eq!(t.user, "bob");
    assert_eq!(t.host, "jump");
}

#[test]
fn test_parse_askpass_prompt_target_bracketed_host() {
    let t = parse_askpass_prompt_target("root@[10.0.0.10]'s password:").unwrap();
    assert_eq!(t.user, "root");
    assert_eq!(t.host, "10.0.0.10");
}

#[test]
fn prompt_without_at_or_host_is_none() {
    assert!(parse_askpass_prompt_target("Password:").is_none());
    assert!(parse_askpass_prompt_target("alice@'s password:").is_none());
    assert!(parse_askpass_prompt_target("alice@[]'s password:").is_none());
    let t = parse_askpass_prompt_target("(carol@gw) Password: ").unwrap();
    assert_eq!(t.user, "carol");
    assert_eq!(t.host, "gw");
}

#[test]
fn extract_stops_at_double_dash_and_skips_flag_values() {
    assert!(extract_ssh_credential_target("ssh", &args(&["--", "edge1"])).is_none());
    let t = extract_ssh_credential_target("ssh", &args(&["-p", "2222", "-i", "key", "edge1"])).unwrap();
    assert_eq!(t.host, "edge1");
    assert_eq!(t.user, "");
    let t = extract_ssh_credential_target("ssh", &args(&["-oUser=-oUser=zed", "edge2"])).unwrap();
    assert_eq!(t.user, "zed");
    let t = extract_ssh_credential_target("ssh", &args(&["-o", "user = kim", "a@b@edge3"])).unwrap();
    assert_eq!(t.host, "edge3");
    assert_eq!(t.user, "a@b");
    assert!(extract_ssh_credential_target("scp", &args(&["a.txt", ":nohost", "b.txt"])).is_none());
    assert!(extract_ssh_credential_target("ssh", &args(&[])).is_none());
}

#[test]
fn destinations_and_options_split() {
    assert_eq!(
        host_and_user_from_destination("u@h"),
        ("h".to_string(), "u".to_string())
    );
    assert_eq!(host_and_user_from_destination("h"), ("h".to_string(), String::new()));
    assert_eq!(
        split_ssh_option(" User = matt "),
        Some(("User".to_string(), "matt".to_string()))
    );
    assert_eq!(split_ssh_option("=x"), None);
    assert_eq!(split_ssh_option("novalue"), None);
    assert_eq!(split_ssh_option("a=b=c"), Some(("a".to_string(), "b=c".to_string())));
}

#[test]
fn subject_names_user_and_host() {
    assert_eq!(subject(" edge1 ", " root "), "root@edge1");
    assert_eq!(subject("edge1", "  "), "edge1");
}

#[test]
fn candidates_are_tried_once_each() {
    assert_eq!(
        credential_user_candidates(" root ", Some("admin")),
        args(&["root", "admin", ""])
    );
    assert_eq!(credential_user_candidates("root", Some("root")), args(&["root", ""]));
    assert_eq!(credential_user_candidates("", None), args(&[""]));
}

#[test]
fn askpass_script_runs_the_program() {
    assert_eq!(
        askpass_script_content("/usr/bin/rust'asshn"),
        "#!/usr/bin/env bash\nexec '/usr/bin/rust'\"'\"'asshn' __askpass --host \"$TSSM_HOST\" --user \"$TSSM_USER\" --kind password\n"
    );
    assert_eq!(
        askpass_ssh_args(&args(&["edge1"])),
        args(&[
            "-o",
            "PubkeyAuthentication=no",
            "-o",
            "PreferredAuthentications=keyboard-interactive,password",
            "edge1"
        ])
    );
    let env = askpass_env("edge1", "root", "/s.sh");
    assert_eq!(env[2], ("SSH_ASKPASS".to_string(), "/s.sh".to_string()));
    assert_eq!(env[3], ("SSH_ASKPASS_REQUIRE".to_string(), "force".to_string()));
    assert_eq!(env[4], ("DISPLAY".to_string(), "1".to_string()));
}

#[test]
fn split_connect_plans() {
    match split_plan(false, "edge1", 3, "window", "") {
        Err(e) => assert_eq!(e.message(), "split-count requires running inside tmux"),
        Ok(_) => panic!("expected an error"),
    }
    match split_plan(true, "edge1", 3, " ", "") {
        Ok(SplitPlan::Windows(n)) => assert_eq!(n, 3),
        other => panic!("unexpected {other:?}"),
    }
    match split_plan(true, "edge1", 2, "V", "  ") {
        Ok(SplitPlan::Tiled(aliases, layout)) => {
            assert_eq!(aliases, args(&["edge1", "edge1"]));
            assert_eq!(layout, "tiled");
        }
        other => panic!("unexpected {other:?}"),
    }
    match split_plan(true, "edge1", 2, "grid", "") {
        Err(SplitError::BadMode) => {}
        other => panic!("unexpected {other:?}"),
    }
    assert_eq!(SplitError::BadMode.message(), "split-mode must be one of: window, v, h");
}

#[test]
fn lowercased_modes_decide() {
    assert_eq!(enter_mode_for("origin"), "o");
    assert_eq!(enter_mode_for("Origin"), "p");
    assert_eq!(enter_mode_for("split-h"), "s");
    match split_plan_for("x", 0, "", "") {
        Ok(SplitPlan::Windows(n)) => assert_eq!(n, 0),
        other => panic!("unexpected {other:?}"),
    }
    match split_plan_for("x", 2, "h", " even ") {
        Ok(SplitPlan::Tiled(a, l)) => {
            assert_eq!(a.len(), 2);
            assert_eq!(l, "even");
        }
        other => panic!("unexpected {other:?}"),
    }
    assert!(matches!(split_plan_for("x", 2, "V", ""), Err(SplitError::BadMode)));
}

#[test]
fn picker_mode_decides_focus() {
    assert!(starts_in_search("search"));
    assert!(!starts_in_search(" Normal "));
    assert!(search_first_for("Normal"));
    assert!(!search_first_for("normal"));
}
