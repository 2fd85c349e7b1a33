use rustasshn::credentials::kind_for;
use rustasshn::credentials::{
    delete, get, item_label, normalize_host, normalize_kind, normalize_user, reveal_request, reveal_secret,
    service_name, store_args, CredError,
};

fn args(v: &[&str]) -> Vec<String> {
    v.iter().map(|s| s.to_string()).collect()
}

#[test]
fn test_normalize_kind() {
    assert_eq!(normalize_kind(""), "password");
    assert_eq!(normalize_kind("password"), "password");
    assert_eq!(normalize_kind("totp"), "otp");
    assert_eq!(normalize_kind("passphrase"), "passphrase");
}

#[test]
fn test_service_name() {
    assert_eq!(service_name("edge1", "password"), "tmux-ssh-manager:edge1:password");
}

#[test]
fn names_and_labels() {
    assert_eq!(normalize_kind(" OTP "), "otp");
    assert_eq!(normalize_kind("Token"), "token");
    assert_eq!(normalize_user("edge1", "  "), "edge1");
    assert_eq!(normalize_user("edge1", " root "), "root");
    assert_eq!(item_label("edge1", "root", "password"), "password for root@edge1");
    assert_eq!(item_label("edge1", "edge1", "totp"), "otp for edge1");
    assert_eq!(item_label("edge1", "", ""), "password for edge1");
    assert!(matches!(normalize_host("  "), Err(CredError::HostRequired)));
    assert_eq!(normalize_host(" edge1 ").unwrap(), "edge1");
}

#[test]
fn keychain_calls() {
    let c = get(" edge1 ", "", "password", true).unwrap();
    assert_eq!(
        c.args,
        args(&["find-generic-password", "-s", "tmux-ssh-manager:edge1:password", "-a", "edge1"])
    );
    assert_eq!(c.label, "password for edge1");
    let c = delete("edge1", "root", "otp", true).unwrap();
    assert_eq!(
        c.args,
        args(&["delete-generic-password", "-s", "tmux-ssh-manager:edge1:otp", "-a", "root"])
    );
    let c = reveal_request("edge1", "root", "", true).unwrap();
    assert_eq!(
        c.args,
        args(&["find-generic-password", "-w", "-s", "tmux-ssh-manager:edge1:password", "-a", "root"])
    );
    assert_eq!(rustasshn::credentials::set("edge1", "root", "password", true).unwrap(), "Enter password for password for root@edge1");
    let c = store_args("edge1", "root", "password", "s3cret", true).unwrap();
    assert_eq!(
        c.args,
        args(&[
            "add-generic-password",
            "-U",
            "-s",
            "tmux-ssh-manager:edge1:password",
            "-a",
            "root",
            "-l",
            "password for root@edge1",
            "-w",
            "s3cret"
        ])
    );
}

#[test]
fn keychain_errors() {
    let e = get("edge1", "", "password", false).unwrap_err();
    assert_eq!(e.message(), "credentials are only supported on macOS");
    let e = delete(" ", "", "password", true).unwrap_err();
    assert_eq!(e.message(), "host is required");
    let e = store_args("edge1", "", "password", "  ", true).unwrap_err();
    assert_eq!(e.message(), "empty secret refused");
    assert_eq!(CredError::WriteFailed.message(), "keychain write failed");
    assert_eq!(CredError::DeleteFailed.message(), "keychain delete failed");
    assert_eq!(
        CredError::NotFound("password for edge1".to_string()).message(),
        "credential not found for password for edge1"
    );
}

#[test]
fn revealed_secret_loses_line_ends() {
    assert_eq!(reveal_secret("hunter2\r\n\n", "l").unwrap(), "hunter2");
    let e = reveal_secret("\n", "password for edge1").unwrap_err();
    assert_eq!(e.message(), "empty credential for password for edge1");
}

#[test]
fn lowercased_kinds_map() {
    assert_eq!(kind_for("totp".to_string()), "otp");
    assert_eq!(kind_for(String::new()), "password");
    assert_eq!(kind_for("TOTP".to_string()), "TOTP");
}
