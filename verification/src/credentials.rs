//! Credentials kept in the macOS keychain: how hosts, users and kinds are
//! normalized and named there, and the `security` calls that read and write
//! them. The calls themselves are run by the caller.
use vstd::prelude::*;

use crate::text;
use crate::tmuxrun::strs;

verus! {

/// Why a credential operation failed.
#[derive(Debug)]
pub enum CredError {
    /// The host is blank.
    HostRequired,
    /// There is no keychain on this platform.
    Unsupported,
    /// The secret entered was blank.
    EmptySecret,
    /// `security` could not store the secret.
    WriteFailed,
    /// `security` could not delete the secret.
    DeleteFailed,
    /// No secret is stored; the item's label.
    NotFound(String),
    /// The stored secret is empty; the item's label.
    EmptyCredential(String),
}

/// The message of a credential error.
pub open spec fn cred_error_text(e: CredError) -> Seq<char> {
    match e {
        CredError::HostRequired => "host is required"@,
        CredError::Unsupported => "credentials are only supported on macOS"@,
        CredError::EmptySecret => "empty secret refused"@,
        CredError::WriteFailed => "keychain write failed"@,
        CredError::DeleteFailed => "keychain delete failed"@,
        CredError::NotFound(l) => "credential not found for "@ + l@,
        CredError::EmptyCredential(l) => "empty credential for "@ + l@,
    }
}

impl CredError {
    /// The error's message.
    pub fn message(&self) -> (r: String)
        ensures
            r@ == cred_error_text(*self),
    {
        match self {
            CredError::HostRequired => String::from_str("host is required"),
            CredError::Unsupported => String::from_str("credentials are only supported on macOS"),
            CredError::EmptySecret => String::from_str("empty secret refused"),
            CredError::WriteFailed => String::from_str("keychain write failed"),
            CredError::DeleteFailed => String::from_str("keychain delete failed"),
            CredError::NotFound(l) => {
                let mut r = String::from_str("credential not found for ");
                text::push_str(&mut r, l.as_str());
                r
            },
            CredError::EmptyCredential(l) => {
                let mut r = String::from_str("empty credential for ");
                text::push_str(&mut r, l.as_str());
                r
            },
        }
    }
}

/// The host, trimmed; it must not be blank.
pub fn normalize_host(host: &str) -> (r: Result<String, CredError>)
    ensures
        text::trim(host@).len() == 0 <==> r is Err,
        r matches Err(e) ==> e is HostRequired,
        r matches Ok(h) ==> h@ == text::trim(host@),
{
    let h = text::trim_str(host);
    if h.as_str().is_empty() {
        return Err(CredError::HostRequired);
    }
    Ok(h)
}

/// The account a secret is stored under: the user, trimmed, or the host when
/// the user is blank.
pub open spec fn user_of(host: Seq<char>, user: Seq<char>) -> Seq<char> {
    if text::trim(user).len() > 0 {
        text::trim(user)
    } else {
        host
    }
}

/// The keychain account for `user` on `host`.
pub fn normalize_user(host: &str, user: &str) -> (r: String)
    ensures
        r@ == user_of(host@, user@),
{
    let u = text::trim_str(user);
    if !u.as_str().is_empty() {
        u
    } else {
        text::copy_str(host)
    }
}

/// The kind of a secret: `password` (also for blank), `passphrase`, `otp`
/// (also for `totp`), or the kind as given, trimmed and lowercased.
pub open spec fn kind_of(kind: Seq<char>) -> Seq<char> {
    kind_from(text::lowercase(text::trim(kind)))
}

/// The normalized kind of a secret.
pub fn normalize_kind(kind: &str) -> (r: String)
    ensures
        r@ == kind_of(kind@),
{
    let t = text::trim_str(kind);
    let k = text::to_lowercase(t.as_str());
    kind_for(k)
}

/// The kind for an already trimmed and lowercased name.
pub open spec fn kind_from(k: Seq<char>) -> Seq<char> {
    if k.len() == 0 || k == "password"@ {
        "password"@
    } else if k == "passphrase"@ {
        "passphrase"@
    } else if k == "otp"@ || k == "totp"@ {
        "otp"@
    } else {
        k
    }
}

/// Maps an already trimmed and lowercased kind name to its kind.
pub fn kind_for(k: String) -> (r: String)
    ensures
        r@ == kind_from(k@),
{
    if k.as_str().is_empty() || text::str_eq(k.as_str(), "password") {
        String::from_str("password")
    } else if text::str_eq(k.as_str(), "passphrase") {
        String::from_str("passphrase")
    } else if text::str_eq(k.as_str(), "otp") || text::str_eq(k.as_str(), "totp") {
        String::from_str("otp")
    } else {
        k
    }
}

/// The keychain service of a host's secret of a kind.
pub open spec fn service_of(host: Seq<char>, kind: Seq<char>) -> Seq<char> {
    "tmux-ssh-manager:"@ + host + ":"@ + kind_of(kind)
}

/// The keychain service name for a host's secret.
pub fn service_name(host: &str, kind: &str) -> (r: String)
    ensures
        r@ == service_of(host@, kind@),
{
    let mut r = String::from_str("tmux-ssh-manager:");
    text::push_str(&mut r, host);
    text::push_str(&mut r, ":");
    let k = normalize_kind(kind);
    text::push_str(&mut r, k.as_str());
    r
}

/// The keychain item's label: `<kind> for <user>@<host>`, or `<kind> for
/// <host>` when the user is empty or the host itself.
pub open spec fn label_of(host: Seq<char>, user: Seq<char>, kind: Seq<char>) -> Seq<char> {
    if user.len() > 0 && user != host {
        kind_of(kind) + " for "@ + user + "@"@ + host
    } else {
        kind_of(kind) + " for "@ + host
    }
}

/// The label of a keychain item.
pub fn item_label(host: &str, user: &str, kind: &str) -> (r: String)
    ensures
        r@ == label_of(host@, user@, kind@),
{
    let mut r = normalize_kind(kind);
    text::push_str(&mut r, " for ");
    if !user.is_empty() && !text::str_eq(user, host) {
        text::push_str(&mut r, user);
        text::push_str(&mut r, "@");
    }
    text::push_str(&mut r, host);
    r
}

/// A `security` call and the label of the item it touches.
#[derive(Debug)]
pub struct KeychainCall {
    pub args: Vec<String>,
    pub label: String,
}

/// The normalized host, account and kind of a request.
pub open spec fn names(host: Seq<char>, user: Seq<char>, kind: Seq<char>) -> (Seq<char>, Seq<char>, Seq<char>) {
    let h = text::trim(host);
    (h, user_of(h, user), kind_of(kind))
}

/// The outcome every credential call shares: unsupported without a keychain,
/// an error for a blank host.
pub open spec fn refused(keychain: bool, host: Seq<char>) -> Option<CredError> {
    if !keychain {
        Some(CredError::Unsupported)
    } else if text::trim(host).len() == 0 {
        Some(CredError::HostRequired)
    } else {
        None
    }
}

/// Whether a call result agrees with `refused`.
pub open spec fn call_ok<T>(r: Result<T, CredError>, keychain: bool, host: Seq<char>) -> bool {
    &&& (r is Err <==> refused(keychain, host) is Some)
    &&& (r matches Err(e) ==> Some(e) == refused(keychain, host))
}

struct Names {
    host: String,
    user: String,
    kind: String,
}

fn names_for(host: &str, user: &str, kind: &str, keychain: bool) -> (r: Result<Names, CredError>)
    ensures
        call_ok(r, keychain, host@),
        r matches Ok(n) ==> (n.host@, n.user@, n.kind@) == names(host@, user@, kind@),
{
    if !keychain {
        return Err(CredError::Unsupported);
    }
    let h = normalize_host(host)?;
    let u = normalize_user(h.as_str(), user);
    let k = normalize_kind(kind);
    Ok(Names { host: h, user: u, kind: k })
}

/// The `security` arguments that look up a stored secret of `kind` for
/// `user` on `host` (whether it exists). With no keychain, or a blank host,
/// this is an error.
pub fn get(host: &str, user: &str, kind: &str, keychain: bool) -> (r: Result<KeychainCall, CredError>)
    ensures
        call_ok(r, keychain, host@),
        r matches Ok(c) ==> {
            let (h, u, k) = names(host@, user@, kind@);
            &&& strs(c.args@) == seq!["find-generic-password"@, "-s"@, service_of(h, k), "-a"@, u]
            &&& c.label@ == label_of(h, u, k)
        },
{
    let n = names_for(host, user, kind, keychain)?;
    let service = service_name(n.host.as_str(), n.kind.as_str());
    let label = item_label(n.host.as_str(), n.user.as_str(), n.kind.as_str());
    let args = vec![
        String::from_str("find-generic-password"),
        String::from_str("-s"),
        service,
        String::from_str("-a"),
        n.user,
    ];
    proof {
        let (h, u, k) = names(host@, user@, kind@);
        assert(strs(args@) =~= seq!["find-generic-password"@, "-s"@, service_of(h, k), "-a"@, u]);
    }
    Ok(KeychainCall { args, label })
}

/// The `security` arguments that delete a stored secret. With no keychain,
/// or a blank host, this is an error.
pub fn delete(host: &str, user: &str, kind: &str, keychain: bool) -> (r: Result<KeychainCall, CredError>)
    ensures
        call_ok(r, keychain, host@),
        r matches Ok(c) ==> {
            let (h, u, k) = names(host@, user@, kind@);
            &&& strs(c.args@) == seq!["delete-generic-password"@, "-s"@, service_of(h, k), "-a"@, u]
            &&& c.label@ == label_of(h, u, k)
        },
{
    let n = names_for(host, user, kind, keychain)?;
    let service = service_name(n.host.as_str(), n.kind.as_str());
    let label = item_label(n.host.as_str(), n.user.as_str(), n.kind.as_str());
    let args = vec![
        String::from_str("delete-generic-password"),
        String::from_str("-s"),
        service,
        String::from_str("-a"),
        n.user,
    ];
    proof {
        let (h, u, k) = names(host@, user@, kind@);
        assert(strs(args@) =~= seq!["delete-generic-password"@, "-s"@, service_of(h, k), "-a"@, u]);
    }
    Ok(KeychainCall { args, label })
}

/// The `security` arguments that print a stored secret. With no keychain,
/// or a blank host, this is an error.
pub fn reveal_request(host: &str, user: &str, kind: &str, keychain: bool) -> (r: Result<KeychainCall, CredError>)
    ensures
        call_ok(r, keychain, host@),
        r matches Ok(c) ==> {
            let (h, u, k) = names(host@, user@, kind@);
            &&& strs(c.args@) == seq!["find-generic-password"@, "-w"@, "-s"@, service_of(h, k), "-a"@, u]
            &&& c.label@ == label_of(h, u, k)
        },
{
    let n = names_for(host, user, kind, keychain)?;
    let service = service_name(n.host.as_str(), n.kind.as_str());
    let label = item_label(n.host.as_str(), n.user.as_str(), n.kind.as_str());
    let args = vec![
        String::from_str("find-generic-password"),
        String::from_str("-w"),
        String::from_str("-s"),
        service,
        String::from_str("-a"),
        n.user,
    ];
    proof {
        let (h, u, k) = names(host@, user@, kind@);
        assert(strs(args@) =~= seq!["find-generic-password"@, "-w"@, "-s"@, service_of(h, k), "-a"@, u]);
    }
    Ok(KeychainCall { args, label })
}

/// The prompt shown before storing a secret: `Enter <kind> for <label>`.
/// With no keychain, or a blank host, this is an error.
pub fn set(host: &str, user: &str, kind: &str, keychain: bool) -> (r: Result<String, CredError>)
    ensures
        call_ok(r, keychain, host@),
        r matches Ok(p) ==> {
            let (h, u, k) = names(host@, user@, kind@);
            p@ == "Enter "@ + k + " for "@ + label_of(h, u, k)
        },
{
    let n = names_for(host, user, kind, keychain)?;
    let label = item_label(n.host.as_str(), n.user.as_str(), n.kind.as_str());
    let mut p = String::from_str("Enter ");
    text::push_str(&mut p, n.kind.as_str());
    text::push_str(&mut p, " for ");
    text::push_str(&mut p, label.as_str());
    Ok(p)
}

/// The `security` arguments that store `secret` (replacing a stored one).
/// A blank secret is refused.
pub fn store_args(host: &str, user: &str, kind: &str, secret: &str, keychain: bool) -> (r: Result<KeychainCall, CredError>)
    ensures
        refused(keychain, host@) is Some ==> call_ok(r, keychain, host@),
        refused(keychain, host@) is None ==> (r is Err <==> text::trim(secret@).len() == 0),
        refused(keychain, host@) is None ==> (r matches Err(e) ==> e is EmptySecret),
        r matches Ok(c) ==> {
            let (h, u, k) = names(host@, user@, kind@);
            &&& strs(c.args@) == seq![
                "add-generic-password"@,
                "-U"@,
                "-s"@,
                service_of(h, k),
                "-a"@,
                u,
                "-l"@,
                label_of(h, u, k),
                "-w"@,
                secret@,
            ]
            &&& c.label@ == label_of(h, u, k)
        },
{
    let n = names_for(host, user, kind, keychain)?;
    let t = text::trim_chars(secret);
    if t.len() == 0 {
        return Err(CredError::EmptySecret);
    }
    let service = service_name(n.host.as_str(), n.kind.as_str());
    let label = item_label(n.host.as_str(), n.user.as_str(), n.kind.as_str());
    let args = vec![
        String::from_str("add-generic-password"),
        String::from_str("-U"),
        String::from_str("-s"),
        service,
        String::from_str("-a"),
        n.user,
        String::from_str("-l"),
        label.clone(),
        String::from_str("-w"),
        text::copy_str(secret),
    ];
    proof {
        let (h, u, k) = names(host@, user@, kind@);
        assert(strs(args@) =~= seq![
            "add-generic-password"@,
            "-U"@,
            "-s"@,
            service_of(h, k),
            "-a"@,
            u,
            "-l"@,
            label_of(h, u, k),
            "-w"@,
            secret@,
        ]);
    }
    Ok(KeychainCall { args, label })
}

/// `s` without trailing carriage returns and line feeds.
pub open spec fn without_line_ends(s: Seq<char>) -> Seq<char>
    decreases s.len(),
{
    if s.len() > 0 && (s.last() == '\r' || s.last() == '\n') {
        without_line_ends(s.drop_last())
    } else {
        s
    }
}

/// The secret in what `security` printed for a `reveal` call: the output
/// without its trailing line ends. An empty secret is an error.
pub fn reveal_secret(output: &str, label: &str) -> (r: Result<String, CredError>)
    ensures
        without_line_ends(output@).len() == 0 <==> r is Err,
        r matches Err(e) ==> (e matches CredError::EmptyCredential(l) && l@ == label@),
        r matches Ok(s) ==> s@ == without_line_ends(output@),
{
    let v = text::chars_of(output);
    let mut n = v.len();
    assert(v@.take(v.len() as int) =~= v@);
    while n > 0 && (v[n - 1] == '\r' || v[n - 1] == '\n')
        invariant
            n <= v.len(),
            without_line_ends(v@) == without_line_ends(v@.take(n as int)),
        decreases n,
    {
        proof {
            assert(v@.take(n as int).drop_last() =~= v@.take(n - 1));
        }
        n -= 1;
    }
    proof {
        assert(v@.take(v.len() as int) =~= v@);
    }
    if n == 0 {
        assert(v@.take(0) =~= Seq::<char>::empty());
        return Err(CredError::EmptyCredential(text::copy_str(label)));
    }
    let r = text::string_of_range(&v, 0, n);
    assert(r@ =~= v@.take(n as int));
    Ok(r)
}

} // verus!
