//! The decisions of the command-line front end: option values, the ssh
//! destination whose stored password applies, and the arguments and
//! environment of the commands it starts.
use vstd::prelude::*;

use crate::text;
use crate::tmuxrun;
use crate::tmuxrun::strs;

verus! {

// ---------------------------------------------------------------- options

/// The picker's Enter behaviour for a `--enter-mode` value (already trimmed
/// and lowercased): `p` pane, `o` origin, `w` window, `s` split, `v`
/// vertical split; anything else means `p`.
pub open spec fn enter_mode_of(k: Seq<char>) -> Seq<char> {
    if k == "p"@ || k == "pane"@ {
        "p"@
    } else if k == "o"@ || k == "origin"@ {
        "o"@
    } else if k == "w"@ || k == "window"@ {
        "w"@
    } else if k == "s"@ || k == "split"@ || k == "split-h"@ {
        "s"@
    } else if k == "v"@ || k == "split-v"@ {
        "v"@
    } else {
        "p"@
    }
}

/// Normalizes an `--enter-mode` value.
pub fn normalize_enter_mode(raw: &str) -> (r: &'static str)
    ensures
        r@ == enter_mode_of(text::lowercase(text::trim(raw@))),
{
    let t = text::trim_str(raw);
    let k = text::to_lowercase(t.as_str());
    enter_mode_for(k.as_str())
}

/// The Enter behaviour for an already trimmed and lowercased mode.
pub fn enter_mode_for(k: &str) -> (r: &'static str)
    ensures
        r@ == enter_mode_of(k@),
{
    if text::str_eq(k, "p") || text::str_eq(k, "pane") {
        "p"
    } else if text::str_eq(k, "o") || text::str_eq(k, "origin") {
        "o"
    } else if text::str_eq(k, "w") || text::str_eq(k, "window") {
        "w"
    } else if text::str_eq(k, "s") || text::str_eq(k, "split") || text::str_eq(k, "split-h") {
        "s"
    } else if text::str_eq(k, "v") || text::str_eq(k, "split-v") {
        "v"
    } else {
        "p"
    }
}

/// Whether the picker starts with the search box focused: unless the
/// `--mode` value (already trimmed and lowercased) is `normal`.
pub fn search_first_for(mode: &str) -> (r: bool)
    ensures
        r == (mode@ != "normal"@),
{
    !text::str_eq(mode, "normal")
}

/// Whether the picker starts with the search box focused, for a `--mode`
/// value.
pub fn starts_in_search(mode: &str) -> (r: bool)
    ensures
        r == (text::lowercase(text::trim(mode@)) != "normal"@),
{
    let t = text::trim_str(mode);
    let m = text::to_lowercase(t.as_str());
    search_first_for(m.as_str())
}

/// How a credential command names its subject: `user@host`, or the host
/// alone when the user is blank (both trimmed).
pub open spec fn subject_of(host: Seq<char>, user: Seq<char>) -> Seq<char> {
    if text::trim(user).len() > 0 {
        text::trim(user) + "@"@ + text::trim(host)
    } else {
        text::trim(host)
    }
}

/// The subject named in credential command output.
pub fn subject(host: &str, user: &str) -> (r: String)
    ensures
        r@ == subject_of(host@, user@),
{
    let h = text::trim_str(host);
    let u = text::trim_str(user);
    if !u.as_str().is_empty() {
        let mut r = u;
        text::push_str(&mut r, "@");
        text::push_str(&mut r, h.as_str());
        r
    } else {
        h
    }
}

// ---------------------------------------------------------------- destinations

/// The index of the last `c` in `s`, if any.
pub open spec fn last_index(s: Seq<char>, c: char) -> Option<int> {
    if exists|i: int| 0 <= i < s.len() && s[i] == c {
        Some(choose|i: int| 0 <= i < s.len() && s[i] == c && forall|j: int| i < j < s.len() ==> s[j] != c)
    } else {
        None
    }
}

fn find_last(v: &Vec<char>, c: char) -> (r: Option<usize>)
    ensures
        match r {
            Some(i) => i < v@.len() && last_index(v@, c) == Some(i as int),
            None => last_index(v@, c) is None,
        },
{
    let mut i = v.len();
    while i > 0
        invariant
            i <= v.len(),
            forall|j: int| i <= j < v.len() ==> v@[j] != c,
        decreases i,
    {
        if v[i - 1] == c {
            proof {
                let k = choose|k: int| 0 <= k < v@.len() && v@[k] == c && forall|j: int| k < j < v@.len() ==> v@[j] != c;
                if k > i - 1 {
                } else if k < i - 1 {
                    assert(v@[i - 1] == c);
                }
            }
            return Some(i - 1);
        }
        i -= 1;
    }
    None
}

/// The host and user of an ssh destination `user@host` (split at the last
/// `@`); the user is empty when there is no `@`.
pub open spec fn dest_parts(d: Seq<char>) -> (Seq<char>, Seq<char>) {
    match last_index(d, '@') {
        Some(i) => (d.skip(i + 1), d.take(i)),
        None => (d, Seq::empty()),
    }
}

/// Splits an ssh destination into host and user.
pub fn host_and_user_from_destination(dest: &str) -> (r: (String, String))
    ensures
        (r.0@, r.1@) == dest_parts(dest@),
{
    let v = text::chars_of(dest);
    match find_last(&v, '@') {
        Some(at) => {
            let host = text::string_of_range(&v, at + 1, v.len());
            let user = text::string_of_range(&v, 0, at);
            assert(host@ =~= v@.skip(at + 1));
            assert(user@ =~= v@.take(at as int));
            (host, user)
        },
        None => (text::string_of(&v), String::new()),
    }
}

/// The key and value of an ssh `-o` option `Key=Value`, both trimmed; `None`
/// without `=` or with a blank key.
pub open spec fn option_parts(o: Seq<char>) -> Option<(Seq<char>, Seq<char>)> {
    match tmuxrun::find_char(o, '=') {
        Some(i) => {
            let k = text::trim(o.take(i));
            if k.len() == 0 {
                None
            } else {
                Some((k, text::trim(o.skip(i + 1))))
            }
        },
        None => None,
    }
}

/// Splits an ssh `-o` option into key and value.
pub fn split_ssh_option(option: &str) -> (r: Option<(String, String)>)
    ensures
        match r {
            Some((k, v)) => option_parts(option@) == Some((k@, v@)),
            None => option_parts(option@) is None,
        },
{
    let v = text::chars_of(option);
    match tmuxrun::find_first(&v, '=') {
        Some(i) => {
            let before = text::string_of_range(&v, 0, i);
            let after = text::string_of_range(&v, i + 1, v.len());
            assert(before@ =~= v@.take(i as int));
            assert(after@ =~= v@.skip(i + 1));
            let k = text::trim_str(before.as_str());
            if k.as_str().is_empty() {
                return None;
            }
            let val = text::trim_str(after.as_str());
            Some((k, val))
        },
        None => None,
    }
}

/// The ASCII lowercase of a character.
pub open spec fn ascii_lower(c: char) -> int {
    let u = c as u32;
    if 65 <= u <= 90 {
        u + 32
    } else {
        u as int
    }
}

/// Whether an option key is `User`, ignoring ASCII case.
pub open spec fn is_user_key(k: Seq<char>) -> bool {
    &&& k.len() == 4
    &&& ascii_lower(k[0]) == 117
    &&& ascii_lower(k[1]) == 115
    &&& ascii_lower(k[2]) == 101
    &&& ascii_lower(k[3]) == 114
}

fn lower_u32(c: char) -> (r: u32)
    ensures
        r == ascii_lower(c),
{
    let u = c as u32;
    if 65 <= u && u <= 90 {
        u + 32
    } else {
        u
    }
}

fn user_key(k: &str) -> (r: bool)
    ensures
        r == is_user_key(k@),
{
    let v = text::chars_of(k);
    v.len() == 4 && lower_u32(v[0]) == 117 && lower_u32(v[1]) == 115 && lower_u32(v[2]) == 101 && lower_u32(
        v[3],
    ) == 114
}

/// The ssh flags that take the next argument as their value.
pub open spec fn value_flag(a: Seq<char>) -> bool {
    ||| a == "-b"@
    ||| a == "-c"@
    ||| a == "-D"@
    ||| a == "-E"@
    ||| a == "-e"@
    ||| a == "-F"@
    ||| a == "-I"@
    ||| a == "-i"@
    ||| a == "-J"@
    ||| a == "-L"@
    ||| a == "-l"@
    ||| a == "-m"@
    ||| a == "-O"@
    ||| a == "-o"@
    ||| a == "-p"@
    ||| a == "-Q"@
    ||| a == "-R"@
    ||| a == "-S"@
    ||| a == "-W"@
    ||| a == "-w"@
}

fn takes_value(a: &str) -> (r: bool)
    ensures
        r == value_flag(a@),
{
    text::str_eq(a, "-b") || text::str_eq(a, "-c") || text::str_eq(a, "-D") || text::str_eq(a, "-E")
        || text::str_eq(a, "-e") || text::str_eq(a, "-F") || text::str_eq(a, "-I") || text::str_eq(a, "-i")
        || text::str_eq(a, "-J") || text::str_eq(a, "-L") || text::str_eq(a, "-l") || text::str_eq(a, "-m")
        || text::str_eq(a, "-O") || text::str_eq(a, "-o") || text::str_eq(a, "-p") || text::str_eq(a, "-Q")
        || text::str_eq(a, "-R") || text::str_eq(a, "-S") || text::str_eq(a, "-W") || text::str_eq(a, "-w")
}

/// `s` with every leading copy of `p` removed, as `trim_start_matches` does.
pub open spec fn strip_all(s: Seq<char>, p: Seq<char>) -> Seq<char>
    decreases s.len(),
{
    if p.len() > 0 && text::has_prefix(s, p) {
        strip_all(s.skip(p.len() as int), p)
    } else {
        s
    }
}

fn strip_all_exec(v: &Vec<char>, p: &Vec<char>) -> (r: String)
    requires
        p.len() > 0,
    ensures
        r@ == strip_all(v@, p@),
{
    let mut i: usize = 0;
    assert(v@.skip(0) =~= v@);
    loop
        invariant
            i <= v.len(),
            p.len() > 0,
            strip_all(v@, p@) == strip_all(v@.skip(i as int), p@),
        decreases v.len() - i,
    {
        let rest = text::string_of_range(v, i, v.len());
        let rv = text::chars_of(rest.as_str());
        assert(rv@ =~= v@.skip(i as int));
        if !text::chars_has_prefix(&rv, p) {
            return rest;
        }
        proof {
            assert(v@.skip(i as int).skip(p.len() as int) =~= v@.skip(i + p.len()));
        }
        i += p.len();
    }
}

/// A credential target: the host and the user whose password applies.
#[derive(Debug)]
pub struct SshCredentialTarget {
    pub host: String,
    pub user: String,
}

/// The target of a destination, the user given by flags filling in a
/// destination without one.
pub open spec fn target_of(dest: Seq<char>, cli_user: Seq<char>) -> (Seq<char>, Seq<char>) {
    let (host, user) = dest_parts(dest);
    (host, if cli_user.len() > 0 && user.len() == 0 {
        cli_user
    } else {
        user
    })
}

/// Scanning the arguments of `ssh` (or `scp`) from `i` on, with the user
/// named by flags so far: `--` ends the scan, `-oUser=` and `-l` and
/// `-o User=` name the user, flags that take a value skip it, and the first
/// operand is the destination (for `scp`, the first with a `host:` part).
pub open spec fn scan_target(scp: bool, args: Seq<Seq<char>>, i: int, cli_user: Seq<char>) -> Option<(Seq<char>, Seq<char>)>
    decreases args.len() - i,
{
    if i < 0 || i >= args.len() {
        None
    } else {
        let a = args[i];
        if a == "--"@ {
            None
        } else if text::has_prefix(a, "-oUser="@) {
            scan_target(scp, args, i + 1, strip_all(a, "-oUser="@))
        } else if a.len() > 0 && a[0] == '-' {
            let has_next = i + 1 < args.len();
            let u1 = if a == "-l"@ && has_next {
                args[i + 1]
            } else {
                cli_user
            };
            let u2 = if a == "-o"@ && has_next {
                match option_parts(args[i + 1]) {
                    Some((k, v)) => if is_user_key(k) {
                        v
                    } else {
                        u1
                    },
                    None => u1,
                }
            } else {
                u1
            };
            let step: int = if value_flag(a) && has_next {
                2
            } else {
                1
            };
            scan_target(scp, args, i + step, u2)
        } else if scp {
            match tmuxrun::find_char(a, ':') {
                Some(idx) => if idx > 0 {
                    Some(target_of(a.take(idx), cli_user))
                } else {
                    scan_target(scp, args, i + 1, cli_user)
                },
                None => scan_target(scp, args, i + 1, cli_user),
            }
        } else {
            Some(target_of(a, cli_user))
        }
    }
}

/// The host and user whose stored password an `ssh` or `scp` call with these
/// arguments needs, if any destination is found.
pub fn extract_ssh_credential_target(binary: &str, args: &Vec<String>) -> (r: Option<SshCredentialTarget>)
    ensures
        match r {
            Some(t) => scan_target(binary@ == "scp"@, strs(args@), 0, Seq::empty()) == Some((t.host@, t.user@)),
            None => scan_target(binary@ == "scp"@, strs(args@), 0, Seq::empty()) is None,
        },
{
    let scp = text::str_eq(binary, "scp");
    let ghost a = strs(args@);
    let prefix = text::chars_of("-oUser=");
    let mut cli_user = String::new();
    let mut i: usize = 0;
    while i < args.len()
        invariant
            i <= args.len(),
            a == strs(args@),
            scp == (binary@ == "scp"@),
            prefix@ == "-oUser="@,
            scan_target(scp, a, 0, Seq::empty()) == scan_target(scp, a, i as int, cli_user@),
        decreases args.len() - i,
    {
        let arg = args[i].as_str();
        assert(a[i as int] == arg@);
        let av = text::chars_of(arg);
        if text::str_eq(arg, "--") {
            return None;
        }
        if text::chars_has_prefix(&av, &prefix) {
            proof {
                reveal_strlit("-oUser=");
            }
            cli_user = strip_all_exec(&av, &prefix);
            i += 1;
            continue;
        }
        if av.len() > 0 && av[0] == '-' {
            let has_next = i + 1 < args.len();
            if text::str_eq(arg, "-l") && has_next {
                cli_user = args[i + 1].clone();
            }
            if text::str_eq(arg, "-o") && has_next {
                match split_ssh_option(args[i + 1].as_str()) {
                    Some((k, v)) => {
                        if user_key(k.as_str()) {
                            cli_user = v;
                        }
                    },
                    None => {},
                }
            }
            if takes_value(arg) && has_next {
                i += 2;
            } else {
                i += 1;
            }
            continue;
        }
        if scp {
            match tmuxrun::find_first(&av, ':') {
                Some(idx) => {
                    if idx > 0 {
                        let d = text::string_of_range(&av, 0, idx);
                        assert(d@ =~= av@.take(idx as int));
                        let (host, user) = host_and_user_from_destination(d.as_str());
                        let user = if !cli_user.as_str().is_empty() && user.as_str().is_empty() {
                            cli_user
                        } else {
                            user
                        };
                        return Some(SshCredentialTarget { host, user });
                    }
                },
                None => {},
            }
            i += 1;
            continue;
        }
        let (host, user) = host_and_user_from_destination(arg);
        let user = if !cli_user.as_str().is_empty() && user.as_str().is_empty() {
            cli_user
        } else {
            user
        };
        return Some(SshCredentialTarget { host, user });
    }
    None
}

/// Scanning from a later start of a longer argument list is scanning the
/// rest of it.
proof fn lemma_scan_shift(scp: bool, pre: Seq<Seq<char>>, rest: Seq<Seq<char>>, i: int, u: Seq<char>)
    requires
        0 <= i <= rest.len(),
    ensures
        scan_target(scp, pre + rest, pre.len() + i, u) == scan_target(scp, rest, i, u),
    decreases rest.len() - i,
{
    let all = pre + rest;
    if i < rest.len() {
        let a = rest[i];
        assert(all[pre.len() + i] == a);
        let has_next = i + 1 < rest.len();
        if has_next {
            assert(all[pre.len() + i + 1] == rest[i + 1]);
        }
        if a == "--"@ {
        } else if text::has_prefix(a, "-oUser="@) {
            lemma_scan_shift(scp, pre, rest, i + 1, strip_all(a, "-oUser="@));
        } else if a.len() > 0 && a[0] == '-' {
            let u1 = if a == "-l"@ && has_next {
                rest[i + 1]
            } else {
                u
            };
            let u2 = if a == "-o"@ && has_next {
                match option_parts(rest[i + 1]) {
                    Some((k, v)) => if is_user_key(k) {
                        v
                    } else {
                        u1
                    },
                    None => u1,
                }
            } else {
                u1
            };
            let step: int = if value_flag(a) && has_next {
                2
            } else {
                1
            };
            lemma_scan_shift(scp, pre, rest, i + step, u2);
        } else if scp {
            lemma_scan_shift(scp, pre, rest, i + 1, u);
        }
    }
}

/// Every ssh flag that takes a value consumes the argument after it: for
/// such a flag `f` (other than `-l`, which names the user), the target of
/// `f x rest...` is the target of `rest...`, whatever `x` is; and `-l x`
/// names the user `x` for what follows. So `-J bastion edge1` reaches
/// `edge1`, not the jump host.
pub proof fn lemma_value_flags_consume(
    scp: bool,
    f: Seq<char>,
    x: Seq<char>,
    rest: Seq<Seq<char>>,
    u: Seq<char>,
)
    ensures
        (
            f == "-b"@ || f == "-c"@ || f == "-D"@ || f == "-E"@ || f == "-e"@ || f == "-F"@ || f == "-I"@ || f == "-i"@ || f == "-J"@ || f == "-L"@ || f == "-m"@ || f == "-O"@ || f == "-o"@ || f == "-p"@ || f == "-Q"@ || f == "-R"@ || f == "-S"@ || f == "-W"@ || f == "-w"@
        ) ==> scan_target(scp, seq![f, x] + rest, 0, u) == scan_target(
            scp,
            rest,
            0,
            match option_parts(x) {
                Some((k, v)) => if f == "-o"@ && is_user_key(k) {
                    v
                } else {
                    u
                },
                None => u,
            },
        ),
        f == "-l"@ ==> scan_target(scp, seq!["-l"@, x] + rest, 0, u) == scan_target(scp, rest, 0, x),
{
    reveal_strlit("-b");
    reveal_strlit("-c");
    reveal_strlit("-D");
    reveal_strlit("-E");
    reveal_strlit("-e");
    reveal_strlit("-F");
    reveal_strlit("-I");
    reveal_strlit("-i");
    reveal_strlit("-J");
    reveal_strlit("-L");
    reveal_strlit("-m");
    reveal_strlit("-O");
    reveal_strlit("-o");
    reveal_strlit("-p");
    reveal_strlit("-Q");
    reveal_strlit("-R");
    reveal_strlit("-S");
    reveal_strlit("-W");
    reveal_strlit("-w");
    reveal_strlit("-l");
    reveal_strlit("-oUser=");
    let pre = seq![f, x];
    let all = pre + rest;
    assert(all[0] == f);
    assert(all[1] == x);
    lemma_scan_shift(scp, pre, rest, 0, u);
    lemma_scan_shift(scp, pre, rest, 0, x);
    match option_parts(x) {
        Some((k, v)) => {
            lemma_scan_shift(scp, pre, rest, 0, v);
        },
        None => {},
    }
    assert(pre.len() + 0 == 2);
    assert(all.len() > 1);
    if f == "-b"@ || f == "-c"@ || f == "-D"@ || f == "-E"@ || f == "-e"@ || f == "-F"@ || f == "-I"@ || f == "-i"@ || f == "-J"@ || f == "-L"@ || f == "-m"@ || f == "-O"@ || f == "-o"@ || f == "-p"@ || f == "-Q"@ || f == "-R"@ || f == "-S"@ || f == "-W"@ || f == "-w"@ || f == "-l"@ {
        assert(f.len() == 2 && f[0] == '-');
        assert(!text::has_prefix(f, "-oUser="@));
        assert(f != "--"@) by {
            reveal_strlit("--");
            if f == "--"@ {
                assert(f[1] == '-');
            }
        }
        assert(value_flag(f));
        assert(f == "-l"@ <==> f[1] == 'l');
        let u1 = if f == "-l"@ {
            x
        } else {
            u
        };
        let u2 = if f == "-o"@ {
            match option_parts(x) {
                Some((k, v)) => if is_user_key(k) {
                    v
                } else {
                    u1
                },
                None => u1,
            }
        } else {
            u1
        };
        assert(scan_target(scp, all, 0, u) == scan_target(scp, all, 2, u2));
        lemma_scan_shift(scp, pre, rest, 0, u2);
        if f == "-l"@ {
            reveal_strlit("-o");
            assert(f != "-o"@) by {
                assert(f[1] != "-o"@[1]);
            }
        }
    }
}

/// An ssh call reaches its first operand: for `user@host` (`host` without
/// `@`) the host after the last `@` and the user before it, the user named
/// by flags (`u`) filling in only for an empty user; a destination without
/// `@` is the host itself, with the user named by flags.
pub proof fn lemma_destination_target(user: Seq<char>, host: Seq<char>, rest: Seq<Seq<char>>, u: Seq<char>)
    requires
        !host.contains('@'),
        user.len() > 0 ==> user[0] != '-',
    ensures
        scan_target(false, seq![user + seq!['@'] + host] + rest, 0, u) == Some(
            (host, if u.len() > 0 && user.len() == 0 {
                u
            } else {
                user
            }),
        ),
        (host.len() > 0 && host[0] != '-') ==> scan_target(false, seq![host] + rest, 0, u) == Some((host, u)),
{
    reveal_strlit("--");
    reveal_strlit("-oUser=");
    let d = user + seq!['@'] + host;
    let all = seq![d] + rest;
    assert(all[0] == d);
    let n = user.len() as int;
    assert(d[n] == '@');
    assert(d[0] != '-');
    assert(d != "--"@) by {
        if d == "--"@ {
            assert(d[0] == '-');
        }
    }
    assert(!text::has_prefix(d, "-oUser="@)) by {
        if text::has_prefix(d, "-oUser="@) {
            assert(d.subrange(0, 7)[0] == d[0]);
        }
    }
    let k = choose|i: int| 0 <= i < d.len() && d[i] == '@' && forall|j: int| i < j < d.len() ==> d[j] != '@';
    assert forall|j: int| n < j < d.len() implies d[j] != '@' by {
        assert(d[j] == host[j - n - 1]);
    }
    assert(k == n) by {
        if k > n {
            assert(d[k] == host[k - n - 1]);
        } else if k < n {
        }
    }
    assert(d.skip(n + 1) =~= host);
    assert(d.take(n) =~= user);
    if host.len() > 0 && host[0] != '-' {
        let all2 = seq![host] + rest;
        assert(all2[0] == host);
        assert(host != "--"@) by {
            if host == "--"@ {
                assert(host[0] == '-');
            }
        }
        assert(!text::has_prefix(host, "-oUser="@)) by {
            if text::has_prefix(host, "-oUser="@) {
                assert(host.subrange(0, 7)[0] == host[0]);
            }
        }
        assert(!(exists|i: int| 0 <= i < host.len() && host[i] == '@'));
    }
}

/// A character that ends the user part of a prompt when read backwards
/// from the `@`: whitespace or `(`.
pub open spec fn user_delim(c: char) -> bool {
    text::is_ws(c) || c == '('
}

/// Where the user part before the `@` at `at` begins.
pub open spec fn user_start(p: Seq<char>, at: int) -> int
    decreases at,
{
    if at <= 0 || user_delim(p[at - 1]) {
        if at <= 0 {
            0
        } else {
            at
        }
    } else {
        user_start(p, at - 1)
    }
}

/// A character that ends an unbracketed host in a prompt: `'`, `:`, `)` or
/// whitespace.
pub open spec fn host_delim(c: char) -> bool {
    c == '\'' || c == ':' || c == ')' || text::is_ws(c)
}

/// The length of the host at the start of `s`.
pub open spec fn host_len(s: Seq<char>) -> nat
    decreases s.len(),
{
    if s.len() > 0 && !host_delim(s[0]) {
        1 + host_len(s.drop_first())
    } else {
        0
    }
}

/// The host at the start of the text after the `@` of a prompt: the text
/// inside brackets, or the run up to `'`, `:`, `)` or whitespace; `None` when
/// empty.
pub open spec fn prompt_host_of(after: Seq<char>) -> Option<Seq<char>> {
    if after.len() > 0 && after[0] == '[' {
        match tmuxrun::find_char(after, ']') {
            Some(close) => if close > 1 {
                Some(after.subrange(1, close))
            } else {
                None
            },
            None => None,
        }
    } else {
        let n = host_len(after);
        if n > 0 {
            Some(after.take(n as int))
        } else {
            None
        }
    }
}

/// The user and host an ssh password prompt asks about, as in
/// `alice@bastion's password:`, `bob@jump: Password:` or
/// `root@[10.0.0.10]'s password:`: the user runs back from the first `@` to
/// whitespace or `(`, the host is read by `prompt_host_of` after the `@`.
/// `None` when there is no `@` or no host.
pub open spec fn prompt_target(p: Seq<char>) -> Option<(Seq<char>, Seq<char>)> {
    match tmuxrun::find_char(p, '@') {
        None => None,
        Some(at) => match prompt_host_of(p.skip(at + 1)) {
            Some(host) => Some((host, p.subrange(user_start(p, at), at))),
            None => None,
        },
    }
}

proof fn lemma_host_len(s: Seq<char>, k: int)
    requires
        0 <= k <= s.len(),
        forall|i: int| 0 <= i < k ==> !host_delim(#[trigger] s[i]),
        k == s.len() || host_delim(s[k]),
    ensures
        host_len(s) == k,
    decreases k,
{
    if k > 0 {
        let t = s.drop_first();
        assert(!host_delim(s[0]));
        assert forall|i: int| 0 <= i < k - 1 implies !host_delim(#[trigger] t[i]) by {
            assert(t[i] == s[i + 1]);
        }
        if k < s.len() {
            assert(t[k - 1] == s[k]);
        }
        lemma_host_len(t, k - 1);
    }
}

fn prompt_host(av: &Vec<char>) -> (r: Option<String>)
    ensures
        paths_opt(r) == prompt_host_of(av@),
{
    if av.len() > 0 && av[0] == '[' {
        match tmuxrun::find_first(av, ']') {
            Some(close) => {
                if close > 1 {
                    return Some(text::string_of_range(av, 1, close));
                }
                return None;
            },
            None => {
                return None;
            },
        }
    }
    let mut n: usize = 0;
    while n < av.len() && !(av[n] == '\'' || av[n] == ':' || av[n] == ')' || text::is_whitespace(av[n]))
        invariant
            n <= av.len(),
            forall|i: int| 0 <= i < n ==> !host_delim(#[trigger] av@[i]),
        decreases av.len() - n,
    {
        n += 1;
    }
    proof {
        lemma_host_len(av@, n as int);
    }
    if n == 0 {
        return None;
    }
    let host = text::string_of_range(av, 0, n);
    assert(host@ =~= av@.take(n as int));
    Some(host)
}

/// An optional string by view.
pub open spec fn paths_opt(o: Option<String>) -> Option<Seq<char>> {
    crate::paths::opt_view(o)
}

fn user_begin(v: &Vec<char>, at: usize) -> (r: usize)
    requires
        at < v.len(),
    ensures
        r as int == user_start(v@, at as int),
        r <= at,
{
    let mut s = at;
    while s > 0 && !(text::is_whitespace(v[s - 1]) || v[s - 1] == '(')
        invariant
            s <= at < v.len(),
            user_start(v@, at as int) == user_start(v@, s as int),
        decreases s,
    {
        s -= 1;
    }
    s
}

/// Reads the target of an ssh password prompt.
pub fn parse_askpass_prompt_target(prompt: &str) -> (r: Option<SshCredentialTarget>)
    ensures
        match r {
            Some(t) => prompt_target(prompt@) == Some((t.host@, t.user@)),
            None => prompt_target(prompt@) is None,
        },
{
    let v = text::chars_of(prompt);
    let at = match tmuxrun::find_first(&v, '@') {
        Some(i) => i,
        None => {
            return None;
        },
    };
    let s = user_begin(&v, at);
    let after = text::string_of_range(&v, at + 1, v.len());
    let av = text::chars_of(after.as_str());
    assert(av@ =~= v@.skip(at + 1));
    match prompt_host(&av) {
        Some(host) => {
            let user = text::string_of_range(&v, s, at);
            Some(SshCredentialTarget { host, user })
        },
        None => None,
    }
}

// ---------------------------------------------------------------- credentials

/// The list with later repeats of an item left out.
pub open spec fn first_occurrences(s: Seq<Seq<char>>) -> Seq<Seq<char>>
    decreases s.len(),
{
    if s.len() == 0 {
        Seq::empty()
    } else {
        let prev = first_occurrences(s.drop_last());
        if s.drop_last().contains(s.last()) {
            prev
        } else {
            prev.push(s.last())
        }
    }
}

proof fn lemma_first_occurrences_contains(s: Seq<Seq<char>>, x: Seq<char>)
    ensures
        first_occurrences(s).contains(x) <==> s.contains(x),
    decreases s.len(),
{
    if s.len() > 0 {
        lemma_first_occurrences_contains(s.drop_last(), x);
        let prev = first_occurrences(s.drop_last());
        if s.contains(x) && !s.drop_last().contains(x) {
            let k = choose|k: int| 0 <= k < s.len() && s[k] == x;
            if k < s.len() - 1 {
                assert(s.drop_last()[k] == x);
            }
        }
        if s.drop_last().contains(x) {
            let k = choose|k: int| 0 <= k < s.drop_last().len() && s.drop_last()[k] == x;
            assert(s[k] == x);
        }
        if !s.drop_last().contains(s.last()) {
            assert(prev.push(s.last()).last() == s.last());
            if prev.push(s.last()).contains(x) && x != s.last() {
                let k = choose|k: int| 0 <= k < prev.push(s.last()).len() && prev.push(s.last())[k] == x;
                assert(prev[k] == x);
            }
            if prev.contains(x) {
                let k = choose|k: int| 0 <= k < prev.len() && prev[k] == x;
                assert(prev.push(s.last())[k] == x);
            }
        }
        if x == s.last() {
            assert(s[s.len() - 1] == x);
        }
    }
}

/// The users to try, in order, when looking for a stored password: the user
/// given, the one configured for the host, then no user, each once.
pub open spec fn user_candidates(given: Seq<char>, from_config: Option<Seq<char>>) -> Seq<Seq<char>> {
    let a = if text::trim(given).len() > 0 {
        seq![text::trim(given)]
    } else {
        Seq::empty()
    };
    let b = match from_config {
        Some(u) => if text::trim(u).len() > 0 {
            seq![text::trim(u)]
        } else {
            Seq::empty()
        },
        None => Seq::empty(),
    };
    first_occurrences(a + b + seq![Seq::<char>::empty()])
}

/// The users to try when looking for a stored password.
pub fn credential_user_candidates(given: &str, from_config: Option<&str>) -> (r: Vec<String>)
    ensures
        strs(r@) == user_candidates(given@, tmuxrun::sv(from_config)),
{
    let mut raw: Vec<String> = Vec::new();
    let g = text::trim_str(given);
    if !g.as_str().is_empty() {
        raw.push(g);
    }
    match from_config {
        Some(u) => {
            let t = text::trim_str(u);
            if !t.as_str().is_empty() {
                raw.push(t);
            }
        },
        None => {},
    }
    raw.push(String::new());
    proof {
        let a = if text::trim(given@).len() > 0 {
            seq![text::trim(given@)]
        } else {
            Seq::<Seq<char>>::empty()
        };
        let b = match tmuxrun::sv(from_config) {
            Some(u) => if text::trim(u).len() > 0 {
                seq![text::trim(u)]
            } else {
                Seq::<Seq<char>>::empty()
            },
            None => Seq::<Seq<char>>::empty(),
        };
        assert(strs(raw@) =~= a + b + seq![Seq::<char>::empty()]);
    }
    let mut out: Vec<String> = Vec::new();
    let mut i: usize = 0;
    assert(strs(raw@).take(0) =~= Seq::<Seq<char>>::empty());
    assert(strs(out@) =~= Seq::<Seq<char>>::empty());
    while i < raw.len()
        invariant
            i <= raw.len(),
            strs(out@) == first_occurrences(strs(raw@).take(i as int)),
        decreases raw.len() - i,
    {
        let ghost pre = strs(raw@).take(i as int);
        let ghost t = strs(raw@).take(i + 1);
        proof {
            assert(t.drop_last() =~= pre);
            assert(t.last() == raw@[i as int]@);
        }
        let mut seen = false;
        let mut j: usize = 0;
        while j < out.len()
            invariant
                j <= out.len(),
                i < raw.len(),
                seen <==> exists|k: int| 0 <= k < j && out@[k]@ == raw@[i as int]@,
            decreases out.len() - j,
        {
            if text::str_eq(out[j].as_str(), raw[i].as_str()) {
                seen = true;
            }
            j += 1;
        }
        proof {
            lemma_first_occurrences_contains(pre, raw@[i as int]@);
            if seen {
                let k = choose|k: int| 0 <= k < out.len() && out@[k]@ == raw@[i as int]@;
                assert(strs(out@)[k] == raw@[i as int]@);
            } else {
                if strs(out@).contains(raw@[i as int]@) {
                    let k = choose|k: int| 0 <= k < strs(out@).len() && strs(out@)[k] == raw@[i as int]@;
                    assert(out@[k]@ == raw@[i as int]@);
                }
            }
        }
        if !seen {
            let c = raw[i].clone();
            proof {
                assert(strs(out@.push(c)) =~= strs(out@).push(c@));
            }
            out.push(c);
        }
        i += 1;
    }
    assert(strs(raw@).take(raw.len() as int) =~= strs(raw@));
    out
}

/// The arguments of this program's own credential command:
/// `cred <action> --host <host> --kind <kind> [--user <user>]`, trimmed.
pub open spec fn credential_args_of(action: Seq<char>, host: Seq<char>, user: Seq<char>, kind: Seq<char>) -> Seq<Seq<char>> {
    seq!["cred"@, action, "--host"@, text::trim(host), "--kind"@, text::trim(kind)] + if text::trim(user).len()
        > 0 {
        seq!["--user"@, text::trim(user)]
    } else {
        Seq::empty()
    }
}

/// The arguments that run this program's credential command.
pub fn credential_args(action: &str, host: &str, user: &str, kind: &str) -> (r: Vec<String>)
    ensures
        strs(r@) == credential_args_of(action@, host@, user@, kind@),
{
    let mut r = vec![
        String::from_str("cred"),
        text::copy_str(action),
        String::from_str("--host"),
        text::trim_str(host),
        String::from_str("--kind"),
        text::trim_str(kind),
    ];
    let u = text::trim_str(user);
    if !u.as_str().is_empty() {
        r.push(String::from_str("--user"));
        r.push(u);
    }
    assert(strs(r@) =~= credential_args_of(action@, host@, user@, kind@));
    r
}

/// The askpass script: it runs this program (at `exe`) to print the stored
/// password of `$TSSM_HOST` for `$TSSM_USER`.
pub open spec fn askpass_script_of(exe: Seq<char>) -> Seq<char> {
    "#!/usr/bin/env bash\nexec "@ + tmuxrun::quoted(exe)
        + " __askpass --host \"$TSSM_HOST\" --user \"$TSSM_USER\" --kind password\n"@
}

/// The text of the askpass script for the program at `exe`.
pub fn askpass_script_content(exe: &str) -> (r: String)
    ensures
        r@ == askpass_script_of(exe@),
{
    let mut r = String::from_str("#!/usr/bin/env bash\nexec ");
    let q = tmuxrun::shell_quote(exe);
    text::push_str(&mut r, q.as_str());
    text::push_str(&mut r, " __askpass --host \"$TSSM_HOST\" --user \"$TSSM_USER\" --kind password\n");
    r
}

/// The ssh options that make it ask for a password through askpass.
pub open spec fn askpass_options() -> Seq<Seq<char>> {
    seq!["-o"@, "PubkeyAuthentication=no"@, "-o"@, "PreferredAuthentications=keyboard-interactive,password"@]
}

/// The ssh arguments with the askpass options in front.
pub fn askpass_ssh_args(args: &Vec<String>) -> (r: Vec<String>)
    ensures
        strs(r@) == askpass_options() + strs(args@),
{
    let mut r = vec![
        String::from_str("-o"),
        String::from_str("PubkeyAuthentication=no"),
        String::from_str("-o"),
        String::from_str("PreferredAuthentications=keyboard-interactive,password"),
    ];
    let ghost r0 = strs(r@);
    assert(r0 =~= askpass_options());
    let mut i: usize = 0;
    while i < args.len()
        invariant
            i <= args.len(),
            r0 == askpass_options(),
            strs(r@) == r0 + strs(args@).take(i as int),
        decreases args.len() - i,
    {
        let a = args[i].clone();
        proof {
            assert(strs(r@.push(a)) =~= strs(r@).push(a@));
            assert(strs(args@).take(i + 1) =~= strs(args@).take(i as int).push(args@[i as int]@));
        }
        r.push(a);
        i += 1;
    }
    assert(strs(args@).take(args.len() as int) =~= strs(args@));
    r
}

/// The environment that hands ssh the askpass script for `host` and `user`.
pub open spec fn askpass_env_of(host: Seq<char>, user: Seq<char>, script: Seq<char>) -> Seq<(Seq<char>, Seq<char>)> {
    seq![
        ("TSSM_HOST"@, host),
        ("TSSM_USER"@, user),
        ("SSH_ASKPASS"@, script),
        ("SSH_ASKPASS_REQUIRE"@, "force"@),
        ("DISPLAY"@, "1"@),
    ]
}

/// The environment variables to set for an askpass ssh call.
pub fn askpass_env(host: &str, user: &str, script: &str) -> (r: Vec<(String, String)>)
    ensures
        crate::paths::env_view(r@) == askpass_env_of(host@, user@, script@),
{
    let r = vec![
        (String::from_str("TSSM_HOST"), text::copy_str(host)),
        (String::from_str("TSSM_USER"), text::copy_str(user)),
        (String::from_str("SSH_ASKPASS"), text::copy_str(script)),
        (String::from_str("SSH_ASKPASS_REQUIRE"), String::from_str("force")),
        (String::from_str("DISPLAY"), String::from_str("1")),
    ];
    assert(crate::paths::env_view(r@) =~= askpass_env_of(host@, user@, script@));
    r
}

// ---------------------------------------------------------------- split connect

/// How `connect --split-count` opens its sessions.
#[derive(Debug)]
pub enum SplitPlan {
    /// This many new windows.
    Windows(usize),
    /// One tiled window of panes, each to one of these aliases, in this layout.
    Tiled(Vec<String>, String),
}

/// Why a split connect was refused.
#[derive(Debug)]
pub enum SplitError {
    NotInTmux,
    BadMode,
}

impl SplitError {
    /// The error's message.
    pub fn message(&self) -> (r: String)
        ensures
            match self {
                SplitError::NotInTmux => r@ == "split-count requires running inside tmux"@,
                SplitError::BadMode => r@ == "split-mode must be one of: window, v, h"@,
            },
    {
        match self {
            SplitError::NotInTmux => String::from_str("split-count requires running inside tmux"),
            SplitError::BadMode => String::from_str("split-mode must be one of: window, v, h"),
        }
    }
}

/// The split mode: trimmed, lowercased, `window` when blank.
pub open spec fn split_mode_of(mode: Seq<char>) -> Seq<char> {
    let m = text::lowercase(text::trim(mode));
    if m.len() == 0 {
        "window"@
    } else {
        m
    }
}

/// The plan for a split mode given already trimmed and lowercased (`mode`):
/// `count` new windows (none for `count` below one) for `window` or an empty
/// mode, a tiled window of `count` panes for `v` or `h` in the layout given
/// (`tiled` when blank); any other mode is an error.
pub fn split_plan_for(alias: &str, count: i32, mode: &str, layout: &str) -> (r: Result<SplitPlan, SplitError>)
    ensures
        match r {
            Ok(SplitPlan::Windows(n)) => (mode@.len() == 0 || mode@ == "window"@) && n == (if count > 0 {
                count as int
            } else {
                0
            }),
            Ok(SplitPlan::Tiled(aliases, lay)) => (mode@ == "v"@ || mode@ == "h"@) && mode@.len() > 0
                && aliases.len() == (if count > 0 {
                count as int
            } else {
                0
            }) && (forall|i: int| 0 <= i < aliases.len() ==> (#[trigger] aliases@[i])@ == alias@) && lay@ == (
            if text::trim(layout@).len() == 0 {
                "tiled"@
            } else {
                text::trim(layout@)
            }),
            Err(e) => e is BadMode && mode@.len() > 0 && mode@ != "window"@ && mode@ != "v"@ && mode@ != "h"@,
        },
{
    let n: usize = if count > 0 {
        count as usize
    } else {
        0
    };
    if mode.is_empty() || text::str_eq(mode, "window") {
        return Ok(SplitPlan::Windows(n));
    }
    if text::str_eq(mode, "v") || text::str_eq(mode, "h") {
        let mut aliases: Vec<String> = Vec::new();
        let mut i: usize = 0;
        while i < n
            invariant
                i <= n,
                aliases.len() == i,
                forall|k: int| 0 <= k < i ==> (#[trigger] aliases@[k])@ == alias@,
            decreases n - i,
        {
            aliases.push(text::copy_str(alias));
            i += 1;
        }
        let lt = text::trim_str(layout);
        let lay = if lt.as_str().is_empty() {
            String::from_str("tiled")
        } else {
            lt
        };
        proof {
            reveal_strlit("v");
            reveal_strlit("h");
        }
        return Ok(SplitPlan::Tiled(aliases, lay));
    }
    Err(SplitError::BadMode)
}

/// Plans opening `count` sessions to `alias` for `connect --split-count`:
/// outside tmux this is an error; otherwise the mode, trimmed and
/// lowercased, decides as `split_plan_for` says.
pub fn split_plan(inside_tmux: bool, alias: &str, count: i32, mode: &str, layout: &str) -> (r: Result<SplitPlan, SplitError>)
    ensures
        !inside_tmux ==> r matches Err(SplitError::NotInTmux),
        inside_tmux ==> match r {
            Ok(SplitPlan::Windows(n)) => split_mode_of(mode@) == "window"@ && n == (if count > 0 {
                count as int
            } else {
                0
            }),
            Ok(SplitPlan::Tiled(aliases, lay)) => (split_mode_of(mode@) == "v"@ || split_mode_of(mode@) == "h"@)
                && aliases.len() == (if count > 0 {
                count as int
            } else {
                0
            }) && (forall|i: int| 0 <= i < aliases.len() ==> (#[trigger] aliases@[i])@ == alias@) && lay@ == (
            if text::trim(layout@).len() == 0 {
                "tiled"@
            } else {
                text::trim(layout@)
            }),
            Err(e) => e is BadMode && split_mode_of(mode@) != "window"@ && split_mode_of(mode@) != "v"@
                && split_mode_of(mode@) != "h"@,
        },
{
    if !inside_tmux {
        return Err(SplitError::NotInTmux);
    }
    let t = text::trim_str(mode);
    let m = text::to_lowercase(t.as_str());
    let r = split_plan_for(alias, count, m.as_str(), layout);
    proof {
        reveal_strlit("window");
    }
    r
}

} // verus!
