//! The shell and tmux commands that open ssh sessions in panes and windows.
//!
//! Everything here computes command text and argument lists; running them
//! is left to the caller.
use vstd::prelude::*;

use crate::paths;
use crate::text;

verus! {

// ---------------------------------------------------------------- quoting

/// The body of a single-quoted word: each `'` closes the quotes, adds a
/// double-quoted `'`, and reopens them.
pub open spec fn quote_body(s: Seq<char>) -> Seq<char>
    decreases s.len(),
{
    if s.len() == 0 {
        Seq::empty()
    } else {
        (if s[0] == '\'' {
            "'\"'\"'"@
        } else {
            seq![s[0]]
        }) + quote_body(s.drop_first())
    }
}

/// `s` as one POSIX shell word: `''` when empty, else single-quoted.
pub open spec fn quoted(s: Seq<char>) -> Seq<char> {
    if s.len() == 0 {
        "''"@
    } else {
        seq!['\''] + quote_body(s) + seq!['\'']
    }
}

/// Quotes `s` as one shell word.
pub fn shell_quote(s: &str) -> (r: String)
    ensures
        r@ == quoted(s@),
{
    let v = text::chars_of(s);
    if v.len() == 0 {
        return String::from_str("''");
    }
    let mut out = String::new();
    out.push('\'');
    let mut i: usize = 0;
    assert(v@.skip(0) =~= v@);
    while i < v.len()
        invariant
            i <= v.len(),
            out@ + quote_body(v@.skip(i as int)) + seq!['\''] == quoted(v@),
            v@ == s@,
            v@.len() > 0,
        decreases v.len() - i,
    {
        let ghost o0 = out@;
        proof {
            let t = v@.skip(i as int);
            assert(t[0] == v@[i as int]);
            assert(t.drop_first() =~= v@.skip(i + 1));
        }
        if v[i] == '\'' {
            text::push_str(&mut out, "'\"'\"'");
        } else {
            out.push(v[i]);
        }
        proof {
            let t = v@.skip(i as int);
            assert(out@ + quote_body(v@.skip(i + 1)) + seq!['\''] =~= o0 + quote_body(t) + seq!['\'']);
        }
        i += 1;
    }
    out.push('\'');
    proof {
        assert(v@.skip(v.len() as int) =~= Seq::<char>::empty());
        assert(out@ =~= quoted(v@));
    }
    out
}

/// What a POSIX shell reads from a word made of single-quoted and
/// double-quoted runs with no escapes or expansions inside them, starting
/// inside the quote `open` (if any): the text of the runs, or `None` when a
/// quote is left open or a character stands outside quotes.
pub open spec fn shell_word_value(w: Seq<char>, open: Option<char>) -> Option<Seq<char>>
    decreases w.len(),
{
    if w.len() == 0 {
        if open is None {
            Some(Seq::empty())
        } else {
            None
        }
    } else {
        match open {
            None => if w[0] == '\'' || w[0] == '"' {
                shell_word_value(w.drop_first(), Some(w[0]))
            } else {
                None
            },
            Some(q) => if w[0] == q {
                shell_word_value(w.drop_first(), None)
            } else {
                match shell_word_value(w.drop_first(), Some(q)) {
                    Some(r) => Some(seq![w[0]] + r),
                    None => None,
                }
            },
        }
    }
}

proof fn lemma_quote_body_value(s: Seq<char>, t: Seq<char>)
    ensures
        shell_word_value(quote_body(s) + seq!['\''] + t, Some('\'')) == match shell_word_value(t, None) {
            Some(r) => Some(s + r),
            None => None,
        },
    decreases s.len(),
{
    reveal_strlit("'\"'\"'");
    let w = quote_body(s) + seq!['\''] + t;
    if s.len() == 0 {
        assert(w =~= seq!['\''] + t);
        assert(w.drop_first() =~= t);
        assert(shell_word_value(w, Some('\'')) == shell_word_value(t, None));
        match shell_word_value(t, None) {
            Some(r) => {
                assert(s + r =~= r);
            },
            None => {},
        }
    } else {
        let rest = s.drop_first();
        lemma_quote_body_value(rest, t);
        let tail = quote_body(rest) + seq!['\''] + t;
        if s[0] == '\'' {
            let w1 = w.drop_first();
            let w2 = w1.drop_first();
            let w3 = w2.drop_first();
            let w4 = w3.drop_first();
            let w5 = w4.drop_first();
            assert(w =~= seq!['\'', '"', '\'', '"', '\''] + tail);
            assert(w1 =~= seq!['"', '\'', '"', '\''] + tail);
            assert(w2 =~= seq!['\'', '"', '\''] + tail);
            assert(w3 =~= seq!['"', '\''] + tail);
            assert(w4 =~= seq!['\''] + tail);
            assert(w5 =~= tail);
            assert(w[0] == '\'' && w1[0] == '"' && w2[0] == '\'' && w3[0] == '"' && w4[0] == '\'');
            assert(shell_word_value(w4, None) == shell_word_value(w5, Some('\'')));
            assert(shell_word_value(w3, Some('"')) == shell_word_value(w4, None));
            assert(shell_word_value(w2, Some('"')) == match shell_word_value(w3, Some('"')) {
                Some(r) => Some(seq!['\''] + r),
                None => None,
            });
            assert(shell_word_value(w1, None) == shell_word_value(w2, Some('"')));
            assert(shell_word_value(w, Some('\'')) == shell_word_value(w1, None));
            match shell_word_value(t, None) {
                Some(r) => {
                    assert(seq!['\''] + (rest + r) =~= s + r);
                },
                None => {},
            }
        } else {
            assert(w =~= seq![s[0]] + tail);
            assert(w.drop_first() =~= tail);
            assert(shell_word_value(w, Some('\'')) == match shell_word_value(tail, Some('\'')) {
                Some(r) => Some(seq![s[0]] + r),
                None => None,
            });
            match shell_word_value(t, None) {
                Some(r) => {
                    assert(seq![s[0]] + (rest + r) =~= s + r);
                },
                None => {},
            }
        }
    }
}

/// A quoted word reads back, in the shell, as exactly the string quoted.
pub proof fn lemma_quote_roundtrip(s: Seq<char>)
    ensures
        shell_word_value(quoted(s), None) == Some(s),
{
    reveal_strlit("''");
    if s.len() == 0 {
        let w = quoted(s);
        assert(w =~= seq!['\'', '\'']);
        assert(w.drop_first() =~= seq!['\'']);
        assert(w.drop_first().drop_first() =~= Seq::<char>::empty());
        assert(s =~= Seq::<char>::empty());
    } else {
        let w = quoted(s);
        lemma_quote_body_value(s, Seq::empty());
        assert(w.drop_first() =~= quote_body(s) + seq!['\''] + Seq::<char>::empty());
        assert(s + Seq::<char>::empty() =~= s);
    }
}

// ---------------------------------------------------------------- names

/// A character kept in log directory names: ASCII letters and digits, `-`,
/// `_` and `.`.
pub open spec fn safe_char(c: char) -> bool {
    let u = c as u32;
    ||| 48 <= u <= 57
    ||| 65 <= u <= 90
    ||| 97 <= u <= 122
    ||| u == 45
    ||| u == 95
    ||| u == 46
}

/// `s` with every other character replaced by `_`; `_` when `s` is empty.
pub open spec fn sanitized(s: Seq<char>) -> Seq<char> {
    if s.len() == 0 {
        seq!['_']
    } else {
        Seq::new(s.len(), |i: int| if safe_char(s[i]) { s[i] } else { '_' })
    }
}

/// A file-name-safe form of a host alias.
pub fn sanitize_alias(s: &str) -> (r: String)
    ensures
        r@ == sanitized(s@),
{
    let v = text::chars_of(s);
    if v.len() == 0 {
        proof {
            reveal_strlit("_");
            assert(s@.len() == 0);
        }
        return String::from_str("_");
    }
    let mut out = String::new();
    let mut i: usize = 0;
    while i < v.len()
        invariant
            i <= v.len(),
            v@ == s@,
            out@ == Seq::new(i as nat, |k: int| if safe_char(v@[k]) { v@[k] } else { '_' }),
        decreases v.len() - i,
    {
        let c = v[i];
        let u = c as u32;
        let keep = (48 <= u && u <= 57) || (65 <= u && u <= 90) || (97 <= u && u <= 122) || u == 45
            || u == 95 || u == 46;
        if keep {
            out.push(c);
        } else {
            out.push('_');
        }
        i += 1;
        assert(out@ =~= Seq::new(i as nat, |k: int| if safe_char(v@[k]) { v@[k] } else { '_' }));
    }
    out
}

/// Every character of a sanitized alias is safe, and it is never empty.
pub proof fn lemma_sanitized_safe(s: Seq<char>)
    ensures
        sanitized(s).len() > 0,
        forall|i: int| 0 <= i < sanitized(s).len() ==> safe_char(#[trigger] sanitized(s)[i]),
        s.len() > 0 ==> sanitized(s).len() == s.len(),
        (forall|i: int| 0 <= i < s.len() ==> safe_char(#[trigger] s[i])) && s.len() > 0 ==> sanitized(s)
            == s,
{
    if s.len() == 0 {
        assert(safe_char('_'));
    } else {
        assert(safe_char('_'));
        if forall|i: int| 0 <= i < s.len() ==> safe_char(#[trigger] s[i]) {
            assert(sanitized(s) =~= s);
        }
    }
}

// ---------------------------------------------------------------- environment

/// Whether a `TMUX` value says we run inside tmux: set and not blank.
pub open spec fn tmux_set(tmux: Option<Seq<char>>) -> bool {
    match tmux {
        Some(v) => text::trim(v).len() > 0,
        None => false,
    }
}

/// Whether we run inside tmux, given the `TMUX` variable.
pub fn in_tmux(tmux: Option<&str>) -> (r: bool)
    ensures
        r == tmux_set(
            match tmux {
                Some(v) => Some(v@),
                None => None,
            },
        ),
{
    match tmux {
        Some(v) => {
            let t = text::trim_chars(v);
            t.len() > 0
        },
        None => false,
    }
}

/// The index of the first `c` in `s`, if any.
pub open spec fn find_char(s: Seq<char>, c: char) -> Option<int> {
    if exists|i: int| 0 <= i < s.len() && s[i] == c {
        Some(choose|i: int| 0 <= i < s.len() && s[i] == c && forall|j: int| 0 <= j < i ==> s[j] != c)
    } else {
        None
    }
}

/// The index of the first `c` in `v`.
pub fn find_first(v: &Vec<char>, c: char) -> (r: Option<usize>)
    ensures
        match r {
            Some(i) => i < v@.len() && find_char(v@, c) == Some(i as int),
            None => find_char(v@, c) is None,
        },
{
    let mut i: usize = 0;
    while i < v.len()
        invariant
            i <= v.len(),
            forall|j: int| 0 <= j < i ==> v@[j] != c,
        decreases v.len() - i,
    {
        if v[i] == c {
            proof {
                let k = choose|k: int| 0 <= k < v@.len() && v@[k] == c && forall|j: int| 0 <= j < k ==> v@[j] != c;
                if k < i {
                } else if k > i {
                    assert(v@[i as int] == c);
                }
            }
            return Some(i);
        }
        i += 1;
    }
    None
}

/// The tmux server socket: the `TMUX` value, trimmed, up to its first comma.
pub open spec fn socket_of(tmux: Seq<char>) -> Seq<char> {
    let v = text::trim(tmux);
    match find_char(v, ',') {
        Some(i) => v.take(i),
        None => v,
    }
}

/// The tmux server socket named by the `TMUX` variable (empty when unset).
pub fn socket_path(tmux: Option<&str>) -> (r: String)
    ensures
        match tmux {
            Some(v) => r@ == socket_of(v@),
            None => r@.len() == 0,
        },
{
    match tmux {
        Some(t) => {
            let v = text::trim_chars(t);
            match find_first(&v, ',') {
                Some(i) => {
                    let r = text::string_of_range(&v, 0, i);
                    assert(r@ =~= v@.take(i as int));
                    r
                },
                None => text::string_of(&v),
            }
        },
        None => String::new(),
    }
}

/// The login shell: `SHELL` unless unset or blank, else `sh`.
pub open spec fn shell_of(shell: Option<Seq<char>>) -> Seq<char> {
    match shell {
        Some(s) => if text::trim(s).len() > 0 {
            s
        } else {
            "sh"@
        },
        None => "sh"@,
    }
}

/// The login shell, given the `SHELL` variable.
pub fn login_shell(shell: Option<&str>) -> (r: String)
    ensures
        r@ == shell_of(
            match shell {
                Some(s) => Some(s@),
                None => None,
            },
        ),
{
    match shell {
        Some(s) => {
            let t = text::trim_chars(s);
            if t.len() > 0 {
                text::copy_str(s)
            } else {
                String::from_str("sh")
            }
        },
        None => String::from_str("sh"),
    }
}

/// Whether a `TSSM_DISABLE_LOGGING` value turns logging off: `1`, `true`,
/// `yes` or `on`, in any case, around blanks.
pub open spec fn disables_logging(v: Seq<char>) -> bool {
    is_disabling_word(text::lowercase(text::trim(v)))
}

/// The lowercase words that turn logging off.
pub open spec fn is_disabling_word(k: Seq<char>) -> bool {
    k == "1"@ || k == "true"@ || k == "yes"@ || k == "on"@
}

/// Whether an already trimmed and lowercased value turns logging off.
pub fn disabling_word(k: &str) -> (r: bool)
    ensures
        r == is_disabling_word(k@),
{
    text::str_eq(k, "1") || text::str_eq(k, "true") || text::str_eq(k, "yes") || text::str_eq(k, "on")
}

/// Whether pane logging is off, given `TSSM_DISABLE_LOGGING`.
pub fn logging_disabled(v: Option<&str>) -> (r: bool)
    ensures
        match v {
            Some(s) => r == disables_logging(s@),
            None => !r,
        },
{
    match v {
        Some(s) => {
            let t = text::trim_str(s);
            let k = text::to_lowercase(t.as_str());
            disabling_word(k.as_str())
        },
        None => false,
    }
}

// ---------------------------------------------------------------- pane commands

/// The shell command that appends pane output to `log_path`.
pub open spec fn sink_of(log_path: Seq<char>) -> Seq<char> {
    "cat >> "@ + quoted(log_path) + " 2>/dev/null"@
}

/// The shell command that appends pane output to `log_path`.
pub fn pipe_sink(log_path: &str) -> (r: String)
    ensures
        r@ == sink_of(log_path@),
{
    let mut r = String::from_str("cat >> ");
    let q = shell_quote(log_path);
    text::push_str(&mut r, q.as_str());
    text::push_str(&mut r, " 2>/dev/null");
    r
}

/// Opens the pane's own output pipe to the log file (`-O` replaces a pipe
/// rather than toggling it).
pub open spec fn start_of(log_path: Seq<char>) -> Seq<char> {
    "tmux pipe-pane -O -t \"$TMUX_PANE\" "@ + quoted(sink_of(log_path)) + "; "@
}

/// The shell fragment that starts logging the pane to `log_path`.
pub fn pipe_start_cmd(log_path: &str) -> (r: String)
    ensures
        r@ == start_of(log_path@),
{
    let mut r = String::from_str("tmux pipe-pane -O -t \"$TMUX_PANE\" ");
    let sink = pipe_sink(log_path);
    let q = shell_quote(sink.as_str());
    text::push_str(&mut r, q.as_str());
    text::push_str(&mut r, "; ");
    r
}

/// Closes the pane's own output pipe.
pub open spec fn stop_text() -> Seq<char> {
    "tmux pipe-pane -t \"$TMUX_PANE\"; "@
}

/// The shell fragment that stops logging the pane.
pub fn pipe_stop_cmd() -> (r: String)
    ensures
        r@ == stop_text(),
{
    String::from_str("tmux pipe-pane -t \"$TMUX_PANE\"; ")
}

/// The fragments around the ssh call: logging opens before it and closes
/// after it when there is a log file, and both are empty otherwise.
pub open spec fn bracket_of(log_path: Option<Seq<char>>) -> (Seq<char>, Seq<char>) {
    match log_path {
        Some(p) => (start_of(p), stop_text()),
        None => (Seq::empty(), Seq::empty()),
    }
}

/// The logging fragments for a pane, given its log file (none when logging
/// is off or the file could not be made).
pub fn pipe_bracket(log_path: Option<&str>) -> (r: (String, String))
    ensures
        (r.0@, r.1@) == bracket_of(
            match log_path {
                Some(p) => Some(p@),
                None => None,
            },
        ),
{
    match log_path {
        Some(p) => (pipe_start_cmd(p), pipe_stop_cmd()),
        None => (String::new(), String::new()),
    }
}

/// The step that repairs the terminal after ssh: the program itself run
/// with `__reset`, when its path is known.
pub open spec fn reset_of(exe: Option<Seq<char>>) -> Seq<char> {
    match exe {
        Some(p) => quoted(p) + " __reset; "@,
        None => Seq::empty(),
    }
}

/// The terminal-repair step, given the program's own path.
pub fn reset_prefix(exe: Option<&str>) -> (r: String)
    ensures
        r@ == reset_of(
            match exe {
                Some(p) => Some(p@),
                None => None,
            },
        ),
{
    match exe {
        Some(p) => {
            let mut r = shell_quote(p);
            text::push_str(&mut r, " __reset; ");
            r
        },
        None => String::new(),
    }
}

/// What every pane command needs from the environment: the login shell that
/// replaces ssh when it exits, and the terminal-repair step.
#[derive(Debug)]
pub struct PaneEnv {
    pub shell: String,
    pub reset: String,
}

/// The pane command for `alias`: ssh (bracketed by logging), then the repair
/// step, then the login shell in its place.
pub open spec fn ssh_text(alias: Seq<char>, shell: Seq<char>, reset: Seq<char>, log: Option<Seq<char>>) -> Seq<char> {
    let (start, stop) = bracket_of(log);
    start + "ssh "@ + quoted(alias) + "; "@ + stop + reset + "exec "@ + quoted(shell) + " -l"@
}

/// The pane command that runs ssh to `alias`.
pub fn ssh_command(alias: &str, env: &PaneEnv, log_path: Option<&str>) -> (r: String)
    ensures
        r@ == ssh_text(
            alias@,
            env.shell@,
            env.reset@,
            match log_path {
                Some(p) => Some(p@),
                None => None,
            },
        ),
{
    let (start, stop) = pipe_bracket(log_path);
    let mut r = start;
    text::push_str(&mut r, "ssh ");
    let qa = shell_quote(alias);
    text::push_str(&mut r, qa.as_str());
    text::push_str(&mut r, "; ");
    text::push_str(&mut r, stop.as_str());
    text::push_str(&mut r, env.reset.as_str());
    text::push_str(&mut r, "exec ");
    let qs = shell_quote(env.shell.as_str());
    text::push_str(&mut r, qs.as_str());
    text::push_str(&mut r, " -l");
    r
}

/// The user configured for `alias`: the first pair naming it, else empty.
pub open spec fn user_for(host_users: Seq<(Seq<char>, Seq<char>)>, alias: Seq<char>) -> Seq<char>
    decreases host_users.len(),
{
    if host_users.len() == 0 {
        Seq::empty()
    } else if host_users[0].0 == alias {
        host_users[0].1
    } else {
        user_for(host_users.drop_first(), alias)
    }
}

/// Looks up the user configured for `alias`.
pub fn lookup_user(host_users: &Vec<(String, String)>, alias: &str) -> (r: String)
    ensures
        r@ == user_for(paths::env_view(host_users@), alias@),
{
    match paths::env_get(host_users, alias) {
        Some(u) => {
            proof {
                lemma_user_for_lookup(paths::env_view(host_users@), alias@);
            }
            u
        },
        None => {
            proof {
                lemma_user_for_lookup(paths::env_view(host_users@), alias@);
            }
            String::new()
        },
    }
}

proof fn lemma_user_for_lookup(s: Seq<(Seq<char>, Seq<char>)>, a: Seq<char>)
    ensures
        user_for(s, a) == match paths::env_lookup(s, a) {
            Some(u) => u,
            None => Seq::empty(),
        },
    decreases s.len(),
{
    if s.len() > 0 && s[0].0 != a {
        lemma_user_for_lookup(s.drop_first(), a);
    }
}

/// The pane command when a password is stored: ssh with key login off,
/// reading the password through the askpass script.
pub open spec fn askpass_ssh_text(
    alias: Seq<char>,
    user: Seq<char>,
    script: Seq<char>,
    shell: Seq<char>,
    reset: Seq<char>,
    log: Option<Seq<char>>,
) -> Seq<char> {
    let (start, stop) = bracket_of(log);
    "export TSSM_HOST="@ + quoted(alias) + " TSSM_USER="@ + quoted(user) + " SSH_ASKPASS="@ + quoted(script)
        + " SSH_ASKPASS_REQUIRE=force DISPLAY=1; "@ + start
        + "ssh -o PubkeyAuthentication=no -o PreferredAuthentications=keyboard-interactive,password "@
        + quoted(alias) + "; "@ + stop + reset + "exec "@ + quoted(shell) + " -l"@
}

/// With a log file every pane command, the askpass form included, is the
/// command without logging with the pane's output pipe opened right before
/// the ssh call and closed right after it: the command without logging splits
/// into what comes before the ssh call, the ssh call (`ssh ...; `) and what
/// follows, and the logged command puts `start_of(p)` before the ssh call and
/// `stop_text()` after it. The ssh call turns key login off exactly when a
/// password is used through the askpass script, and the login shell follows
/// the repair step.
pub proof fn lemma_logging_brackets_ssh(
    s: SessionView,
    alias: Seq<char>,
    has_credential: bool,
    shell: Seq<char>,
    reset: Seq<char>,
    p: Seq<char>,
) -> (parts: (Seq<char>, Seq<char>, Seq<char>))
    ensures
        pane_command(s, alias, has_credential, shell, reset, None) == parts.0 + parts.1 + parts.2,
        pane_command(s, alias, has_credential, shell, reset, Some(p)) == parts.0 + start_of(p) + parts.1
            + stop_text() + parts.2,
        text::has_prefix(parts.1, "ssh "@),
        parts.1 == (if s.askpass_script is Some && has_credential {
            "ssh -o PubkeyAuthentication=no -o PreferredAuthentications=keyboard-interactive,password "@
        } else {
            "ssh "@
        }) + quoted(alias) + "; "@,
        parts.2 == reset + "exec "@ + quoted(shell) + " -l"@,
{
    reveal_strlit("ssh ");
    reveal_strlit("; ");
    let tail = reset + "exec "@ + quoted(shell) + " -l"@;
    let e = Seq::<char>::empty();
    if s.askpass_script is Some && has_credential {
        let script = s.askpass_script->0;
        let user = user_for(s.host_users, alias);
        let pre = "export TSSM_HOST="@ + quoted(alias) + " TSSM_USER="@ + quoted(user) + " SSH_ASKPASS="@
            + quoted(script) + " SSH_ASKPASS_REQUIRE=force DISPLAY=1; "@;
        let lit = "ssh -o PubkeyAuthentication=no -o PreferredAuthentications=keyboard-interactive,password "@;
        reveal_strlit("ssh -o PubkeyAuthentication=no -o PreferredAuthentications=keyboard-interactive,password ");
        let mid = lit + quoted(alias) + "; "@;
        assert(pane_command(s, alias, has_credential, shell, reset, None) =~= pre + mid + tail);
        assert(pane_command(s, alias, has_credential, shell, reset, Some(p)) =~= pre + start_of(p) + mid
            + stop_text() + tail);
        assert(mid.subrange(0, 4) =~= "ssh "@);
        (pre, mid, tail)
    } else {
        let mid = "ssh "@ + quoted(alias) + "; "@;
        assert(pane_command(s, alias, has_credential, shell, reset, None) =~= e + mid + tail);
        assert(pane_command(s, alias, has_credential, shell, reset, Some(p)) =~= e + start_of(p) + mid
            + stop_text() + tail);
        assert(mid.subrange(0, 4) =~= "ssh "@);
        (e, mid, tail)
    }
}

/// How panes are opened: the askpass script, when there is one, and the
/// user configured for each alias.
#[derive(Debug)]
pub struct Session {
    pub askpass_script: Option<String>,
    pub host_users: Vec<(String, String)>,
}

/// A session, by view.
pub struct SessionView {
    pub askpass_script: Option<Seq<char>>,
    pub host_users: Seq<(Seq<char>, Seq<char>)>,
}

impl View for Session {
    type V = SessionView;

    open spec fn view(&self) -> SessionView {
        SessionView {
            askpass_script: paths::opt_view(self.askpass_script),
            host_users: paths::env_view(self.host_users@),
        }
    }
}

/// The pane command for `alias` in session `s`: the askpass form when the
/// session has a script and a password is stored for the alias.
pub open spec fn pane_command(
    s: SessionView,
    alias: Seq<char>,
    has_credential: bool,
    shell: Seq<char>,
    reset: Seq<char>,
    log: Option<Seq<char>>,
) -> Seq<char> {
    match s.askpass_script {
        Some(script) => if has_credential {
            askpass_ssh_text(alias, user_for(s.host_users, alias), script, shell, reset, log)
        } else {
            ssh_text(alias, shell, reset, log)
        },
        None => ssh_text(alias, shell, reset, log),
    }
}

/// A string option by view.
pub open spec fn sv(o: Option<&str>) -> Option<Seq<char>> {
    match o {
        Some(p) => Some(p@),
        None => None,
    }
}

/// A `tmux` argument list from literal and computed parts.
pub open spec fn strs(v: Seq<String>) -> Seq<Seq<char>> {
    v.map_values(|s: String| s@)
}

impl Default for Session {
    fn default() -> (r: Session)
        ensures
            r@.askpass_script is None,
            r@.host_users.len() == 0,
    {
        Session::new()
    }
}

impl Session {
    /// A session without askpass and without configured users.
    pub fn new() -> (r: Session)
        ensures
            r@.askpass_script is None,
            r@.host_users.len() == 0,
    {
        let r = Session { askpass_script: None, host_users: Vec::new() };
        assert(r@.host_users =~= Seq::<(Seq<char>, Seq<char>)>::empty());
        r
    }

    /// The command a pane runs to reach `alias`; `has_credential` tells
    /// whether a password is stored for it.
    pub fn ssh_command_string(&self, alias: &str, has_credential: bool, env: &PaneEnv, log_path: Option<&str>) -> (r: String)
        ensures
            r@ == pane_command(self@, alias@, has_credential, env.shell@, env.reset@, sv(log_path)),
    {
        match &self.askpass_script {
            Some(script) => {
                if has_credential {
                    let user = lookup_user(&self.host_users, alias);
                    let (start, stop) = pipe_bracket(log_path);
                    let mut r = String::from_str("export TSSM_HOST=");
                    let qa = shell_quote(alias);
                    text::push_str(&mut r, qa.as_str());
                    text::push_str(&mut r, " TSSM_USER=");
                    let qu = shell_quote(user.as_str());
                    text::push_str(&mut r, qu.as_str());
                    text::push_str(&mut r, " SSH_ASKPASS=");
                    let qp = shell_quote(script.as_str());
                    text::push_str(&mut r, qp.as_str());
                    text::push_str(&mut r, " SSH_ASKPASS_REQUIRE=force DISPLAY=1; ");
                    text::push_str(&mut r, start.as_str());
                    text::push_str(
                        &mut r,
                        "ssh -o PubkeyAuthentication=no -o PreferredAuthentications=keyboard-interactive,password ",
                    );
                    text::push_str(&mut r, qa.as_str());
                    text::push_str(&mut r, "; ");
                    text::push_str(&mut r, stop.as_str());
                    text::push_str(&mut r, env.reset.as_str());
                    text::push_str(&mut r, "exec ");
                    let qs = shell_quote(env.shell.as_str());
                    text::push_str(&mut r, qs.as_str());
                    text::push_str(&mut r, " -l");
                    r
                } else {
                    ssh_command(alias, env, log_path)
                }
            },
            None => ssh_command(alias, env, log_path),
        }
    }

    /// The `tmux` arguments that open `alias` in a new window named after it.
    pub fn new_window(&self, alias: &str, has_credential: bool, env: &PaneEnv, log_path: Option<&str>) -> (r: Vec<String>)
        ensures
            strs(r@) == seq![
                "new-window"@,
                "-n"@,
                alias@,
                env.shell@,
                "-lc"@,
                pane_command(self@, alias@, has_credential, env.shell@, env.reset@, sv(log_path)),
            ],
    {
        let cmd = self.ssh_command_string(alias, has_credential, env, log_path);
        let r = vec![
            String::from_str("new-window"),
            String::from_str("-n"),
            text::copy_str(alias),
            env.shell.clone(),
            String::from_str("-lc"),
            cmd,
        ];
        assert(strs(r@) =~= seq![
            "new-window"@,
            "-n"@,
            alias@,
            env.shell@,
            "-lc"@,
            pane_command(self@, alias@, has_credential, env.shell@, env.reset@, sv(log_path)),
        ]);
        r
    }

    /// The `tmux` arguments that split the current pane top/bottom for `alias`.
    pub fn split_vertical(&self, alias: &str, has_credential: bool, env: &PaneEnv, log_path: Option<&str>) -> (r: Vec<String>)
        ensures
            strs(r@) == seq![
                "split-window"@,
                "-v"@,
                "-c"@,
                "#{pane_current_path}"@,
                env.shell@,
                "-lc"@,
                pane_command(self@, alias@, has_credential, env.shell@, env.reset@, sv(log_path)),
            ],
    {
        let cmd = self.ssh_command_string(alias, has_credential, env, log_path);
        let r = vec![
            String::from_str("split-window"),
            String::from_str("-v"),
            String::from_str("-c"),
            String::from_str("#{pane_current_path}"),
            env.shell.clone(),
            String::from_str("-lc"),
            cmd,
        ];
        assert(strs(r@) =~= seq![
            "split-window"@,
            "-v"@,
            "-c"@,
            "#{pane_current_path}"@,
            env.shell@,
            "-lc"@,
            pane_command(self@, alias@, has_credential, env.shell@, env.reset@, sv(log_path)),
        ]);
        r
    }

    /// The `tmux` arguments that split the current pane side by side for
    /// `alias`.
    pub fn split_horizontal(&self, alias: &str, has_credential: bool, env: &PaneEnv, log_path: Option<&str>) -> (r: Vec<String>)
        ensures
            strs(r@) == seq![
                "split-window"@,
                "-h"@,
                "-c"@,
                "#{pane_current_path}"@,
                env.shell@,
                "-lc"@,
                pane_command(self@, alias@, has_credential, env.shell@, env.reset@, sv(log_path)),
            ],
    {
        let cmd = self.ssh_command_string(alias, has_credential, env, log_path);
        let r = vec![
            String::from_str("split-window"),
            String::from_str("-h"),
            String::from_str("-c"),
            String::from_str("#{pane_current_path}"),
            env.shell.clone(),
            String::from_str("-lc"),
            cmd,
        ];
        assert(strs(r@) =~= seq![
            "split-window"@,
            "-h"@,
            "-c"@,
            "#{pane_current_path}"@,
            env.shell@,
            "-lc"@,
            pane_command(self@, alias@, has_credential, env.shell@, env.reset@, sv(log_path)),
        ]);
        r
    }
}

/// The working directory for the origin pane: its recorded path when set,
/// else the pane's own current path.
pub open spec fn origin_cwd(origin_path: Seq<char>) -> Seq<char> {
    if text::trim(origin_path).len() == 0 {
        "#{pane_current_path}"@
    } else {
        text::trim(origin_path)
    }
}

/// The arguments of `respawn-pane` for the origin pane. Without a recorded
/// origin pane the current pane is respawned.
pub open spec fn respawn_args_of(origin_pane: Seq<char>, origin_path: Seq<char>, shell: Seq<char>, cmd: Seq<char>) -> Seq<Seq<char>> {
    if text::trim(origin_pane).len() == 0 {
        seq!["respawn-pane"@, "-k"@, "-c"@, "#{pane_current_path}"@, "--"@, shell, "-lc"@, cmd]
    } else {
        seq![
            "respawn-pane"@,
            "-t"@,
            text::trim(origin_pane),
            "-k"@,
            "-c"@,
            origin_cwd(origin_path),
            "--"@,
            shell,
            "-lc"@,
            cmd,
        ]
    }
}

/// Why a pane could not be opened.
#[derive(Debug)]
pub enum PaneError {
    /// The origin pane is a tmux pane, so it needs tmux.
    NotInTmux,
}

impl PaneError {
    /// The error's message.
    pub fn message(&self) -> (r: String)
        ensures
            r@ == "origin pane requires running inside tmux"@,
    {
        String::from_str("origin pane requires running inside tmux")
    }
}

impl Session {
    /// The `tmux` arguments that replace the origin pane (the pane the picker
    /// was started from, `RUSTASSHN_ORIGIN_PANE`, in its recorded directory
    /// `RUSTASSHN_ORIGIN_PATH`) with a session to `alias`. Outside tmux this
    /// is an error.
    pub fn respawn_origin_pane(
        &self,
        alias: &str,
        inside_tmux: bool,
        origin_pane: &str,
        origin_path: &str,
        has_credential: bool,
        env: &PaneEnv,
        log_path: Option<&str>,
    ) -> (r: Result<Vec<String>, PaneError>)
        ensures
            !inside_tmux <==> r is Err,
            r matches Ok(args) ==> strs(args@) == respawn_args_of(
                origin_pane@,
                origin_path@,
                env.shell@,
                pane_command(self@, alias@, has_credential, env.shell@, env.reset@, sv(log_path)),
            ),
    {
        if !inside_tmux {
            return Err(PaneError::NotInTmux);
        }
        let cmd = self.ssh_command_string(alias, has_credential, env, log_path);
        let pane = text::trim_str(origin_pane);
        if pane.as_str().is_empty() {
            let r = vec![
                String::from_str("respawn-pane"),
                String::from_str("-k"),
                String::from_str("-c"),
                String::from_str("#{pane_current_path}"),
                String::from_str("--"),
                env.shell.clone(),
                String::from_str("-lc"),
                cmd,
            ];
            assert(strs(r@) =~= respawn_args_of(origin_pane@, origin_path@, env.shell@, cmd@));
            Ok(r)
        } else {
            let p = text::trim_str(origin_path);
            let cwd = if p.as_str().is_empty() {
                String::from_str("#{pane_current_path}")
            } else {
                p
            };
            let r = vec![
                String::from_str("respawn-pane"),
                String::from_str("-t"),
                pane,
                String::from_str("-k"),
                String::from_str("-c"),
                cwd,
                String::from_str("--"),
                env.shell.clone(),
                String::from_str("-lc"),
                cmd,
            ];
            assert(strs(r@) =~= respawn_args_of(origin_pane@, origin_path@, env.shell@, cmd@));
            Ok(r)
        }
    }
}

/// The layout for tiled panes: the one asked for, `tiled` when blank.
pub open spec fn layout_of(layout: Seq<char>) -> Seq<char> {
    if text::trim(layout).len() == 0 {
        "tiled"@
    } else {
        layout
    }
}

/// Opening several sessions tiled in one new window: the `new-window`
/// arguments for the first alias (printing the new window's id), the pane
/// commands of the others, to split into that window one by one, and the
/// layout to apply after each split.
#[derive(Debug)]
pub struct TiledPlan {
    pub first: Vec<String>,
    pub splits: Vec<String>,
    pub layout: String,
}

/// What a pane needs that depends on its alias: whether a password is
/// stored for it, and its log file when logging is on.
#[derive(Debug)]
pub struct PaneInfo {
    pub has_credential: bool,
    pub log_path: Option<String>,
}

/// The pane command for the `i`-th alias of a tiled window.
pub open spec fn tiled_command(s: SessionView, aliases: Seq<String>, panes: Seq<PaneInfo>, env: PaneEnv, i: int) -> Seq<char> {
    pane_command(
        s,
        aliases[i]@,
        panes[i].has_credential,
        env.shell@,
        env.reset@,
        paths::opt_view(panes[i].log_path),
    )
}

impl Session {
    /// The plan for opening `aliases` tiled in a new window; nothing to do
    /// when there are none. `panes[i]` describes `aliases[i]`.
    pub fn tiled(&self, aliases: &Vec<String>, layout: &str, env: &PaneEnv, panes: &Vec<PaneInfo>) -> (r: Option<TiledPlan>)
        requires
            panes.len() == aliases.len(),
        ensures
            aliases.len() == 0 <==> r is None,
            r matches Some(p) ==> {
                &&& strs(p.first@) == seq![
                    "new-window"@,
                    "-P"@,
                    "-F"@,
                    "#{window_id}"@,
                    "-n"@,
                    "tiled"@,
                    env.shell@,
                    "-lc"@,
                    tiled_command(self@, aliases@, panes@, *env, 0),
                ]
                &&& p.splits.len() == aliases.len() - 1
                &&& forall|i: int| 0 <= i < p.splits.len() ==> (#[trigger] p.splits@[i])@ == tiled_command(
                    self@,
                    aliases@,
                    panes@,
                    *env,
                    i + 1,
                )
                &&& p.layout@ == layout_of(layout@)
            },
    {
        if aliases.len() == 0 {
            return None;
        }
        let lay = if text::trim_chars(layout).len() == 0 {
            String::from_str("tiled")
        } else {
            text::copy_str(layout)
        };
        let first_cmd = match &panes[0].log_path {
            Some(p) => self.ssh_command_string(aliases[0].as_str(), panes[0].has_credential, env, Some(p.as_str())),
            None => self.ssh_command_string(aliases[0].as_str(), panes[0].has_credential, env, None),
        };
        let first = vec![
            String::from_str("new-window"),
            String::from_str("-P"),
            String::from_str("-F"),
            String::from_str("#{window_id}"),
            String::from_str("-n"),
            String::from_str("tiled"),
            env.shell.clone(),
            String::from_str("-lc"),
            first_cmd,
        ];
        let mut splits: Vec<String> = Vec::new();
        let mut i: usize = 1;
        while i < aliases.len()
            invariant
                1 <= i <= aliases.len(),
                panes.len() == aliases.len(),
                splits.len() == i - 1,
                forall|k: int| 0 <= k < splits.len() ==> (#[trigger] splits@[k])@ == tiled_command(
                    self@,
                    aliases@,
                    panes@,
                    *env,
                    k + 1,
                ),
            decreases aliases.len() - i,
        {
            let cmd = match &panes[i].log_path {
                Some(p) => self.ssh_command_string(aliases[i].as_str(), panes[i].has_credential, env, Some(p.as_str())),
                None => self.ssh_command_string(aliases[i].as_str(), panes[i].has_credential, env, None),
            };
            splits.push(cmd);
            i += 1;
        }
        let plan = TiledPlan { first, splits, layout: lay };
        assert(strs(plan.first@) =~= seq![
            "new-window"@,
            "-P"@,
            "-F"@,
            "#{window_id}"@,
            "-n"@,
            "tiled"@,
            env.shell@,
            "-lc"@,
            tiled_command(self@, aliases@, panes@, *env, 0),
        ]);
        Some(plan)
    }
}

/// The `tmux` arguments that split the tiled window `window_id` for one more
/// pane running `cmd`.
pub fn tiled_split_args(window_id: &str, shell: &str, cmd: &str) -> (r: Vec<String>)
    ensures
        strs(r@) == seq!["split-window"@, "-v"@, "-t"@, window_id@, shell@, "-lc"@, cmd@],
{
    let r = vec![
        String::from_str("split-window"),
        String::from_str("-v"),
        String::from_str("-t"),
        text::copy_str(window_id),
        text::copy_str(shell),
        String::from_str("-lc"),
        text::copy_str(cmd),
    ];
    assert(strs(r@) =~= seq!["split-window"@, "-v"@, "-t"@, window_id@, shell@, "-lc"@, cmd@]);
    r
}

/// The `tmux` arguments that apply `layout` to the window `window_id`.
pub fn select_layout_args(window_id: &str, layout: &str) -> (r: Vec<String>)
    ensures
        strs(r@) == seq!["select-layout"@, "-t"@, window_id@, layout@],
{
    let r = vec![
        String::from_str("select-layout"),
        String::from_str("-t"),
        text::copy_str(window_id),
        text::copy_str(layout),
    ];
    assert(strs(r@) =~= seq!["select-layout"@, "-t"@, window_id@, layout@]);
    r
}

/// The full `tmux` argument list: `-S <socket>` first when a socket is known.
pub open spec fn command_args_of(socket: Seq<char>, args: Seq<Seq<char>>) -> Seq<Seq<char>> {
    if socket.len() == 0 {
        args
    } else {
        seq!["-S"@, socket] + args
    }
}

/// Prefixes `args` with the server socket, when there is one.
pub fn command_args(socket: &str, args: &Vec<String>) -> (r: Vec<String>)
    ensures
        strs(r@) == command_args_of(socket@, strs(args@)),
{
    let mut r: Vec<String> = Vec::new();
    if !socket.is_empty() {
        r.push(String::from_str("-S"));
        r.push(text::copy_str(socket));
    }
    let ghost r0 = strs(r@);
    let mut i: usize = 0;
    while i < args.len()
        invariant
            i <= args.len(),
            strs(r@) == r0 + strs(args@).take(i as int),
        decreases args.len() - i,
    {
        let a = args[i].clone();
        proof {
            assert(strs(r@.push(a)) =~= strs(r@).push(a@));
            assert(strs(args@).take(i + 1) =~= strs(args@).take(i as int).push(args@[i as int]@));
        }
        r.push(a);
        i += 1;
    }
    proof {
        assert(strs(args@).take(args.len() as int) =~= strs(args@));
        if socket@.len() == 0 {
            assert(r0 =~= Seq::<Seq<char>>::empty());
        } else {
            assert(r0 =~= seq!["-S"@, socket@]);
        }
        assert(strs(r@) =~= command_args_of(socket@, strs(args@)));
    }
    r
}

/// The words joined by single spaces.
pub open spec fn joined(words: Seq<Seq<char>>) -> Seq<char>
    decreases words.len(),
{
    if words.len() == 0 {
        Seq::empty()
    } else if words.len() == 1 {
        words[0]
    } else {
        joined(words.drop_last()) + seq![' '] + words.last()
    }
}

/// Joins the words with single spaces.
pub fn join_words(words: &Vec<String>) -> (r: String)
    ensures
        r@ == joined(strs(words@)),
{
    let mut r = String::new();
    let mut i: usize = 0;
    while i < words.len()
        invariant
            i <= words.len(),
            r@ == joined(strs(words@).take(i as int)),
        decreases words.len() - i,
    {
        proof {
            let t = strs(words@).take(i + 1);
            assert(t.drop_last() =~= strs(words@).take(i as int));
            assert(t.last() == words@[i as int]@);
        }
        if i > 0 {
            r.push(' ');
        }
        text::push_str(&mut r, words[i].as_str());
        i += 1;
        proof {
            if i == 1 {
                assert(strs(words@).take(1) =~= seq![words@[0]@]);
            }
        }
    }
    assert(strs(words@).take(words.len() as int) =~= strs(words@));
    r
}

/// The message of a failed `tmux` call: its arguments and what it wrote to
/// stderr, or that it failed when it wrote nothing.
pub open spec fn failure_text(args: Seq<Seq<char>>, stderr: Seq<char>) -> Seq<char> {
    let cmd = "tmux "@ + joined(args);
    cmd + ": "@ + if text::trim(stderr).len() == 0 {
        cmd + " failed"@
    } else {
        text::trim(stderr)
    }
}

/// Describes a failed `tmux` call.
pub fn tmux_failure(args: &Vec<String>, stderr: &str) -> (r: String)
    ensures
        r@ == failure_text(strs(args@), stderr@),
{
    let mut cmd = String::from_str("tmux ");
    let j = join_words(args);
    text::push_str(&mut cmd, j.as_str());
    let mut r = cmd.clone();
    text::push_str(&mut r, ": ");
    let msg = text::trim_str(stderr);
    if msg.as_str().is_empty() {
        text::push_str(&mut r, cmd.as_str());
        text::push_str(&mut r, " failed");
        assert(r@ =~= failure_text(strs(args@), stderr@));
    } else {
        text::push_str(&mut r, msg.as_str());
        assert(r@ =~= failure_text(strs(args@), stderr@));
    }
    r
}

// ---------------------------------------------------------------- logs

/// Where pane logs live: under `XDG_CONFIG_HOME` when set, else under the
/// platform's config directory for the program, else under `~/.config`.
pub open spec fn logs_dir_of(xdg: Option<Seq<char>>, project: Option<Seq<char>>, home: Option<Seq<char>>) -> Option<Seq<char>> {
    match xdg {
        Some(x) => Some(paths::path_join(paths::path_join(x, "rustasshn"@), "logs"@)),
        None => match project {
            Some(d) => Some(paths::path_join(d, "logs"@)),
            None => match home {
                Some(h) => Some(
                    paths::path_join(paths::path_join(paths::path_join(h, ".config"@), "rustasshn"@), "logs"@),
                ),
                None => None,
            },
        },
    }
}

/// The logs directory from the three places it can come from.
pub fn logs_dir_from(xdg_config_home: Option<&str>, project_dir: Option<&str>, home: Option<&str>) -> (r: Option<String>)
    ensures
        paths::opt_view(r) == logs_dir_of(sv(xdg_config_home), sv(project_dir), sv(home)),
{
    match xdg_config_home {
        Some(x) => {
            let a = paths::join_path(x, "rustasshn");
            Some(paths::join_path(a.as_str(), "logs"))
        },
        None => match project_dir {
            Some(d) => Some(paths::join_path(d, "logs")),
            None => match home {
                Some(h) => {
                    let a = paths::join_path(h, ".config");
                    let b = paths::join_path(a.as_str(), "rustasshn");
                    Some(paths::join_path(b.as_str(), "logs"))
                },
                None => None,
            },
        },
    }
}

/// The platform's config directory for `app_name`, as the `directories`
/// crate finds it. It depends on the environment (`HOME` and the platform),
/// so nothing is claimed of it.
#[verifier::external_body]
pub(crate) fn project_config_dir(app_name: &str) -> (r: Option<String>) {
    match directories::ProjectDirs::from("", "", app_name) {
        Some(p) => Some(p.config_dir().to_string_lossy().into_owned()),
        None => None,
    }
}

/// Where pane logs live, given `XDG_CONFIG_HOME` and `HOME`; the platform's
/// directory is asked for only when `XDG_CONFIG_HOME` is unset. `None` means
/// no directory could be found.
pub fn logs_base_dir(xdg_config_home: Option<&str>, home: Option<&str>) -> (r: Option<String>)
    ensures
        xdg_config_home is Some ==> paths::opt_view(r) == logs_dir_of(sv(xdg_config_home), None, sv(home)),
        xdg_config_home is None ==> exists|p: Option<Seq<char>>|
            paths::opt_view(r) == logs_dir_of(None, p, sv(home)),
{
    match xdg_config_home {
        Some(_) => logs_dir_from(xdg_config_home, None, home),
        None => {
            let project = project_config_dir("rustasshn");
            let r = match &project {
                Some(d) => logs_dir_from(None, Some(d.as_str()), home),
                None => logs_dir_from(None, None, home),
            };
            assert(paths::opt_view(r) == logs_dir_of(None, paths::opt_view(project), sv(home)));
            r
        },
    }
}

/// The log directory of one host: its sanitized alias under the logs
/// directory.
pub fn log_dir(base: &str, alias: &str) -> (r: String)
    ensures
        r@ == paths::path_join(base@, sanitized(alias@)),
{
    let name = sanitize_alias(alias);
    paths::join_path(base, name.as_str())
}

/// A host's log file for the day `date` (`YYYY-MM-DD`, read from the clock
/// by the caller): `<date>.log` in its log directory.
pub fn log_file_path(dir: &str, date: &str) -> (r: String)
    ensures
        r@ == paths::path_join(dir@, date@ + ".log"@),
{
    let mut name = text::copy_str(date);
    text::push_str(&mut name, ".log");
    paths::join_path(dir, name.as_str())
}

} // verus!
