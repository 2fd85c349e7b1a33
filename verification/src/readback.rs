//! What a config file reads back after a host block is appended to it.

use vstd::prelude::*;
use crate::text;
use crate::sshconfig;

verus! {

// ---------------------------------------------------------------- lines

proof fn lemma_lines_fold_prefix(a: Seq<char>, b: Seq<char>, n: int)
    requires
        0 <= n <= a.len(),
    ensures
        text::lines_fold(a + b, n) == text::lines_fold(a, n),
    decreases n,
{
    if n > 0 {
        lemma_lines_fold_prefix(a, b, n - 1);
        assert((a + b)[n - 1] == a[n - 1]);
    }
}

proof fn lemma_lines_fold_cur(s: Seq<char>, n: int)
    requires
        0 <= n <= s.len(),
    ensures
        text::lines_fold(s, n).1.len() == 0 <==> (n == 0 || s[n - 1] == '\n'),
        text::lines_fold(s, n).1.len() > 0 ==> text::lines_fold(s, n).1.last() == s[n - 1],
    decreases n,
{
    if n > 0 {
        lemma_lines_fold_cur(s, n - 1);
    }
}

proof fn lemma_lines_fold_concat(a: Seq<char>, b: Seq<char>, k: int)
    requires
        a.len() == 0 || a.last() == '\n',
        0 <= k <= b.len(),
    ensures
        text::lines_fold(a + b, a.len() + k) == (
            text::lines_fold(a, a.len() as int).0 + text::lines_fold(b, k).0,
            text::lines_fold(b, k).1,
        ),
    decreases k,
{
    if k == 0 {
        lemma_lines_fold_prefix(a, b, a.len() as int);
        lemma_lines_fold_cur(a, a.len() as int);
        assert(text::lines_fold(a, a.len() as int).0 + Seq::<Seq<char>>::empty() =~= text::lines_fold(
            a,
            a.len() as int,
        ).0);
    } else {
        lemma_lines_fold_concat(a, b, k - 1);
        assert((a + b)[a.len() + k - 1] == b[k - 1]);
        let d = text::lines_fold(a, a.len() as int).0;
        let (bd, bc) = text::lines_fold(b, k - 1);
        assert((d + bd).push(text::without_cr(bc)) =~= d + bd.push(text::without_cr(bc)));
    }
}

/// Lines split after a text ended by a newline are its lines followed by
/// those of the rest.
proof fn lemma_lines_concat(a: Seq<char>, b: Seq<char>)
    requires
        a.len() == 0 || a.last() == '\n',
    ensures
        text::lines_of(a + b) == text::lines_of(a) + text::lines_of(b),
{
    lemma_lines_fold_concat(a, b, b.len() as int);
    lemma_lines_fold_cur(a, a.len() as int);
    let d = text::lines_fold(a, a.len() as int).0;
    let (bd, bc) = text::lines_fold(b, b.len() as int);
    assert((a + b).len() == a.len() + b.len());
    assert((d + bd).push(bc) =~= d + bd.push(bc));
}

proof fn lemma_lines_fold_plain(l: Seq<char>, k: int)
    requires
        0 <= k <= l.len(),
        !l.contains('\n'),
    ensures
        text::lines_fold(l, k) == (Seq::<Seq<char>>::empty(), l.take(k)),
    decreases k,
{
    if k > 0 {
        lemma_lines_fold_plain(l, k - 1);
        assert(l[k - 1] != '\n');
        assert(l.take(k - 1).push(l[k - 1]) =~= l.take(k));
    }
}

/// A line without line breaks, not ending in `\r`, followed by `\n`, is read
/// back as itself.
proof fn lemma_one_line(l: Seq<char>)
    requires
        !l.contains('\n'),
        l.len() == 0 || l.last() != '\r',
    ensures
        text::lines_of(l + seq!['\n']) == seq![l],
{
    let t = l + seq!['\n'];
    lemma_lines_fold_prefix(l, seq!['\n'], l.len() as int);
    lemma_lines_fold_plain(l, l.len() as int);
    assert(l.take(l.len() as int) =~= l);
    assert(t[l.len() as int] == '\n');
    assert(text::without_cr(l) == l);
    assert(Seq::<Seq<char>>::empty().push(l) =~= seq![l]);
}

/// Ending a text with a newline leaves its lines as they were, when its
/// last line does not end in `\r`.
proof fn lemma_close_last_line(d: Seq<char>)
    requires
        d.len() > 0,
        d.last() != '\n',
        d.last() != '\r',
    ensures
        text::lines_of(d + seq!['\n']) == text::lines_of(d),
{
    let t = d + seq!['\n'];
    lemma_lines_fold_prefix(d, seq!['\n'], d.len() as int);
    lemma_lines_fold_cur(d, d.len() as int);
    assert(t[d.len() as int] == '\n');
    assert(t.len() == d.len() + 1);
}

// ---------------------------------------------------------------- one line

proof fn lemma_trim_start_ws(p: Seq<char>, c: Seq<char>)
    requires
        forall|i: int| 0 <= i < p.len() ==> text::is_ws(#[trigger] p[i]),
        c.len() > 0,
        !text::is_ws(c[0]),
    ensures
        text::trim_start(p + c) == c,
    decreases p.len(),
{
    if p.len() > 0 {
        assert((p + c)[0] == p[0]);
        assert((p + c).drop_first() =~= p.drop_first() + c);
        lemma_trim_start_ws(p.drop_first(), c);
    } else {
        assert(p + c =~= c);
    }
}

proof fn lemma_trim_end_plain(c: Seq<char>)
    requires
        c.len() > 0,
        !text::is_ws(c.last()),
    ensures
        text::trim_end(c) == c,
{
}

/// A run of whitespace followed by a string that starts and ends with
/// something else trims to that string.
proof fn lemma_trim_padded(p: Seq<char>, c: Seq<char>)
    requires
        forall|i: int| 0 <= i < p.len() ==> text::is_ws(#[trigger] p[i]),
        c.len() > 0,
        !text::is_ws(c[0]),
        !text::is_ws(c.last()),
    ensures
        text::trim(p + c) == c,
{
    lemma_trim_start_ws(p, c);
    lemma_trim_end_plain(c);
}

proof fn lemma_words_plain(a: Seq<char>, k: int)
    requires
        0 <= k <= a.len(),
        forall|i: int| 0 <= i < a.len() ==> !text::is_ws(#[trigger] a[i]),
    ensures
        sshconfig::words_fold(a, k) == (Seq::<Seq<char>>::empty(), a.take(k)),
    decreases k,
{
    if k > 0 {
        lemma_words_plain(a, k - 1);
        assert(!text::is_ws(a[k - 1]));
        assert(a.take(k - 1).push(a[k - 1]) =~= a.take(k));
    }
}

/// A word without whitespace splits into itself.
proof fn lemma_one_word(a: Seq<char>)
    requires
        a.len() > 0,
        forall|i: int| 0 <= i < a.len() ==> !text::is_ws(#[trigger] a[i]),
    ensures
        sshconfig::words(a) == seq![a],
{
    lemma_words_plain(a, a.len() as int);
    assert(a.take(a.len() as int) =~= a);
    assert(Seq::<Seq<char>>::empty().push(a) =~= seq![a]);
}

/// A keyword as the block writes it: ASCII, with no whitespace, separator
/// or `#`.
pub open spec fn plain_keyword(k: Seq<char>) -> bool {
    &&& k.len() > 0
    &&& text::all_ascii(k)
    &&& forall|i: int|
        0 <= i < k.len() ==> !text::is_ws(#[trigger] k[i]) && !sshconfig::is_sep(k[i]) && k[i] != '#'
}

/// A value as the block writes it: not empty, trimmed, without `#` or line
/// break.
pub open spec fn plain_value(v: Seq<char>) -> bool {
    &&& v.len() > 0
    &&& text::trim(v) == v
    &&& !v.contains('#')
    &&& !v.contains('\n')
}

proof fn lemma_no_comment(s: Seq<char>)
    requires
        !s.contains('#'),
    ensures
        sshconfig::without_comment(s) == s,
{
    if exists|i: int| sshconfig::comment_at(s, i) {
        let i = choose|i: int| sshconfig::comment_at(s, i);
        assert(s[i] == '#');
    }
}

/// A line `<pad><keyword> <value>` is read as the directive `keyword` with
/// `value`, the keyword lowercased.
proof fn lemma_read_kv_line(
    st: sshconfig::ReadState,
    pad: Seq<char>,
    k: Seq<char>,
    v: Seq<char>,
    n: usize,
    source: Seq<char>,
)
    requires
        forall|i: int| 0 <= i < pad.len() ==> #[trigger] pad[i] == ' ',
        plain_keyword(k),
        plain_value(v),
    ensures
        sshconfig::read_line(st, pad + k + seq![' '] + v, n, source) == sshconfig::directive_step(
            st,
            text::lowered(k),
            text::lowered(k),
            v,
            n,
            source,
        ),
{
    let line = pad + k + seq![' '] + v;
    let body = k + seq![' '] + v;
    text::lemma_trim_ends(v);
    assert(!line.contains('#')) by {
        if line.contains('#') {
            let i = choose|i: int| 0 <= i < line.len() && line[i] == '#';
            if i < pad.len() {
                assert(line[i] == pad[i]);
            } else if i < pad.len() + k.len() {
                assert(line[i] == k[i - pad.len()]);
            } else if i == pad.len() + k.len() {
                assert(line[i] == ' ');
            } else {
                assert(line[i] == v[i - pad.len() - k.len() - 1]);
            }
        }
    }
    lemma_no_comment(line);
    assert(line == pad + body) by {
        assert(line =~= pad + body);
    }
    assert(body[0] == k[0]);
    assert(body.last() == v.last());
    lemma_trim_padded(pad, body);
    lemma_trim_padded(Seq::empty(), body);
    assert(Seq::<char>::empty() + body =~= body);
    assert(body[k.len() as int] == ' ');
    assert forall|j: int| 0 <= j < k.len() implies !sshconfig::is_sep(body[j]) by {
        assert(body[j] == k[j]);
    }
    sshconfig::lemma_first_sep(body, k.len() as int);
    assert(body.subrange(0, k.len() as int) =~= k);
    assert(body.subrange(k.len() as int + 1, body.len() as int) =~= v);
    lemma_trim_padded(Seq::empty(), k);
    assert(Seq::<char>::empty() + k =~= k);
}

/// The keywords of a written block, and how they are read.
proof fn lemma_keywords()
    ensures
        plain_keyword("Host"@),
        text::lowered("Host"@) == "host"@,
        plain_keyword("HostName"@),
        text::lowered("HostName"@) == "hostname"@,
        plain_keyword("User"@),
        text::lowered("User"@) == "user"@,
        plain_keyword("Port"@),
        text::lowered("Port"@) == "port"@,
        plain_keyword("ProxyJump"@),
        text::lowered("ProxyJump"@) == "proxyjump"@,
        plain_keyword("IdentityFile"@),
        text::lowered("IdentityFile"@) == "identityfile"@,
        "  HostName "@ == seq![' ', ' '] + "HostName"@ + seq![' '],
        "  User "@ == seq![' ', ' '] + "User"@ + seq![' '],
        "  Port "@ == seq![' ', ' '] + "Port"@ + seq![' '],
        "  ProxyJump "@ == seq![' ', ' '] + "ProxyJump"@ + seq![' '],
        "  IdentityFile "@ == seq![' ', ' '] + "IdentityFile"@ + seq![' '],
        "Host "@ == Seq::<char>::empty() + "Host"@ + seq![' '],
        "hostname"@ != "host"@ && "hostname"@ != "include"@ && "hostname"@ != "match"@,
        "user"@ != "host"@ && "user"@ != "include"@ && "user"@ != "match"@,
        "port"@ != "host"@ && "port"@ != "include"@ && "port"@ != "match"@,
        "proxyjump"@ != "host"@ && "proxyjump"@ != "include"@ && "proxyjump"@ != "match"@,
        "identityfile"@ != "host"@ && "identityfile"@ != "include"@ && "identityfile"@ != "match"@,
        "hostname"@ != "identityfile"@ && "user"@ != "identityfile"@ && "port"@ != "identityfile"@ && "proxyjump"@ != "identityfile"@,
        "user"@ != "hostname"@ && "port"@ != "hostname"@ && "proxyjump"@ != "hostname"@,
        "port"@ != "user"@ && "proxyjump"@ != "user"@ && "proxyjump"@ != "port"@,
{
    reveal_strlit("Host");
    reveal_strlit("host");
    assert(text::lower_ascii("Host"@) =~= "host"@);
    reveal_strlit("HostName");
    reveal_strlit("hostname");
    assert(text::lower_ascii("HostName"@) =~= "hostname"@);
    reveal_strlit("User");
    reveal_strlit("user");
    assert(text::lower_ascii("User"@) =~= "user"@);
    reveal_strlit("Port");
    reveal_strlit("port");
    assert(text::lower_ascii("Port"@) =~= "port"@);
    reveal_strlit("ProxyJump");
    reveal_strlit("proxyjump");
    assert(text::lower_ascii("ProxyJump"@) =~= "proxyjump"@);
    reveal_strlit("IdentityFile");
    reveal_strlit("identityfile");
    assert(text::lower_ascii("IdentityFile"@) =~= "identityfile"@);
    reveal_strlit("  HostName ");
    assert("  HostName "@ =~= seq![' ', ' '] + "HostName"@ + seq![' ']);
    reveal_strlit("  User ");
    assert("  User "@ =~= seq![' ', ' '] + "User"@ + seq![' ']);
    reveal_strlit("  Port ");
    assert("  Port "@ =~= seq![' ', ' '] + "Port"@ + seq![' ']);
    reveal_strlit("  ProxyJump ");
    assert("  ProxyJump "@ =~= seq![' ', ' '] + "ProxyJump"@ + seq![' ']);
    reveal_strlit("  IdentityFile ");
    assert("  IdentityFile "@ =~= seq![' ', ' '] + "IdentityFile"@ + seq![' ']);
    reveal_strlit("Host ");
    assert("Host "@ =~= Seq::<char>::empty() + "Host"@ + seq![' ']);
    reveal_strlit("host");
    reveal_strlit("include");
    reveal_strlit("match");
    assert("user"@[0] != "host"@[0]);
    assert("port"@[0] != "host"@[0]);
    assert("user"@[0] != "port"@[0]);
}

// ---------------------------------------------------------------- ports

proof fn lemma_decimal_digits(n: nat)
    ensures
        text::decimal(n).len() > 0,
        sshconfig::all_digits(text::decimal(n)),
        sshconfig::digits_value(text::decimal(n)) == n,
    decreases n,
{
    let d = n % 10;
    assert(((48 + d) as char) as u32 == 48 + d);
    assert((n / 10) * 10 + d == n) by (nonlinear_arith)
        requires
            d == n % 10,
    ;
    let s = text::decimal(n);
    if n < 10 {
        assert(s.drop_last() =~= Seq::<char>::empty());
        assert(s.last() as u32 == 48 + n);
        assert(sshconfig::digits_value(s) == sshconfig::digits_value(s.drop_last()) * 10 + (s.last() as u32
            - 48) as nat);
    } else {
        lemma_decimal_digits(n / 10);
        let t = text::decimal(n / 10);
        assert(s.drop_last() =~= t);
        assert(s.last() == text::digit_char(d));
        assert(sshconfig::digits_value(s) == sshconfig::digits_value(s.drop_last()) * 10 + (s.last() as u32
            - 48) as nat);
        assert forall|i: int| 0 <= i < s.len() implies sshconfig::is_digit(#[trigger] s[i]) by {
            if i < t.len() {
                assert(s[i] == t[i]);
            }
        }
    }
}

/// A positive port is written as a plain value that reads back as the port.
proof fn lemma_port_read_back(p: int)
    requires
        0 < p <= i32::MAX,
    ensures
        plain_value(text::decimal(p as nat)),
        sshconfig::port_of(text::decimal(p as nat)) == p,
{
    let s = text::decimal(p as nat);
    lemma_decimal_digits(p as nat);
    assert(sshconfig::is_digit(s[0]));
    assert(sshconfig::is_digit(s.last()));
    lemma_trim_padded(Seq::empty(), s);
    assert(Seq::<char>::empty() + s =~= s);
    assert(!s.contains('#')) by {
        if s.contains('#') {
            let i = choose|i: int| 0 <= i < s.len() && s[i] == '#';
            assert(sshconfig::is_digit(s[i]));
        }
    }
    assert(!s.contains('\n')) by {
        if s.contains('\n') {
            let i = choose|i: int| 0 <= i < s.len() && s[i] == '\n';
            assert(sshconfig::is_digit(s[i]));
        }
    }
}

// ---------------------------------------------------------------- the block

/// The line `<keyword><value>` when the value is given, else none.
pub open spec fn opt_line(keyword: Seq<char>, value: Seq<char>) -> Seq<Seq<char>> {
    if value.len() == 0 {
        Seq::empty()
    } else {
        seq![keyword + value]
    }
}

/// The `Port` line, written for a positive port.
pub open spec fn port_lines(port: i32) -> Seq<Seq<char>> {
    if port > 0 {
        seq!["  Port "@ + text::decimal(port as nat)]
    } else {
        Seq::empty()
    }
}

/// The lines of the block written for a new host.
pub open spec fn block_lines(v: sshconfig::AddHostInputView) -> Seq<Seq<char>> {
    seq!["Host "@ + v.alias, "  HostName "@ + v.hostname] + opt_line("  User "@, v.user) + port_lines(v.port)
        + opt_line("  ProxyJump "@, v.proxyjump) + opt_line("  IdentityFile "@, v.identity_file)
}

/// A field that is written as it is and read back as it is: not given, or a
/// plain value.
pub open spec fn plain_or_empty(v: Seq<char>) -> bool {
    v.len() == 0 || plain_value(v)
}

/// The fields of a block that reads back as written: the alias a literal
/// pattern without whitespace, the host name given, and every field free of
/// `#` and line breaks and trimmed.
pub open spec fn plain_fields(v: sshconfig::AddHostInputView) -> bool {
    &&& plain_value(v.alias)
    &&& sshconfig::literal_pattern(v.alias)
    &&& forall|i: int| 0 <= i < v.alias.len() ==> !text::is_ws(#[trigger] v.alias[i])
    &&& plain_value(v.hostname)
    &&& plain_or_empty(v.user)
    &&& plain_or_empty(v.proxyjump)
    &&& plain_or_empty(v.identity_file)
}

/// The host a written block is read back as, its block starting on line
/// `line` of `source`.
pub open spec fn written_host(v: sshconfig::AddHostInputView, source: Seq<char>, line: usize) -> sshconfig::HostView {
    sshconfig::HostView {
        alias: v.alias,
        hostname: v.hostname,
        user: v.user,
        port: if v.port > 0 {
            v.port
        } else {
            0i32
        },
        proxyjump: v.proxyjump,
        identity_files: if v.identity_file.len() > 0 {
            seq![v.identity_file]
        } else {
            Seq::empty()
        },
        source_path: source,
        source_line: line,
    }
}

proof fn lemma_read_upto_prefix(a: Seq<Seq<char>>, b: Seq<Seq<char>>, n: int, source: Seq<char>)
    requires
        0 <= n <= a.len(),
    ensures
        sshconfig::read_upto(a + b, n, source) == sshconfig::read_upto(a, n, source),
    decreases n,
{
    if n > 0 {
        lemma_read_upto_prefix(a, b, n - 1, source);
        assert((a + b)[n - 1] == a[n - 1]);
    }
}

/// How many lines a field adds to the block: one when it is given.
pub open spec fn opt_len(value: Seq<char>) -> int {
    if value.len() > 0 {
        1
    } else {
        0
    }
}

/// The line a field adds: `  <keyword> <value>`.
pub open spec fn kv_line(k: Seq<char>, value: Seq<char>) -> Seq<char> {
    seq![' ', ' '] + k + seq![' '] + value
}

proof fn lemma_block_index(lines: Seq<Seq<char>>, v: sshconfig::AddHostInputView)
    ensures
        ({
            let all = lines + block_lines(v);
            let n0 = lines.len() as int;
            let d = text::decimal(v.port as nat);
            let pl: int = if v.port > 0 {
                1
            } else {
                0
            };
            &&& all[n0] == Seq::<char>::empty() + "Host"@ + seq![' '] + v.alias
            &&& all[n0 + 1] == kv_line("HostName"@, v.hostname)
            &&& v.user.len() > 0 ==> all[n0 + 2] == kv_line("User"@, v.user)
            &&& v.port > 0 ==> all[n0 + 2 + opt_len(v.user)] == kv_line("Port"@, d)
            &&& v.proxyjump.len() > 0 ==> all[n0 + 2 + opt_len(v.user) + pl] == kv_line("ProxyJump"@, v.proxyjump)
            &&& v.identity_file.len() > 0 ==> all[n0 + 2 + opt_len(v.user) + pl + opt_len(v.proxyjump)]
                == kv_line("IdentityFile"@, v.identity_file)
            &&& all.len() == n0 + 2 + opt_len(v.user) + pl + opt_len(v.proxyjump) + opt_len(v.identity_file)
        }),
{
    lemma_keywords();
    let bl = block_lines(v);
    let all = lines + bl;
    let n0 = lines.len() as int;
    let u = opt_line("  User "@, v.user);
    let pp = port_lines(v.port);
    let j = opt_line("  ProxyJump "@, v.proxyjump);
    let idf = opt_line("  IdentityFile "@, v.identity_file);
    let hd = seq!["Host "@ + v.alias, "  HostName "@ + v.hostname];
    assert(bl == hd + u + pp + j + idf);
    assert forall|i: int| 0 <= i < bl.len() implies all[n0 + i] == #[trigger] bl[i] by {}
    assert(bl[0] == hd[0]);
    assert(bl[1] == hd[1]);
    if v.user.len() > 0 {
        assert(bl[2] == u[0]);
    }
    if v.port > 0 {
        assert(bl[2 + u.len() as int] == pp[0]);
    }
    if v.proxyjump.len() > 0 {
        assert(bl[2 + u.len() as int + pp.len() as int] == j[0]);
    }
    if v.identity_file.len() > 0 {
        assert(bl[2 + u.len() as int + pp.len() as int + j.len() as int] == idf[0]);
    }
}

/// The read state after the first `n` lines, kept folded.
#[verifier::opaque]
spec fn state_at(lines: Seq<Seq<char>>, n: int, source: Seq<char>) -> sshconfig::ReadState {
    sshconfig::read_upto(lines, n, source)
}

/// One optional setting line of the block, when its field is given, sets
/// the field in the open block.
proof fn lemma_opt_step(
    all: Seq<Seq<char>>,
    n: int,
    out: Seq<sshconfig::EntryView>,
    b: sshconfig::BlockView,
    k: Seq<char>,
    kl: Seq<char>,
    value: Seq<char>,
    source: Seq<char>,
)
    requires
        0 <= n,
        n + opt_len(value) <= all.len(),
        state_at(all, n, source) == (sshconfig::ReadState { out, current: Some(b) }),
        value.len() > 0 ==> all[n] == kv_line(k, value),
        plain_or_empty(value),
        plain_keyword(k),
        text::lowered(k) == kl,
        kl != "host"@ && kl != "include"@ && kl != "match"@,
    ensures
        state_at(all, n + opt_len(value), source) == (sshconfig::ReadState {
            out,
            current: Some(
                if value.len() > 0 {
                    sshconfig::with_setting(b, kl, value)
                } else {
                    b
                },
            ),
        }),
{
    reveal(state_at);
    if value.len() > 0 {
        lemma_read_kv_line(
            sshconfig::ReadState { out, current: Some(b) },
            seq![' ', ' '],
            k,
            value,
            (n + 1) as usize,
            source,
        );
    }
}

/// The text of the `Port` value written for a port: none unless positive.
pub open spec fn port_text(port: i32) -> Seq<char> {
    if port > 0 {
        text::decimal(port as nat)
    } else {
        Seq::empty()
    }
}

/// The open block once a written block's lines are read.
pub open spec fn written_block(v: sshconfig::AddHostInputView, source: Seq<char>, line: usize) -> sshconfig::BlockView {
    sshconfig::BlockView {
        patterns: seq![v.alias],
        hostname: v.hostname,
        user: v.user,
        port: port_text(v.port),
        proxyjump: v.proxyjump,
        identity_files: if v.identity_file.len() > 0 {
            seq![v.identity_file]
        } else {
            Seq::empty()
        },
        source,
        start_line: line,
    }
}

proof fn lemma_written_block_hosts(v: sshconfig::AddHostInputView, source: Seq<char>, line: usize)
    requires
        plain_fields(v),
    ensures
        sshconfig::block_hosts(written_block(v, source, line)) == seq![written_host(v, source, line)],
{
    let b = written_block(v, source, line);
    if v.port > 0 {
        lemma_port_read_back(v.port as int);
    } else {
        assert(text::trim(Seq::<char>::empty()) =~= Seq::<char>::empty());
    }
    assert(text::trim(v.alias) == v.alias);
    assert(sshconfig::block_host(b, v.alias) == written_host(v, source, line));
    assert(sshconfig::block_hosts_upto(b, 0) == Seq::<sshconfig::HostView>::empty());
    assert(Seq::<sshconfig::HostView>::empty().push(written_host(v, source, line)) =~= seq![
        written_host(v, source, line),
    ]);
}

/// The `Host` line of a written block closes the open block and opens the
/// new one.
#[verifier::rlimit(100)]
#[verifier::spinoff_prover]
proof fn lemma_host_step(lines: Seq<Seq<char>>, v: sshconfig::AddHostInputView, source: Seq<char>)
    requires
        plain_fields(v),
    ensures
        state_at(lines + block_lines(v), lines.len() as int + 1, source) == (sshconfig::ReadState {
            out: sshconfig::flushed(sshconfig::read_upto(lines, lines.len() as int, source)).out,
            current: Some(
                sshconfig::BlockView {
                    patterns: seq![v.alias],
                    hostname: Seq::empty(),
                    user: Seq::empty(),
                    port: Seq::empty(),
                    proxyjump: Seq::empty(),
                    identity_files: Seq::empty(),
                    source,
                    start_line: (lines.len() + 1) as usize,
                },
            ),
        }),
{
    reveal(state_at);
    let bl = block_lines(v);
    let all = lines + bl;
    let n0 = lines.len() as int;
    let line = Seq::<char>::empty() + "Host"@ + seq![' '] + v.alias;
    lemma_host_keyword();
    assert(all[n0] == bl[0]);
    assert(bl[0] == line);
    lemma_read_upto_prefix(lines, bl, n0, source);
    let s0 = sshconfig::read_upto(lines, n0, source);
    assert(sshconfig::read_upto(all, n0 + 1, source) == sshconfig::read_line(s0, line, (n0 + 1) as usize, source));
    lemma_read_kv_line(s0, Seq::empty(), "Host"@, v.alias, (n0 + 1) as usize, source);
    lemma_one_word(v.alias);
}

proof fn lemma_host_keyword()
    ensures
        plain_keyword("Host"@),
        text::lowered("Host"@) == "host"@,
        "Host "@ == Seq::<char>::empty() + "Host"@ + seq![' '],
{
    reveal_strlit("Host");
    reveal_strlit("host");
    reveal_strlit("Host ");
    assert(text::lower_ascii("Host"@) =~= "host"@);
    assert("Host "@ =~= Seq::<char>::empty() + "Host"@ + seq![' ']);
}

/// The lines of a written block, read after any lines, add the written host
/// after what those lines give.
proof fn lemma_block_read(lines: Seq<Seq<char>>, v: sshconfig::AddHostInputView, source: Seq<char>)
    requires
        plain_fields(v),
    ensures
        sshconfig::config_entries(lines + block_lines(v), source) == sshconfig::config_entries(lines, source).push(
            sshconfig::EntryView::Host(written_host(v, source, (lines.len() + 1) as usize)),
        ),
{
    let bl = block_lines(v);
    let all = lines + bl;
    let n0 = lines.len() as int;
    let line = (n0 + 1) as usize;
    lemma_keywords();
    lemma_block_index(lines, v);
    let f = sshconfig::flushed(sshconfig::read_upto(lines, n0, source)).out;
    lemma_host_step(lines, v, source);
    let b0 = sshconfig::BlockView {
        patterns: seq![v.alias],
        hostname: Seq::empty(),
        user: Seq::empty(),
        port: Seq::empty(),
        proxyjump: Seq::empty(),
        identity_files: Seq::empty(),
        source,
        start_line: line,
    };
    lemma_opt_step(all, n0 + 1, f, b0, "HostName"@, "hostname"@, v.hostname, source);
    let b1 = sshconfig::with_setting(b0, "hostname"@, v.hostname);
    let n1 = n0 + 2;
    lemma_opt_step(all, n1, f, b1, "User"@, "user"@, v.user, source);
    let b2 = if v.user.len() > 0 {
        sshconfig::with_setting(b1, "user"@, v.user)
    } else {
        b1
    };
    let n2 = n1 + opt_len(v.user);
    let dv = port_text(v.port);
    if v.port > 0 {
        lemma_port_read_back(v.port as int);
    }
    lemma_opt_step(all, n2, f, b2, "Port"@, "port"@, dv, source);
    let b3 = if dv.len() > 0 {
        sshconfig::with_setting(b2, "port"@, dv)
    } else {
        b2
    };
    let n3 = n2 + opt_len(dv);
    lemma_opt_step(all, n3, f, b3, "ProxyJump"@, "proxyjump"@, v.proxyjump, source);
    let b4 = if v.proxyjump.len() > 0 {
        sshconfig::with_setting(b3, "proxyjump"@, v.proxyjump)
    } else {
        b3
    };
    let n4 = n3 + opt_len(v.proxyjump);
    lemma_opt_step(all, n4, f, b4, "IdentityFile"@, "identityfile"@, v.identity_file, source);
    let b5 = if v.identity_file.len() > 0 {
        sshconfig::with_setting(b4, "identityfile"@, v.identity_file)
    } else {
        b4
    };
    let n5 = n4 + opt_len(v.identity_file);
    assert(n5 == all.len());
    assert(b1 == sshconfig::BlockView { hostname: v.hostname, ..b0 });
    if v.user.len() == 0 {
        assert(v.user =~= Seq::<char>::empty());
    }
    if v.proxyjump.len() == 0 {
        assert(v.proxyjump =~= Seq::<char>::empty());
    }
    assert(b2 == sshconfig::BlockView { user: v.user, ..b1 });
    assert(b3 == sshconfig::BlockView { port: dv, ..b2 });
    assert(b4 == sshconfig::BlockView { proxyjump: v.proxyjump, ..b3 });
    assert(b5.identity_files == written_block(v, source, line).identity_files) by {
        assert(Seq::<Seq<char>>::empty().push(v.identity_file) =~= seq![v.identity_file]);
    }
    assert(b5 == written_block(v, source, line));
    lemma_written_block_hosts(v, source, line);
    let h = written_host(v, source, line);
    let hs = seq![h].map_values(|x: sshconfig::HostView| sshconfig::EntryView::Host(x));
    assert(hs =~= seq![sshconfig::EntryView::Host(h)]);
    assert(f + hs =~= f.push(sshconfig::EntryView::Host(h)));
    assert(sshconfig::config_entries(all, source) == sshconfig::flushed(state_at(all, n5, source)).out) by {
        reveal(state_at);
    }
}

// ---------------------------------------------------------------- the text

proof fn lemma_kw_no_newline(pad: Seq<char>, k: Seq<char>)
    requires
        forall|i: int| 0 <= i < pad.len() ==> #[trigger] pad[i] == ' ',
        plain_keyword(k),
    ensures
        !(pad + k + seq![' ']).contains('\n'),
{
    let w = pad + k + seq![' '];
    if w.contains('\n') {
        let i = choose|i: int| 0 <= i < w.len() && w[i] == '\n';
        if i < pad.len() {
            assert(w[i] == pad[i]);
        } else if i < pad.len() + k.len() {
            assert(w[i] == k[i - pad.len()]);
            assert(!text::is_ws(k[i - pad.len()]));
        } else {
            assert(w[i] == ' ');
        }
    }
}

/// A setting piece of the block text is split into its one line, or into
/// none when the field is not given.
proof fn lemma_piece(kw: Seq<char>, value: Seq<char>)
    requires
        !kw.contains('\n'),
        plain_or_empty(value),
    ensures
        text::lines_of(sshconfig::setting_line(kw, value)) == opt_line(kw, value),
        sshconfig::setting_line(kw, value).len() == 0 || sshconfig::setting_line(kw, value).last() == '\n',
{
    if value.len() > 0 {
        let l = kw + value;
        text::lemma_trim_ends(value);
        assert(l.last() == value.last());
        assert(!l.contains('\n')) by {
            if l.contains('\n') {
                let i = choose|i: int| 0 <= i < l.len() && l[i] == '\n';
                if i < kw.len() {
                    assert(l[i] == kw[i]);
                } else {
                    assert(l[i] == value[i - kw.len()]);
                }
            }
        }
        lemma_one_line(l);
    } else {
        assert(text::lines_fold(Seq::<char>::empty(), 0) == (Seq::<Seq<char>>::empty(), Seq::<char>::empty()));
    }
}

proof fn lemma_lines_concat6(
    a: Seq<char>,
    b: Seq<char>,
    c: Seq<char>,
    d: Seq<char>,
    e: Seq<char>,
    f: Seq<char>,
)
    requires
        a.len() == 0 || a.last() == '\n',
        b.len() == 0 || b.last() == '\n',
        c.len() == 0 || c.last() == '\n',
        d.len() == 0 || d.last() == '\n',
        e.len() == 0 || e.last() == '\n',
    ensures
        text::lines_of(a + (b + (c + (d + (e + f))))) == text::lines_of(a) + (text::lines_of(b) + (
        text::lines_of(c) + (text::lines_of(d) + (text::lines_of(e) + text::lines_of(f))))),
{
    lemma_lines_concat(e, f);
    lemma_lines_concat(d, e + f);
    lemma_lines_concat(c, d + (e + f));
    lemma_lines_concat(b, c + (d + (e + f)));
    lemma_lines_concat(a, b + (c + (d + (e + f))));
}

proof fn lemma_block_shape(v: sshconfig::AddHostInputView)
    requires
        v.alias.len() > 0,
        v.hostname.len() > 0,
    ensures
        sshconfig::host_block(v) == sshconfig::setting_line("Host "@, v.alias) + (sshconfig::setting_line(
            "  HostName "@,
            v.hostname,
        ) + (sshconfig::setting_line("  User "@, v.user) + (sshconfig::setting_line(
            "  Port "@,
            port_text(v.port),
        ) + (sshconfig::setting_line("  ProxyJump "@, v.proxyjump) + sshconfig::setting_line(
            "  IdentityFile "@,
            v.identity_file,
        ))))),
        block_lines(v) == opt_line("Host "@, v.alias) + (opt_line("  HostName "@, v.hostname) + (opt_line(
            "  User "@,
            v.user,
        ) + (opt_line("  Port "@, port_text(v.port)) + (opt_line("  ProxyJump "@, v.proxyjump) + opt_line(
            "  IdentityFile "@,
            v.identity_file,
        ))))),
{
    reveal_strlit("  Port ");
    if v.port > 0 {
        lemma_decimal_digits(v.port as nat);
    }
    let pp = sshconfig::setting_line("  Port "@, port_text(v.port));
    assert(pp == (if v.port > 0 {
        "  Port "@ + text::decimal(v.port as nat) + seq!['\n']
    } else {
        Seq::<char>::empty()
    }));
    assert(opt_line("  Port "@, port_text(v.port)) == port_lines(v.port));
    assert(sshconfig::host_block(v) =~= sshconfig::setting_line("Host "@, v.alias) + (sshconfig::setting_line(
            "  HostName "@,
            v.hostname,
        ) + (sshconfig::setting_line("  User "@, v.user) + (sshconfig::setting_line(
            "  Port "@,
            port_text(v.port),
        ) + (sshconfig::setting_line("  ProxyJump "@, v.proxyjump) + sshconfig::setting_line(
            "  IdentityFile "@,
            v.identity_file,
        ))))));
    assert(block_lines(v) =~= opt_line("Host "@, v.alias) + (opt_line("  HostName "@, v.hostname) + (opt_line(
            "  User "@,
            v.user,
        ) + (opt_line("  Port "@, port_text(v.port)) + (opt_line("  ProxyJump "@, v.proxyjump) + opt_line(
            "  IdentityFile "@,
            v.identity_file,
        ))))));
}

/// The text of a written block splits into the block's lines.
proof fn lemma_block_text_lines(v: sshconfig::AddHostInputView)
    requires
        plain_fields(v),
    ensures
        text::lines_of(sshconfig::host_block(v)) == block_lines(v),
{
    lemma_keywords();
    let pad = seq![' ', ' '];
    lemma_kw_no_newline(Seq::empty(), "Host"@);
    lemma_kw_no_newline(pad, "HostName"@);
    lemma_kw_no_newline(pad, "User"@);
    lemma_kw_no_newline(pad, "Port"@);
    lemma_kw_no_newline(pad, "ProxyJump"@);
    lemma_kw_no_newline(pad, "IdentityFile"@);
    let dv = port_text(v.port);
    if v.port > 0 {
        lemma_port_read_back(v.port as int);
    }
    lemma_piece("Host "@, v.alias);
    lemma_piece("  HostName "@, v.hostname);
    lemma_piece("  User "@, v.user);
    lemma_piece("  Port "@, dv);
    lemma_piece("  ProxyJump "@, v.proxyjump);
    lemma_piece("  IdentityFile "@, v.identity_file);
    lemma_block_shape(v);
    lemma_lines_concat6(
        sshconfig::setting_line("Host "@, v.alias),
        sshconfig::setting_line("  HostName "@, v.hostname),
        sshconfig::setting_line("  User "@, v.user),
        sshconfig::setting_line("  Port "@, dv),
        sshconfig::setting_line("  ProxyJump "@, v.proxyjump),
        sshconfig::setting_line("  IdentityFile "@, v.identity_file),
    );
}

// ---------------------------------------------------------------- a closing carriage return

proof fn lemma_trim_start_all_ws(s: Seq<char>)
    requires
        forall|i: int| 0 <= i < s.len() ==> text::is_ws(#[trigger] s[i]),
    ensures
        text::trim_start(s) == Seq::<char>::empty(),
    decreases s.len(),
{
    if s.len() > 0 {
        assert forall|i: int| 0 <= i < s.drop_first().len() implies text::is_ws(#[trigger] s.drop_first()[i]) by {
            assert(s.drop_first()[i] == s[i + 1]);
        }
        lemma_trim_start_all_ws(s.drop_first());
    }
}

proof fn lemma_trim_start_push(s: Seq<char>, c: char)
    requires
        exists|i: int| 0 <= i < s.len() && !text::is_ws(s[i]),
    ensures
        text::trim_start(s.push(c)) == text::trim_start(s).push(c),
    decreases s.len(),
{
    if text::is_ws(s[0]) {
        let t = s.drop_first();
        let i = choose|i: int| 0 <= i < s.len() && !text::is_ws(s[i]);
        assert(i > 0);
        assert(t[i - 1] == s[i]);
        assert(s.push(c).drop_first() =~= t.push(c));
        lemma_trim_start_push(t, c);
    }
}

/// Whitespace at the end of a string does not survive trimming.
proof fn lemma_trim_push_ws(s: Seq<char>, c: char)
    requires
        text::is_ws(c),
    ensures
        text::trim(s.push(c)) == text::trim(s),
{
    if exists|i: int| 0 <= i < s.len() && !text::is_ws(s[i]) {
        lemma_trim_start_push(s, c);
        let a = text::trim_start(s);
        assert(a.push(c).drop_last() =~= a);
    } else {
        lemma_trim_start_all_ws(s);
        let t = s.push(c);
        assert forall|i: int| 0 <= i < t.len() implies text::is_ws(#[trigger] t[i]) by {
            if i < s.len() {
                assert(t[i] == s[i]);
            }
        }
        lemma_trim_start_all_ws(t);
    }
}

/// A line read with a carriage return at its end is read as the line
/// without it.
proof fn lemma_read_line_cr(st: sshconfig::ReadState, l: Seq<char>, n: usize, source: Seq<char>)
    ensures
        sshconfig::read_line(st, l.push('\r'), n, source) == sshconfig::read_line(st, l, n, source),
{
    let t = l.push('\r');
    assert forall|i: int| 0 <= i < l.len() implies (sshconfig::comment_at(t, i) <==> sshconfig::comment_at(l, i)) by {
        assert(t[i] == l[i]);
        assert forall|j: int| 0 <= j < i implies t[j] == l[j] by {}
        sshconfig::lemma_quote_prefix(l, t, i);
    }
    assert(!sshconfig::comment_at(t, l.len() as int));
    if exists|i: int| sshconfig::comment_at(l, i) {
        let w = choose|i: int| sshconfig::comment_at(l, i);
        sshconfig::lemma_least_comment(l, w);
        let f = sshconfig::first_comment(l);
        assert(sshconfig::comment_at(t, f));
        assert forall|j: int| 0 <= j < f implies !sshconfig::comment_at(t, j) by {
            assert(!sshconfig::comment_at(l, j));
        }
        sshconfig::lemma_first_comment(t, f);
        assert(t.subrange(0, f) =~= l.subrange(0, f));
        assert(sshconfig::without_comment(t) == sshconfig::without_comment(l));
    } else {
        assert forall|i: int| !sshconfig::comment_at(t, i) by {
            if 0 <= i < l.len() {
                assert(!sshconfig::comment_at(l, i));
            }
        }
        assert(sshconfig::without_comment(t) == t);
        lemma_trim_push_ws(l, '\r');
    }
}

/// Ending a text whose last line ends in a carriage return with a newline
/// drops that carriage return from the last line.
proof fn lemma_close_cr_line(d: Seq<char>)
    requires
        d.len() > 0,
        d.last() == '\r',
    ensures
        text::lines_of(d).len() > 0,
        text::lines_of(d + seq!['\n']) == text::lines_of(d).drop_last().push(
            text::lines_of(d).last().drop_last(),
        ),
        text::lines_of(d).last() == text::lines_of(d).last().drop_last().push('\r'),
{
    let t = d + seq!['\n'];
    lemma_lines_fold_prefix(d, seq!['\n'], d.len() as int);
    lemma_lines_fold_cur(d, d.len() as int);
    assert(t[d.len() as int] == '\n');
    assert(t.len() == d.len() + 1);
    let (dd, c) = text::lines_fold(d, d.len() as int);
    assert(dd.push(c).drop_last() =~= dd);
    assert(c.drop_last().push('\r') =~= c);
}

/// Reading a file whose last line ends in a carriage return gives what the
/// same file without it gives.
proof fn lemma_entries_last_cr(d: Seq<Seq<char>>, l: Seq<char>, source: Seq<char>)
    ensures
        sshconfig::config_entries(d.push(l.push('\r')), source) == sshconfig::config_entries(d.push(l), source),
{
    let a = d.push(l.push('\r'));
    let b = d.push(l);
    lemma_read_upto_prefix(d, seq![l.push('\r')], d.len() as int, source);
    lemma_read_upto_prefix(d, seq![l], d.len() as int, source);
    assert(a =~= d + seq![l.push('\r')]);
    assert(b =~= d + seq![l]);
    lemma_read_line_cr(sshconfig::read_upto(d, d.len() as int, source), l, (d.len() + 1) as usize, source);
    assert(a[d.len() as int] == l.push('\r'));
    assert(b[d.len() as int] == l);
}

/// The old text as the new text starts: ended by a newline when it was not.
pub open spec fn closed(d: Seq<char>) -> Seq<char> {
    d + (if d.len() > 0 && d.last() != '\n' {
        seq!['\n']
    } else {
        Seq::empty()
    })
}

/// The new config text splits into the old text's lines (its last line
/// closed), a blank line and the block's lines; only the block's lines for a
/// new file.
proof fn lemma_config_lines(old_text: Option<Seq<char>>, v: sshconfig::AddHostInputView)
    requires
        plain_fields(v),
    ensures
        text::lines_of(sshconfig::config_with_block(old_text, v)) == match old_text {
            None => block_lines(v),
            Some(d) => text::lines_of(closed(d)).push(Seq::empty()) + block_lines(v),
        },
{
    lemma_block_text_lines(v);
    match old_text {
        None => {},
        Some(d) => {
            let hb = sshconfig::host_block(v);
            let d2 = closed(d);
            if !(d.len() > 0 && d.last() != '\n') {
                assert(d2 =~= d);
            }
            assert(d2.len() == 0 || d2.last() == '\n');
            assert(sshconfig::config_with_block(old_text, v) =~= d2 + (seq!['\n'] + hb));
            lemma_lines_concat(d2, seq!['\n'] + hb);
            lemma_lines_concat(seq!['\n'], hb);
            lemma_one_line(Seq::empty());
            assert(Seq::<char>::empty() + seq!['\n'] =~= seq!['\n']);
            assert(text::lines_of(d2) + (seq![Seq::<char>::empty()] + block_lines(v)) =~= text::lines_of(d2).push(
                Seq::empty(),
            ) + block_lines(v));
        },
    }
}

/// Closing the old text's last line keeps the number of its lines and what
/// they give.
proof fn lemma_closed_entries(d: Seq<char>, source: Seq<char>)
    ensures
        text::lines_of(closed(d)).len() == text::lines_of(d).len(),
        sshconfig::config_entries(text::lines_of(closed(d)), source) == sshconfig::config_entries(
            text::lines_of(d),
            source,
        ),
{
    if d.len() > 0 && d.last() != '\n' {
        if d.last() == '\r' {
            lemma_close_cr_line(d);
            let ld = text::lines_of(d);
            let l = ld.last().drop_last();
            let dd = ld.drop_last();
            assert(ld =~= dd.push(l.push('\r')));
            lemma_entries_last_cr(dd, l, source);
        } else {
            lemma_close_last_line(d);
        }
    } else {
        assert(closed(d) =~= d);
    }
}

/// A blank line read at the end of a file changes nothing.
proof fn lemma_blank_line_entries(lines: Seq<Seq<char>>, source: Seq<char>)
    ensures
        sshconfig::config_entries(lines.push(Seq::empty()), source) == sshconfig::config_entries(lines, source),
{
    let l2 = lines.push(Seq::empty());
    assert(l2 =~= lines + seq![Seq::<char>::empty()]);
    lemma_read_upto_prefix(lines, seq![Seq::<char>::empty()], lines.len() as int, source);
    lemma_no_comment(Seq::empty());
    assert(text::trim(Seq::<char>::empty()) =~= Seq::<char>::empty());
    assert(l2[lines.len() as int] == Seq::<char>::empty());
}

/// The line on which an appended block starts: the first line of a new
/// file, else the line after the blank line that follows the old text.
pub open spec fn block_start(old_text: Option<Seq<char>>) -> int {
    match old_text {
        None => 1,
        Some(d) => text::lines_of(d).len() as int + 2,
    }
}

/// What a config file gave before the host was added: nothing for a file
/// that could not be read.
pub open spec fn old_entries(old_text: Option<Seq<char>>, source: Seq<char>) -> Seq<sshconfig::EntryView> {
    match old_text {
        None => Seq::empty(),
        Some(d) => sshconfig::config_entries(text::lines_of(d), source),
    }
}

/// Whether a new host reads back as it is written: its alias, trimmed, is a
/// literal pattern without whitespace, and no trimmed field holds `#` or a
/// line break.
pub open spec fn appendable(input: sshconfig::AddHostInputView) -> bool {
    let p = sshconfig::prepared(input);
    &&& sshconfig::literal_pattern(p.alias)
    &&& forall|i: int| 0 <= i < p.alias.len() ==> !text::is_ws(#[trigger] p.alias[i])
    &&& !p.alias.contains('#') && !p.alias.contains('\n')
    &&& !p.hostname.contains('#') && !p.hostname.contains('\n')
    &&& !p.user.contains('#') && !p.user.contains('\n')
    &&& !p.proxyjump.contains('#') && !p.proxyjump.contains('\n')
    &&& !p.identity_file.contains('#') && !p.identity_file.contains('\n')
}

proof fn lemma_appendable_plain(input: sshconfig::AddHostInputView)
    requires
        appendable(input),
    ensures
        plain_fields(sshconfig::prepared(input)),
{
    let p = sshconfig::prepared(input);
    text::lemma_trim_idempotent(input.alias);
    text::lemma_trim_idempotent(input.hostname);
    text::lemma_trim_idempotent(input.user);
    text::lemma_trim_idempotent(input.proxyjump);
    text::lemma_trim_idempotent(input.identity_file);
}

/// Appending a new host's block to a config file and reading the file back
/// gives what the old text gave, then the new host: its alias, host name,
/// user, port (0 unless positive), proxy jump and identity file as written,
/// its block starting on `block_start(old_text)`. This holds for every host
/// whose trimmed alias is a literal pattern without whitespace and whose
/// trimmed fields hold no `#` or line break, after any old text.
pub proof fn lemma_added_host_read_back(
    old_text: Option<Seq<char>>,
    input: sshconfig::AddHostInputView,
    source: Seq<char>,
)
    requires
        appendable(input),
    ensures
        sshconfig::config_entries(
            text::lines_of(sshconfig::config_with_block(old_text, sshconfig::prepared(input))),
            source,
        ) == old_entries(old_text, source).push(
            sshconfig::EntryView::Host(
                written_host(sshconfig::prepared(input), source, block_start(old_text) as usize),
            ),
        ),
{
    let p = sshconfig::prepared(input);
    lemma_appendable_plain(input);
    lemma_config_lines(old_text, p);
    match old_text {
        None => {
            lemma_block_read(Seq::empty(), p, source);
            assert(Seq::<Seq<char>>::empty() + block_lines(p) =~= block_lines(p));
            assert(sshconfig::config_entries(Seq::empty(), source) =~= Seq::<sshconfig::EntryView>::empty());
        },
        Some(d) => {
            let l = text::lines_of(closed(d));
            lemma_block_read(l.push(Seq::empty()), p, source);
            lemma_blank_line_entries(l, source);
            lemma_closed_entries(d, source);
        },
    }
}

// ---------------------------------------------------------------- loading it

/// A host appended to a file's entries comes after all the file's hosts,
/// whatever its includes brought in.
proof fn lemma_spliced_push(entries: Seq<sshconfig::EntryView>, inc: Seq<Seq<sshconfig::HostView>>, h: sshconfig::HostView)
    ensures
        sshconfig::spliced(entries.push(sshconfig::EntryView::Host(h)), inc) == sshconfig::spliced(entries, inc).push(h),
    decreases entries.len(),
{
    let e2 = entries.push(sshconfig::EntryView::Host(h));
    if entries.len() == 0 {
        assert(e2.drop_first() =~= Seq::<sshconfig::EntryView>::empty());
        assert(sshconfig::spliced(e2.drop_first(), inc) == Seq::<sshconfig::HostView>::empty());
        assert(e2[0] == sshconfig::EntryView::Host(h));
        assert(sshconfig::spliced(e2, inc) == seq![h] + sshconfig::spliced(e2.drop_first(), inc));
        assert(seq![h] + Seq::<sshconfig::HostView>::empty() =~= Seq::<sshconfig::HostView>::empty().push(h));
    } else {
        assert(e2.drop_first() =~= entries.drop_first().push(sshconfig::EntryView::Host(h)));
        assert(e2[0] == entries[0]);
        match entries[0] {
            sshconfig::EntryView::Host(x) => {
                lemma_spliced_push(entries.drop_first(), inc, h);
                assert(sshconfig::spliced(e2, inc) == seq![x] + sshconfig::spliced(e2.drop_first(), inc));
                assert(sshconfig::spliced(entries, inc) == seq![x] + sshconfig::spliced(entries.drop_first(), inc));
                assert(seq![x] + sshconfig::spliced(entries.drop_first(), inc).push(h) =~= (seq![x]
                    + sshconfig::spliced(entries.drop_first(), inc)).push(h));
            },
            sshconfig::EntryView::Include(_) => {
                if inc.len() > 0 {
                    lemma_spliced_push(entries.drop_first(), inc.drop_first(), h);
                    assert(sshconfig::spliced(e2, inc) == inc[0] + sshconfig::spliced(e2.drop_first(), inc.drop_first()));
                    assert(sshconfig::spliced(entries, inc) == inc[0] + sshconfig::spliced(
                        entries.drop_first(),
                        inc.drop_first(),
                    ));
                    assert(inc[0] + sshconfig::spliced(entries.drop_first(), inc.drop_first()).push(h) =~= (
                    inc[0] + sshconfig::spliced(entries.drop_first(), inc.drop_first())).push(h));
                } else {
                    lemma_spliced_push(entries.drop_first(), inc, h);
                    assert(sshconfig::spliced(e2, inc) == sshconfig::spliced(e2.drop_first(), inc));
                    assert(sshconfig::spliced(entries, inc) == sshconfig::spliced(entries.drop_first(), inc));
                }
            },
        }
    }
}

/// Merging hosts with one more host at the end keeps every alias merged
/// before and keeps the new host itself, the last one given for its alias.
pub proof fn lemma_merge_appended(
    s: Seq<sshconfig::HostView>,
    h: sshconfig::HostView,
    before: Seq<sshconfig::HostView>,
    after: Seq<sshconfig::HostView>,
)
    requires
        sshconfig::merged(s, before),
        sshconfig::merged(s.push(h), after),
    ensures
        forall|k: int| 0 <= k < before.len() ==> sshconfig::has_alias(after, #[trigger] before[k].alias),
        exists|k: int| 0 <= k < after.len() && after[k] == h,
{
    let s2 = s.push(h);
    assert forall|k: int| 0 <= k < before.len() implies sshconfig::has_alias(after, #[trigger] before[k].alias) by {
        assert(sshconfig::last_with_alias(s, before[k]));
        let j = choose|j: int|
            0 <= j < s.len() && s[j] == before[k] && forall|j2: int| j < j2 < s.len() ==> (#[trigger] s[j2]).alias
                != before[k].alias;
        assert(s2[j] == s[j]);
        assert(sshconfig::has_alias(after, s2[j].alias));
    }
    let last = s.len() as int;
    assert(s2[last] == h);
    assert(sshconfig::has_alias(after, s2[last].alias));
    let k = choose|k: int| 0 <= k < after.len() && (#[trigger] after[k]).alias == h.alias;
    assert(sshconfig::last_with_alias(s2, after[k]));
    let j = choose|j: int|
        0 <= j < s2.len() && s2[j] == after[k] && forall|j2: int| j < j2 < s2.len() ==> (#[trigger] s2[j2]).alias
            != after[k].alias;
    if j < last {
        assert(s2[last].alias == after[k].alias);
    }
    assert(after[k] == h);
}

/// Adding a host and loading the file again: every alias the file gave
/// before is still given, and the new host is given with its fields as
/// written. `before` and `after` are what loading the file gave before and
/// after (its includes reading the same both times); the host's alias and
/// fields are as `lemma_added_host_read_back` asks.
pub proof fn lemma_add_host_then_load(
    old_text: Option<Seq<char>>,
    input: sshconfig::AddHostInputView,
    source: Seq<char>,
    inc: Seq<Seq<sshconfig::HostView>>,
    before: Seq<sshconfig::HostView>,
    after: Seq<sshconfig::HostView>,
)
    requires
        appendable(input),
        sshconfig::merged(sshconfig::all_hosts(seq![sshconfig::spliced(old_entries(old_text, source), inc)]), before),
        sshconfig::merged(
            sshconfig::all_hosts(
                seq![
                    sshconfig::spliced(
                        sshconfig::config_entries(
                            text::lines_of(sshconfig::config_with_block(old_text, sshconfig::prepared(input))),
                            source,
                        ),
                        inc,
                    ),
                ],
            ),
            after,
        ),
    ensures
        forall|k: int| 0 <= k < before.len() ==> sshconfig::has_alias(after, #[trigger] before[k].alias),
        exists|k: int|
            0 <= k < after.len() && after[k] == written_host(
                sshconfig::prepared(input),
                source,
                block_start(old_text) as usize,
            ),
{
    let h = written_host(sshconfig::prepared(input), source, block_start(old_text) as usize);
    let e0 = old_entries(old_text, source);
    lemma_added_host_read_back(old_text, input, source);
    lemma_spliced_push(e0, inc, h);
    let s0 = sshconfig::spliced(e0, inc);
    let s1 = s0.push(h);
    let f0 = seq![s0];
    let f1 = seq![s1];
    assert(f0.drop_last() =~= Seq::<Seq<sshconfig::HostView>>::empty());
    assert(f1.drop_last() =~= Seq::<Seq<sshconfig::HostView>>::empty());
    assert(sshconfig::all_hosts(f0.drop_last()) == Seq::<sshconfig::HostView>::empty());
    assert(sshconfig::all_hosts(f1.drop_last()) == Seq::<sshconfig::HostView>::empty());
    assert(sshconfig::all_hosts(f0) =~= s0);
    assert(sshconfig::all_hosts(f1) =~= s1);
    lemma_merge_appended(s0, h, before, after);
}

} // verus!
