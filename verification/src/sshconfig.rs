//! The ssh_config reader: comment stripping, directive splitting, host blocks,
//! merging of several files, and the text of a new host block.

use vstd::prelude::*;
use crate::text;

verus! {

/// One concrete host alias found in an ssh config file.
#[derive(Debug)]
pub struct Host {
    pub alias: String,
    pub hostname: String,
    pub user: String,
    pub port: i32,
    pub proxyjump: String,
    pub identity_files: Vec<String>,
    pub source_path: String,
    pub source_line: usize,
}

/// The fields of a host block to append to a config file.
#[derive(Debug)]
pub struct AddHostInput {
    pub alias: String,
    pub hostname: String,
    pub user: String,
    pub port: i32,
    pub proxyjump: String,
    pub identity_file: String,
}

impl Default for AddHostInput {
    fn default() -> (r: AddHostInput)
        ensures
            r.alias@.len() == 0,
            r.hostname@.len() == 0,
            r.user@.len() == 0,
            r.port == 0,
            r.proxyjump@.len() == 0,
            r.identity_file@.len() == 0,
    {
        AddHostInput {
            alias: String::new(),
            hostname: String::new(),
            user: String::new(),
            port: 0,
            proxyjump: String::new(),
            identity_file: String::new(),
        }
    }
}

/// An exact copy of a list of strings.
pub fn copy_strings(v: &Vec<String>) -> (r: Vec<String>)
    ensures
        r@ == v@,
{
    let mut r: Vec<String> = Vec::new();
    let mut i: usize = 0;
    while i < v.len()
        invariant
            i <= v.len(),
            r@ == v@.subrange(0, i as int),
        decreases v.len() - i,
    {
        r.push(v[i].clone());
        i += 1;
        assert(r@ =~= v@.subrange(0, i as int));
    }
    assert(v@.subrange(0, v.len() as int) =~= v@);
    r
}

/// The value of a host, with each string taken as its characters.
pub struct HostView {
    pub alias: Seq<char>,
    pub hostname: Seq<char>,
    pub user: Seq<char>,
    pub port: i32,
    pub proxyjump: Seq<char>,
    pub identity_files: Seq<Seq<char>>,
    pub source_path: Seq<char>,
    pub source_line: usize,
}

/// The characters of each string in a list.
pub open spec fn strings_view(v: Seq<String>) -> Seq<Seq<char>> {
    v.map_values(|s: String| s@)
}

impl View for Host {
    type V = HostView;

    open spec fn view(&self) -> HostView {
        HostView {
            alias: self.alias@,
            hostname: self.hostname@,
            user: self.user@,
            port: self.port,
            proxyjump: self.proxyjump@,
            identity_files: strings_view(self.identity_files@),
            source_path: self.source_path@,
            source_line: self.source_line,
        }
    }
}

impl Host {
    /// An exact copy of this host.
    pub fn copy(&self) -> (r: Host)
        ensures
            r@ == self@,
    {
        Host {
            alias: self.alias.clone(),
            hostname: self.hostname.clone(),
            user: self.user.clone(),
            port: self.port,
            proxyjump: self.proxyjump.clone(),
            identity_files: copy_strings(&self.identity_files),
            source_path: self.source_path.clone(),
            source_line: self.source_line,
        }
    }
}

/// An `AddHostInput` with each string taken as its characters.
pub struct AddHostInputView {
    pub alias: Seq<char>,
    pub hostname: Seq<char>,
    pub user: Seq<char>,
    pub port: i32,
    pub proxyjump: Seq<char>,
    pub identity_file: Seq<char>,
}

impl View for AddHostInput {
    type V = AddHostInputView;

    open spec fn view(&self) -> AddHostInputView {
        AddHostInputView {
            alias: self.alias@,
            hostname: self.hostname@,
            user: self.user@,
            port: self.port,
            proxyjump: self.proxyjump@,
            identity_file: self.identity_file@,
        }
    }
}

impl AddHostInput {
    /// An exact copy of this input.
    pub fn copy(&self) -> (r: AddHostInput)
        ensures
            r@ == self@,
    {
        AddHostInput {
            alias: self.alias.clone(),
            hostname: self.hostname.clone(),
            user: self.user.clone(),
            port: self.port,
            proxyjump: self.proxyjump.clone(),
            identity_file: self.identity_file.clone(),
        }
    }
}

// ---------------------------------------------------------------- ports

pub open spec fn is_digit(c: char) -> bool {
    48 <= c as u32 <= 57
}

pub open spec fn all_digits(s: Seq<char>) -> bool {
    forall|i: int| 0 <= i < s.len() ==> is_digit(#[trigger] s[i])
}

/// The value of a string of decimal digits.
pub open spec fn digits_value(s: Seq<char>) -> nat
    decreases s.len(),
{
    if s.len() == 0 {
        0
    } else {
        digits_value(s.drop_last()) * 10 + (s.last() as u32 - 48) as nat
    }
}

/// What `str::parse::<i32>` gives: an optional sign, then one or more ASCII
/// digits, whose value fits in an `i32`.
pub open spec fn parse_i32(s: Seq<char>) -> Option<int> {
    let neg = s.len() > 0 && s[0] == '-';
    let body = if s.len() > 0 && (s[0] == '+' || s[0] == '-') {
        s.drop_first()
    } else {
        s
    };
    if body.len() == 0 || !all_digits(body) {
        None
    } else {
        let v: int = if neg {
            -(digits_value(body) as int)
        } else {
            digits_value(body) as int
        };
        if i32::MIN <= v <= i32::MAX {
            Some(v)
        } else {
            None
        }
    }
}

/// The port a `Port` value denotes: the parsed number when it is positive,
/// else 0.
pub open spec fn port_of(value: Seq<char>) -> int {
    match parse_i32(text::trim(value)) {
        Some(p) => if p > 0 {
            p
        } else {
            0
        },
        None => 0,
    }
}

proof fn lemma_digits_value_monotone(s: Seq<char>, k: int)
    requires
        all_digits(s),
        0 <= k <= s.len(),
    ensures
        digits_value(s.subrange(0, k)) <= digits_value(s),
    decreases s.len(),
{
    if k < s.len() {
        let t = s.drop_last();
        assert(all_digits(t));
        assert(t.subrange(0, k) =~= s.subrange(0, k));
        lemma_digits_value_monotone(t, k);
    } else {
        assert(s.subrange(0, k) =~= s);
    }
}

/// The value of the digits `v[start..]` when they are all digits and the
/// value is at most `i32::MAX`.
fn bounded_digits_value(v: &Vec<char>, start: usize) -> (r: Option<u64>)
    requires
        start <= v.len(),
    ensures
        ({
            let body = v@.subrange(start as int, v.len() as int);
            r == if all_digits(body) && digits_value(body) <= i32::MAX {
                Some(digits_value(body) as u64)
            } else {
                None::<u64>
            }
        }),
{
    let ghost body = v@.subrange(start as int, v.len() as int);
    let mut acc: u64 = 0;
    let mut i: usize = start;
    assert(v@.subrange(start as int, start as int) =~= Seq::<char>::empty());
    while i < v.len()
        invariant
            start <= i <= v.len(),
            body == v@.subrange(start as int, v.len() as int),
            all_digits(v@.subrange(start as int, i as int)),
            acc == digits_value(v@.subrange(start as int, i as int)),
            acc <= i32::MAX,
        decreases v.len() - i,
    {
        let c = v[i];
        let u = c as u32;
        let ghost p = v@.subrange(start as int, i + 1);
        assert(p =~= v@.subrange(start as int, i as int).push(c));
        if u < 48 || u > 57 {
            assert(!is_digit(body[i - start]));
            return None;
        }
        let next = acc * 10 + (u - 48) as u64;
        assert(p.drop_last() =~= v@.subrange(start as int, i as int));
        assert(digits_value(p) == next);
        assert(all_digits(p)) by {
            assert forall|k: int| 0 <= k < p.len() implies is_digit(#[trigger] p[k]) by {
                if k < p.len() - 1 {
                    assert(p[k] == v@.subrange(start as int, i as int)[k]);
                }
            }
        }
        if next > i32::MAX as u64 {
            proof {
                if all_digits(body) {
                    assert(body.subrange(0, i + 1 - start) =~= p);
                    lemma_digits_value_monotone(body, i + 1 - start);
                }
            }
            return None;
        }
        acc = next;
        i += 1;
    }
    assert(v@.subrange(start as int, i as int) =~= body);
    Some(acc)
}

/// The port number in `value`: its trimmed text parsed as an `i32`, or 0 when
/// that fails or is not positive.
pub fn parse_port(value: &str) -> (r: i32)
    ensures
        r == port_of(value@),
{
    let v = text::trim_chars(value);
    if v.len() == 0 {
        return 0;
    }
    if v[0] == '-' {
        return 0;
    }
    let start: usize = if v[0] == '+' {
        1
    } else {
        0
    };
    assert(v@.subrange(start as int, v.len() as int) =~= (if v@[0] == '+' || v@[0] == '-' {
        v@.drop_first()
    } else {
        v@
    }));
    match bounded_digits_value(&v, start) {
        None => 0,
        Some(n) => if n == 0 {
            0
        } else {
            n as i32
        },
    }
}

// ---------------------------------------------------------------- patterns

/// Whether a `Host` pattern names one concrete host: not empty, not negated,
/// and free of the wildcard characters `*`, `?`, `[`, `]`.
pub open spec fn literal_pattern(p: Seq<char>) -> bool {
    let t = text::trim(p);
    &&& t.len() > 0
    &&& t[0] != '!'
    &&& !t.contains('*')
    &&& !t.contains('?')
    &&& !t.contains('[')
    &&& !t.contains(']')
}

pub fn is_literal_pattern(pattern: &str) -> (r: bool)
    ensures
        r == literal_pattern(pattern@),
{
    let p = text::trim_chars(pattern);
    if p.len() == 0 || p[0] == '!' {
        return false;
    }
    !text::chars_contain(&p, '*') && !text::chars_contain(&p, '?') && !text::chars_contain(&p, '[')
        && !text::chars_contain(&p, ']')
}

// ---------------------------------------------------------------- comments

/// The quoting state `(in single quotes, in double quotes)` before `s[i]`.
pub open spec fn quote_state(s: Seq<char>, i: int) -> (bool, bool)
    decreases i,
{
    if i <= 0 {
        (false, false)
    } else {
        let (sq, dq) = quote_state(s, i - 1);
        let c = s[i - 1];
        if c == '\'' && !dq {
            (!sq, dq)
        } else if c == '"' && !sq {
            (sq, !dq)
        } else {
            (sq, dq)
        }
    }
}

/// Whether `s[i]` is a `#` outside quotes, which starts a comment.
pub open spec fn comment_at(s: Seq<char>, i: int) -> bool {
    0 <= i < s.len() && s[i] == '#' && quote_state(s, i) == (false, false)
}

proof fn lemma_quote_step(s: Seq<char>, i: int)
    requires
        0 <= i < s.len(),
    ensures
        quote_state(s, i + 1) == ({
            let (sq, dq) = quote_state(s, i);
            let c = s[i];
            if c == '\'' && !dq {
                (!sq, dq)
            } else if c == '"' && !sq {
                (sq, !dq)
            } else {
                (sq, dq)
            }
        }),
{
}

/// `s` without trailing spaces and tabs.
pub open spec fn trim_end_blank(s: Seq<char>) -> Seq<char>
    decreases s.len(),
{
    if s.len() > 0 && (s.last() == ' ' || s.last() == '\t') {
        trim_end_blank(s.drop_last())
    } else {
        s
    }
}

/// The index of the first `#` outside quotes (for a line that has one).
pub open spec fn first_comment(s: Seq<char>) -> int {
    choose|i: int| comment_at(s, i) && forall|j: int| 0 <= j < i ==> !comment_at(s, j)
}

/// `s` cut at its first `#` outside quotes, without the spaces and tabs
/// before it; all of `s` when it has no such `#`.
pub open spec fn without_comment(s: Seq<char>) -> Seq<char> {
    if exists|i: int| comment_at(s, i) {
        trim_end_blank(s.subrange(0, first_comment(s)))
    } else {
        s
    }
}

pub(crate) proof fn lemma_first_comment(s: Seq<char>, i: int)
    requires
        comment_at(s, i),
        forall|j: int| 0 <= j < i ==> !comment_at(s, j),
    ensures
        first_comment(s) == i,
{
    let k = first_comment(s);
    assert(comment_at(s, k) && forall|j: int| 0 <= j < k ==> !comment_at(s, j));
    if k < i {
        assert(!comment_at(s, k));
    } else if k > i {
        assert(!comment_at(s, i));
    }
}

pub(crate) proof fn lemma_quote_prefix(s: Seq<char>, t: Seq<char>, i: int)
    requires
        0 <= i <= s.len(),
        i <= t.len(),
        forall|j: int| 0 <= j < i ==> t[j] == s[j],
    ensures
        quote_state(t, i) == quote_state(s, i),
    decreases i,
{
    if i > 0 {
        lemma_quote_prefix(s, t, i - 1);
    }
}

proof fn lemma_trim_end_blank_prefix(p: Seq<char>)
    ensures
        trim_end_blank(p).len() <= p.len(),
        forall|j: int| 0 <= j < trim_end_blank(p).len() ==> trim_end_blank(p)[j] == p[j],
    decreases p.len(),
{
    if p.len() > 0 && (p.last() == ' ' || p.last() == '\t') {
        let q = p.drop_last();
        lemma_trim_end_blank_prefix(q);
        assert forall|j: int| 0 <= j < trim_end_blank(p).len() implies trim_end_blank(p)[j] == p[j] by {
            assert(trim_end_blank(p)[j] == q[j]);
        }
    }
}

/// Stripping a comment twice is stripping it once: what is left holds no
/// `#` outside quotes.
pub proof fn lemma_strip_comment_idempotent(s: Seq<char>)
    ensures
        without_comment(without_comment(s)) == without_comment(s),
{
    if exists|i: int| comment_at(s, i) {
        let w = choose|i: int| comment_at(s, i);
        lemma_least_comment(s, w);
        let f = first_comment(s);
        let p = s.subrange(0, f);
        let t = trim_end_blank(p);
        lemma_trim_end_blank_prefix(p);
        assert forall|i: int| !comment_at(t, i) by {
            if comment_at(t, i) {
                assert(t[i] == p[i] && p[i] == s[i]);
                assert forall|j: int| 0 <= j < i implies t[j] == s[j] by {
                    assert(t[j] == p[j]);
                }
                lemma_quote_prefix(s, t, i);
                assert(comment_at(s, i));
            }
        }
        assert(without_comment(s) == t);
    }
}

pub(crate) proof fn lemma_least_comment(s: Seq<char>, w: int)
    requires
        comment_at(s, w),
    ensures
        comment_at(s, first_comment(s)),
        forall|j: int| 0 <= j < first_comment(s) ==> !comment_at(s, j),
    decreases w,
{
    if exists|j: int| 0 <= j < w && comment_at(s, j) {
        let j = choose|j: int| 0 <= j < w && comment_at(s, j);
        lemma_least_comment(s, j);
    } else {
        lemma_first_comment(s, w);
    }
}

/// `line` cut at its first `#` outside quotes, without the spaces and tabs
/// before it; the whole line when it has no such `#`.
pub fn strip_inline_comment(line: &str) -> (r: String)
    ensures
        r@ == without_comment(line@),
{
    let v = text::chars_of(line);
    let mut in_single = false;
    let mut in_double = false;
    let mut i: usize = 0;
    while i < v.len()
        invariant
            i <= v.len(),
            v@ == line@,
            (in_single, in_double) == quote_state(v@, i as int),
            forall|j: int| 0 <= j < i ==> !comment_at(v@, j),
        decreases v.len() - i,
    {
        let c = v[i];
        proof {
            lemma_quote_step(v@, i as int);
        }
        if c == '#' && !in_single && !in_double {
            let mut end = i;
            while end > 0 && (v[end - 1] == ' ' || v[end - 1] == '\t')
                invariant
                    end <= i < v.len(),
                    trim_end_blank(v@.subrange(0, i as int)) == trim_end_blank(
                        v@.subrange(0, end as int),
                    ),
                decreases end,
            {
                proof {
                    assert(v@.subrange(0, end as int).drop_last() =~= v@.subrange(
                        0,
                        end - 1,
                    ));
                }
                end -= 1;
            }
            assert(comment_at(v@, i as int));
            proof {
                lemma_first_comment(v@, i as int);
            }
            return text::string_of_range(&v, 0, end);
        }
        if c == '\'' && !in_double {
            in_single = !in_single;
        } else if c == '"' && !in_single {
            in_double = !in_double;
        }
        i += 1;
    }
    assert(!exists|j: int| comment_at(v@, j));
    text::string_of(&v)
}

// ---------------------------------------------------------------- directives

/// A separator between a directive's keyword and its value.
pub open spec fn is_sep(c: char) -> bool {
    c == ' ' || c == '\t' || c == '='
}

/// The index of the first separator in `s`, if any.
pub open spec fn first_sep(s: Seq<char>) -> Option<int> {
    if exists|i: int| 0 <= i < s.len() && is_sep(s[i]) {
        Some(
            choose|i: int|
                0 <= i < s.len() && is_sep(s[i]) && forall|j: int| 0 <= j < i ==> !is_sep(s[j]),
        )
    } else {
        None
    }
}

/// The keyword and value of a directive line: the trimmed text before its
/// first space, tab or `=`, and the trimmed text after it.
pub open spec fn directive(line: Seq<char>) -> Option<(Seq<char>, Seq<char>)> {
    if text::trim(line).len() == 0 {
        None
    } else {
        match first_sep(line) {
            None => None,
            Some(i) => {
                let key = text::trim(line.subrange(0, i));
                let value = text::trim(line.subrange(i + 1, line.len() as int));
                if key.len() == 0 {
                    None
                } else {
                    Some((key, value))
                }
            },
        }
    }
}

proof fn lemma_least_sep(s: Seq<char>, w: int)
    requires
        0 <= w < s.len(),
        is_sep(s[w]),
    ensures
        first_sep(s) is Some,
        0 <= first_sep(s)->0 < s.len(),
        is_sep(s[first_sep(s)->0]),
        forall|j: int| 0 <= j < first_sep(s)->0 ==> !is_sep(s[j]),
    decreases w,
{
    if exists|j: int| 0 <= j < w && is_sep(s[j]) {
        let j = choose|j: int| 0 <= j < w && is_sep(s[j]);
        lemma_least_sep(s, j);
    } else {
        lemma_first_sep(s, w);
    }
}

/// A line is a directive unless it has no space, tab or `=`, or the text
/// before the first of them is blank; the keyword then holds none of them.
#[verifier::rlimit(30)]
pub proof fn lemma_directive_shape(line: Seq<char>)
    ensures
        directive(line) is None <==> (first_sep(line) is None || text::trim(
            line.subrange(0, first_sep(line)->0),
        ).len() == 0),
        directive(line) matches Some((k, v)) ==> forall|j: int| 0 <= j < k.len() ==> !is_sep(#[trigger] k[j]),
{
    text::lemma_trim_empty_iff_blank(line);
    if exists|w: int| 0 <= w < line.len() && is_sep(line[w]) {
        let w = choose|w: int| 0 <= w < line.len() && is_sep(line[w]);
        lemma_least_sep(line, w);
        let i = first_sep(line)->0;
        let pre = line.subrange(0, i);
        text::lemma_trim_empty_iff_blank(pre);
        if text::trim(line).len() == 0 {
            assert forall|k: int| 0 <= k < pre.len() implies text::is_ws(#[trigger] pre[k]) by {
                assert(pre[k] == line[k]);
                assert(text::is_ws(line[k]));
            }
        }
        let key = text::trim(pre);
        let a = text::lemma_trim_within(pre);
        assert forall|j: int| 0 <= j < key.len() implies !is_sep(#[trigger] key[j]) by {
            assert(key[j] == pre[a + j]);
            assert(pre[a + j] == line[a + j]);
        }
    }
}

pub(crate) proof fn lemma_first_sep(s: Seq<char>, i: int)
    requires
        0 <= i < s.len(),
        is_sep(s[i]),
        forall|j: int| 0 <= j < i ==> !is_sep(s[j]),
    ensures
        first_sep(s) == Some(i),
{
    let k = choose|k: int|
        0 <= k < s.len() && is_sep(s[k]) && forall|j: int| 0 <= j < k ==> !is_sep(s[j]);
    assert(k == i) by {
        if k < i {
        } else if k > i {
        }
    }
}

/// Splits a directive line into its keyword and value.
pub fn split_directive(line: &str) -> (r: Option<(String, String)>)
    ensures
        match r {
            None => directive(line@) is None,
            Some((k, v)) => directive(line@) == Some((k@, v@)),
        },
{
    let t = text::trim_chars(line);
    if t.len() == 0 {
        return None;
    }
    let v = text::chars_of(line);
    let mut i: usize = 0;
    while i < v.len() && !(v[i] == ' ' || v[i] == '\t' || v[i] == '=')
        invariant
            i <= v.len(),
            v@ == line@,
            forall|j: int| 0 <= j < i ==> !is_sep(v@[j]),
        decreases v.len() - i,
    {
        i += 1;
    }
    if i == v.len() {
        assert(first_sep(v@) is None);
        return None;
    }
    proof {
        lemma_first_sep(v@, i as int);
    }
    let key_chars = text::string_of_range(&v, 0, i);
    let value_chars = text::string_of_range(&v, i + 1, v.len());
    let key = text::trim_str(key_chars.as_str());
    let value = text::trim_str(value_chars.as_str());
    if key.as_str().is_empty() {
        return None;
    }
    Some((key, value))
}

// ---------------------------------------------------------------- words

/// The whitespace-separated words of `s[..n]`, and the word in progress.
pub open spec fn words_fold(s: Seq<char>, n: int) -> (Seq<Seq<char>>, Seq<char>)
    decreases n,
{
    if n <= 0 {
        (Seq::empty(), Seq::empty())
    } else {
        let (w, cur) = words_fold(s, n - 1);
        let c = s[n - 1];
        if text::is_ws(c) {
            if cur.len() > 0 {
                (w.push(cur), Seq::empty())
            } else {
                (w, Seq::empty())
            }
        } else {
            (w, cur.push(c))
        }
    }
}

/// The whitespace-separated words of `s`, as `str::split_whitespace` gives
/// them.
pub open spec fn words(s: Seq<char>) -> Seq<Seq<char>> {
    let (w, cur) = words_fold(s, s.len() as int);
    if cur.len() > 0 {
        w.push(cur)
    } else {
        w
    }
}

/// The whitespace-separated words of `s`.
pub fn split_words(s: &str) -> (r: Vec<String>)
    ensures
        strings_view(r@) == words(s@),
{
    let v = text::chars_of(s);
    let mut out: Vec<String> = Vec::new();
    let mut cur: Vec<char> = Vec::new();
    let mut i: usize = 0;
    while i < v.len()
        invariant
            i <= v.len(),
            v@ == s@,
            (strings_view(out@), cur@) == words_fold(v@, i as int),
        decreases v.len() - i,
    {
        if text::is_whitespace(v[i]) {
            if cur.len() > 0 {
                let w = text::string_of(&cur);
                proof {
                    assert(strings_view(out@.push(w)) =~= strings_view(out@).push(w@));
                }
                out.push(w);
                cur = Vec::new();
            }
        } else {
            cur.push(v[i]);
        }
        i += 1;
    }
    if cur.len() > 0 {
        let w = text::string_of(&cur);
        proof {
            assert(strings_view(out@.push(w)) =~= strings_view(out@).push(w@));
        }
        out.push(w);
    }
    out
}

// ---------------------------------------------------------------- host blocks

/// A `Host` block being read: its patterns and the settings the picker uses,
/// each the last value given (identity files: all of them, in order).
#[derive(Debug)]
pub struct HostBlock {
    pub patterns: Vec<String>,
    pub hostname: String,
    pub user: String,
    pub port: String,
    pub proxyjump: String,
    pub identity_files: Vec<String>,
    pub source: String,
    pub start_line: usize,
}

pub struct BlockView {
    pub patterns: Seq<Seq<char>>,
    pub hostname: Seq<char>,
    pub user: Seq<char>,
    pub port: Seq<char>,
    pub proxyjump: Seq<char>,
    pub identity_files: Seq<Seq<char>>,
    pub source: Seq<char>,
    pub start_line: usize,
}

impl View for HostBlock {
    type V = BlockView;

    open spec fn view(&self) -> BlockView {
        BlockView {
            patterns: strings_view(self.patterns@),
            hostname: self.hostname@,
            user: self.user@,
            port: self.port@,
            proxyjump: self.proxyjump@,
            identity_files: strings_view(self.identity_files@),
            source: self.source@,
            start_line: self.start_line,
        }
    }
}

/// The host a block gives for one of its patterns.
pub open spec fn block_host(b: BlockView, pattern: Seq<char>) -> HostView {
    HostView {
        alias: text::trim(pattern),
        hostname: b.hostname,
        user: b.user,
        port: port_of(b.port) as i32,
        proxyjump: b.proxyjump,
        identity_files: b.identity_files,
        source_path: b.source,
        source_line: b.start_line,
    }
}

/// The hosts of a block for its first `n` patterns: one per literal pattern.
pub open spec fn block_hosts_upto(b: BlockView, n: int) -> Seq<HostView>
    decreases n,
{
    if n <= 0 {
        Seq::empty()
    } else if literal_pattern(text::trim(b.patterns[n - 1])) {
        block_hosts_upto(b, n - 1).push(block_host(b, b.patterns[n - 1]))
    } else {
        block_hosts_upto(b, n - 1)
    }
}

/// The hosts a block gives: one per literal pattern, in order.
pub open spec fn block_hosts(b: BlockView) -> Seq<HostView> {
    block_hosts_upto(b, b.patterns.len() as int)
}

/// The views of a list of hosts.
pub open spec fn hosts_view(v: Seq<Host>) -> Seq<HostView> {
    v.map_values(|h: Host| h@)
}

impl HostBlock {
    /// The hosts this block gives.
    pub fn to_hosts(&self) -> (r: Vec<Host>)
        ensures
            hosts_view(r@) == block_hosts(self@),
    {
        let port = parse_port(self.port.as_str());
        let mut hosts: Vec<Host> = Vec::new();
        let mut i: usize = 0;
        while i < self.patterns.len()
            invariant
                i <= self.patterns.len(),
                port == port_of(self.port@),
                hosts_view(hosts@) == block_hosts_upto(self@, i as int),
            decreases self.patterns.len() - i,
        {
            let p = text::trim_str(self.patterns[i].as_str());
            assert(self@.patterns[i as int] == self.patterns@[i as int]@);
            if is_literal_pattern(p.as_str()) {
                let h = Host {
                    alias: p,
                    hostname: self.hostname.clone(),
                    user: self.user.clone(),
                    port,
                    proxyjump: self.proxyjump.clone(),
                    identity_files: copy_strings(&self.identity_files),
                    source_path: self.source.clone(),
                    source_line: self.start_line,
                };
                proof {
                    assert(hosts_view(hosts@.push(h)) =~= hosts_view(hosts@).push(h@));
                    assert(h@ == block_host(self@, self@.patterns[i as int]));
                }
                hosts.push(h);
            }
            i += 1;
        }
        hosts
    }
}

// ---------------------------------------------------------------- config files

/// An item of a config file: a host, or an `Include` with its raw argument,
/// in file order.
#[derive(Debug)]
pub enum ConfigEntry {
    Host(Host),
    Include(String),
}

pub enum EntryView {
    Host(HostView),
    Include(Seq<char>),
}

impl View for ConfigEntry {
    type V = EntryView;

    open spec fn view(&self) -> EntryView {
        match self {
            ConfigEntry::Host(h) => EntryView::Host(h@),
            ConfigEntry::Include(s) => EntryView::Include(s@),
        }
    }
}

pub open spec fn entries_view(v: Seq<ConfigEntry>) -> Seq<EntryView> {
    v.map_values(|e: ConfigEntry| e@)
}

/// The state of reading a file: the entries so far and the open block.
pub struct ReadState {
    pub out: Seq<EntryView>,
    pub current: Option<BlockView>,
}

/// The read state with the open block's hosts emitted and the block closed.
pub open spec fn flushed(st: ReadState) -> ReadState {
    match st.current {
        None => st,
        Some(b) => ReadState {
            out: st.out + block_hosts(b).map_values(|h: HostView| EntryView::Host(h)),
            current: None,
        },
    }
}

/// A block setting applied to the open block: `HostName`, `User`, `Port`
/// and `ProxyJump` keep the last value, `IdentityFile` collects them all, and
/// other keywords change nothing the picker uses.
pub open spec fn with_setting(b: BlockView, key: Seq<char>, value: Seq<char>) -> BlockView {
    if key == "identityfile"@ {
        BlockView { identity_files: b.identity_files.push(value), ..b }
    } else if key == "hostname"@ {
        BlockView { hostname: value, ..b }
    } else if key == "user"@ {
        BlockView { user: value, ..b }
    } else if key == "port"@ {
        BlockView { port: value, ..b }
    } else if key == "proxyjump"@ {
        BlockView { proxyjump: value, ..b }
    } else {
        b
    }
}

/// A directive applied to the read state, its keyword already lowercased
/// (`key_lc`; `setting_key` is the lowercase of the trimmed keyword): `Host`
/// opens a block, `Include` records its argument, `Match` closes the open
/// block; other directives set values of the open block.
pub open spec fn directive_step(
    st: ReadState,
    key_lc: Seq<char>,
    setting_key: Seq<char>,
    value: Seq<char>,
    line_no: usize,
    source: Seq<char>,
) -> ReadState {
    if key_lc == "host"@ {
        ReadState {
            current: Some(
                BlockView {
                    patterns: words(value),
                    hostname: Seq::empty(),
                    user: Seq::empty(),
                    port: Seq::empty(),
                    proxyjump: Seq::empty(),
                    identity_files: Seq::empty(),
                    source,
                    start_line: line_no,
                },
            ),
            ..flushed(st)
        }
    } else if key_lc == "include"@ {
        let f = flushed(st);
        ReadState { out: f.out.push(EntryView::Include(value)), ..f }
    } else if key_lc == "match"@ {
        flushed(st)
    } else {
        match st.current {
            None => st,
            Some(b) => ReadState { current: Some(with_setting(b, setting_key, text::trim(value))), ..st },
        }
    }
}

/// Reading one line (number `line_no`) of the file `source`: comments and
/// blank lines are skipped; a directive is applied with its keyword
/// lowercased.
pub open spec fn read_line(st: ReadState, line: Seq<char>, line_no: usize, source: Seq<char>) -> ReadState {
    let l = text::trim(without_comment(line));
    if l.len() == 0 {
        st
    } else {
        match directive(l) {
            None => st,
            Some((key, value)) => directive_step(
                st,
                text::lowered(key),
                text::lowered(text::trim(key)),
                value,
                line_no,
                source,
            ),
        }
    }
}

/// The read state after the first `n` lines.
pub open spec fn read_upto(lines: Seq<Seq<char>>, n: int, source: Seq<char>) -> ReadState
    decreases n,
{
    if n <= 0 {
        ReadState { out: Seq::empty(), current: None }
    } else {
        read_line(read_upto(lines, n - 1, source), lines[n - 1], n as usize, source)
    }
}

/// The entries of a config file with the given lines.
pub open spec fn config_entries(lines: Seq<Seq<char>>, source: Seq<char>) -> Seq<EntryView> {
    flushed(read_upto(lines, lines.len() as int, source)).out
}

/// Whether two strings are equal, the second given as a literal.
fn is_word(s: &String, lit: &str) -> (r: bool)
    ensures
        r == (s@ == lit@),
{
    text::str_eq(s.as_str(), lit)
}

/// Emits the open block's hosts and closes it.
fn flush(out: &mut Vec<ConfigEntry>, current: &mut Option<HostBlock>)
    ensures
        ({
            let st = ReadState {
                out: entries_view(old(out)@),
                current: match *old(current) {
                    None => None,
                    Some(b) => Some(b@),
                },
            };
            let f = flushed(st);
            &&& entries_view(final(out)@) == f.out
            &&& *final(current) is None
        }),
{
    if let Some(b) = current.take() {
        let hosts = b.to_hosts();
        let ghost o0 = entries_view(out@);
        let mut i: usize = 0;
        while i < hosts.len()
            invariant
                i <= hosts.len(),
                entries_view(out@) == o0 + hosts_view(hosts@).take(i as int).map_values(
                    |h: HostView| EntryView::Host(h),
                ),
            decreases hosts.len() - i,
        {
            let h = hosts[i].copy();
            proof {
                assert(entries_view(out@.push(ConfigEntry::Host(h))) =~= entries_view(out@).push(
                    EntryView::Host(h@),
                ));
                assert(hosts_view(hosts@).take(i + 1).map_values(|h: HostView| EntryView::Host(h))
                    =~= hosts_view(hosts@).take(i as int).map_values(|h: HostView| EntryView::Host(h)).push(
                    EntryView::Host(h@),
                ));
            }
            out.push(ConfigEntry::Host(h));
            i += 1;
        }
        assert(hosts_view(hosts@).take(hosts.len() as int) =~= hosts_view(hosts@));
    }
}

/// The state of reading, as a view.
pub open spec fn state_view(out: Seq<ConfigEntry>, current: Option<HostBlock>) -> ReadState {
    ReadState {
        out: entries_view(out),
        current: match current {
            None => None,
            Some(b) => Some(b@),
        },
    }
}

/// Applies a directive, its keyword lowercased (`key_lc`, and
/// `setting_key` for the trimmed keyword), to the read state.
pub fn apply_directive(
    out: &mut Vec<ConfigEntry>,
    current: &mut Option<HostBlock>,
    key_lc: &String,
    setting_key: &String,
    value: String,
    line_no: usize,
    source: &str,
)
    ensures
        state_view(final(out)@, *final(current)) == directive_step(
            state_view(old(out)@, *old(current)),
            key_lc@,
            setting_key@,
            value@,
            line_no,
            source@,
        ),
{
    if is_word(key_lc, "host") {
        flush(out, current);
        let patterns = split_words(value.as_str());
        *current = Some(
            HostBlock {
                patterns,
                hostname: String::new(),
                user: String::new(),
                port: String::new(),
                proxyjump: String::new(),
                identity_files: Vec::new(),
                source: text::copy_str(source),
                start_line: line_no,
            },
        );
        proof {
            let b = (*current)->0;
            assert(strings_view(b.identity_files@) =~= Seq::<Seq<char>>::empty());
        }
    } else if is_word(key_lc, "include") {
        flush(out, current);
        proof {
            assert(entries_view(out@.push(ConfigEntry::Include(value))) =~= entries_view(out@).push(
                EntryView::Include(value@),
            ));
        }
        out.push(ConfigEntry::Include(value));
    } else if is_word(key_lc, "match") {
        flush(out, current);
    } else {
        match current {
            None => {},
            Some(b) => {
                let v = text::trim_str(value.as_str());
                if is_word(setting_key, "identityfile") {
                    proof {
                        assert(strings_view(b.identity_files@.push(v)) =~= strings_view(
                            b.identity_files@,
                        ).push(v@));
                    }
                    b.identity_files.push(v);
                } else if is_word(setting_key, "hostname") {
                    b.hostname = v;
                } else if is_word(setting_key, "user") {
                    b.user = v;
                } else if is_word(setting_key, "port") {
                    b.port = v;
                } else if is_word(setting_key, "proxyjump") {
                    b.proxyjump = v;
                }
            },
        }
    }
}

/// Reads one line into the state.
fn read_one(
    out: &mut Vec<ConfigEntry>,
    current: &mut Option<HostBlock>,
    line: &str,
    line_no: usize,
    source: &str,
)
    ensures
        state_view(final(out)@, *final(current)) == read_line(
            state_view(old(out)@, *old(current)),
            line@,
            line_no,
            source@,
        ),
{
    let stripped = strip_inline_comment(line);
    let l = text::trim_str(stripped.as_str());
    if l.as_str().is_empty() {
        return;
    }
    let (key, value) = match split_directive(l.as_str()) {
        None => {
            return;
        },
        Some(kv) => kv,
    };
    let k = text::to_lowercase(key.as_str());
    let key_t = text::trim_str(key.as_str());
    let k2 = text::to_lowercase(key_t.as_str());
    apply_directive(out, current, &k, &k2, value, line_no, source);
}

/// Reads the lines of the config file `source` into its hosts and includes,
/// in file order. Lines are numbered from 1.
pub fn parse_config(lines: &Vec<String>, source: &str) -> (r: Vec<ConfigEntry>)
    requires
        lines.len() < usize::MAX,
    ensures
        entries_view(r@) == config_entries(strings_view(lines@), source@),
{
    let mut out: Vec<ConfigEntry> = Vec::new();
    let mut current: Option<HostBlock> = None;
    let mut i: usize = 0;
    assert(entries_view(out@) =~= Seq::<EntryView>::empty());
    while i < lines.len()
        invariant
            i <= lines.len() < usize::MAX,
            state_view(out@, current) == read_upto(strings_view(lines@), i as int, source@),
        decreases lines.len() - i,
    {
        assert(strings_view(lines@)[i as int] == lines@[i as int]@);
        read_one(&mut out, &mut current, lines[i].as_str(), i + 1, source);
        i += 1;
    }
    flush(&mut out, &mut current);
    out
}

/// The hosts of a file's entries, each `Include` replaced by the hosts it
/// brought in: `inc[k]` for the `k`-th `Include` (none when `inc` runs out).
pub open spec fn spliced(entries: Seq<EntryView>, inc: Seq<Seq<HostView>>) -> Seq<HostView>
    decreases entries.len(),
{
    if entries.len() == 0 {
        Seq::empty()
    } else {
        match entries[0] {
            EntryView::Host(h) => seq![h] + spliced(entries.drop_first(), inc),
            EntryView::Include(_) => if inc.len() > 0 {
                inc[0] + spliced(entries.drop_first(), inc.drop_first())
            } else {
                spliced(entries.drop_first(), inc)
            },
        }
    }
}

/// The hosts of a file in order, the hosts of each `Include` (read by the
/// caller, `included[k]` for the `k`-th) in its place.
pub fn hosts_of_entries(entries: &Vec<ConfigEntry>, included: &Vec<Vec<Host>>) -> (r: Vec<Host>)
    ensures
        hosts_view(r@) == spliced(entries_view(entries@), included@.map_values(|v: Vec<Host>| hosts_view(v@))),
{
    let ghost ev = entries_view(entries@);
    let ghost iv = included@.map_values(|v: Vec<Host>| hosts_view(v@));
    let mut out: Vec<Host> = Vec::new();
    let mut e: usize = 0;
    let mut k: usize = 0;
    proof {
        assert(ev.skip(0) =~= ev);
        assert(iv.skip(0) =~= iv);
        assert(hosts_view(out@) =~= Seq::<HostView>::empty());
    }
    while e < entries.len()
        invariant
            e <= entries.len(),
            k <= included.len(),
            ev == entries_view(entries@),
            iv == included@.map_values(|v: Vec<Host>| hosts_view(v@)),
            hosts_view(out@) + spliced(ev.skip(e as int), iv.skip(k as int)) == spliced(ev, iv),
        decreases entries.len() - e,
    {
        let ghost o0 = hosts_view(out@);
        proof {
            assert(ev.skip(e as int)[0] == entries@[e as int]@);
            assert(ev.skip(e as int).drop_first() =~= ev.skip(e + 1));
        }
        match &entries[e] {
            ConfigEntry::Host(h) => {
                let c = h.copy();
                proof {
                    assert(hosts_view(out@.push(c)) =~= o0.push(h@));
                }
                out.push(c);
                proof {
                    assert(hosts_view(out@) + spliced(ev.skip(e + 1), iv.skip(k as int)) =~= o0 + (seq![h@]
                        + spliced(ev.skip(e + 1), iv.skip(k as int))));
                }
            },
            ConfigEntry::Include(_) => {
                if k < included.len() {
                    let row = &included[k];
                    let mut j: usize = 0;
                    while j < row.len()
                        invariant
                            j <= row.len(),
                            hosts_view(out@) == o0 + hosts_view(row@).take(j as int),
                        decreases row.len() - j,
                    {
                        let c = row[j].copy();
                        proof {
                            assert(hosts_view(out@.push(c)) =~= hosts_view(out@).push(c@));
                            assert(hosts_view(row@).take(j + 1) =~= hosts_view(row@).take(j as int).push(c@));
                        }
                        out.push(c);
                        j += 1;
                    }
                    proof {
                        assert(hosts_view(row@).take(row.len() as int) =~= hosts_view(row@));
                        assert(iv.skip(k as int)[0] == hosts_view(row@));
                        assert(iv.skip(k as int).drop_first() =~= iv.skip(k + 1));
                        assert(hosts_view(out@) + spliced(ev.skip(e + 1), iv.skip(k + 1)) =~= o0 + (hosts_view(row@)
                            + spliced(ev.skip(e + 1), iv.skip(k + 1))));
                    }
                    k += 1;
                } else {
                    proof {
                        assert(iv.skip(k as int).len() == 0);
                    }
                }
            },
        }
        e += 1;
    }
    proof {
        assert(ev.skip(e as int) =~= Seq::<EntryView>::empty());
        assert(hosts_view(out@) + Seq::<HostView>::empty() =~= hosts_view(out@));
    }
    out
}

/// The guard against include cycles: a file is read only on its first
/// visit. Returns whether `path` is new, and records it if so.
pub fn first_visit(visited: &mut Vec<String>, path: &str) -> (r: bool)
    ensures
        r == !strings_view(old(visited)@).contains(path@),
        strings_view(final(visited)@) == if r {
            strings_view(old(visited)@).push(path@)
        } else {
            strings_view(old(visited)@)
        },
{
    if crate::state::contains_string(visited, path) {
        return false;
    }
    let p = text::copy_str(path);
    proof {
        assert(strings_view(visited@.push(p)) =~= strings_view(visited@).push(p@));
    }
    visited.push(p);
    true
}

/// Visiting the paths `ps` in turn with `first_visit`, starting from the
/// recorded paths `visited`: whether each visit was a first one, and the
/// paths recorded at the end.
pub open spec fn visits(visited: Seq<Seq<char>>, ps: Seq<Seq<char>>) -> (Seq<bool>, Seq<Seq<char>>)
    decreases ps.len(),
{
    if ps.len() == 0 {
        (Seq::empty(), visited)
    } else {
        let (acc, v) = visits(visited, ps.drop_last());
        let p = ps.last();
        if v.contains(p) {
            (acc.push(false), v)
        } else {
            (acc.push(true), v.push(p))
        }
    }
}

/// Whatever order a walk through includes reaches files in, each file is
/// read once: a visit is a first one exactly when its path was not recorded
/// before the walk and was not visited earlier in it, and at the end the
/// recorded paths are those recorded before and those visited.
pub proof fn lemma_each_file_read_once(visited: Seq<Seq<char>>, ps: Seq<Seq<char>>)
    ensures
        visits(visited, ps).0.len() == ps.len(),
        forall|i: int|
            0 <= i < ps.len() ==> (#[trigger] visits(visited, ps).0[i] <==> (!visited.contains(ps[i]) && forall|
                j: int,
            | 0 <= j < i ==> ps[j] != ps[i])),
        forall|x: Seq<char>|
            #[trigger] visits(visited, ps).1.contains(x) <==> (visited.contains(x) || ps.contains(x)),
    decreases ps.len(),
{
    if ps.len() > 0 {
        let q = ps.drop_last();
        lemma_each_file_read_once(visited, q);
        let (acc, v) = visits(visited, q);
        let p = ps.last();
        let n = q.len() as int;
        let r = visits(visited, ps);
        assert forall|i: int| 0 <= i < ps.len() implies (#[trigger] r.0[i] <==> (!visited.contains(ps[i]) && forall|
            j: int,
        | 0 <= j < i ==> ps[j] != ps[i])) by {
            if i < n {
                assert(r.0[i] == acc[i]);
                assert(ps[i] == q[i]);
                assert forall|j: int| 0 <= j < i implies ps[j] == q[j] by {}
            } else {
                assert(ps[i] == p);
                if v.contains(p) {
                    assert(visited.contains(p) || q.contains(p));
                    if q.contains(p) {
                        let j = choose|j: int| 0 <= j < q.len() && q[j] == p;
                        assert(ps[j] == q[j]);
                    }
                } else {
                    assert forall|j: int| 0 <= j < i implies ps[j] != ps[i] by {
                        assert(ps[j] == q[j]);
                        assert(q.contains(q[j]));
                    }
                }
            }
        }
        assert forall|x: Seq<char>| #[trigger] r.1.contains(x) <==> (visited.contains(x) || ps.contains(x)) by {
            if ps.contains(x) && !q.contains(x) {
                let j = choose|j: int| 0 <= j < ps.len() && ps[j] == x;
                if j < n {
                    assert(q[j] == x);
                }
                assert(x == p);
                if !v.contains(p) {
                    assert(v.push(p)[v.len() as int] == p);
                }
            }
            if q.contains(x) {
                let j = choose|j: int| 0 <= j < q.len() && q[j] == x;
                assert(ps[j] == x);
            }
            if !v.contains(p) && v.push(p).contains(x) {
                let j = choose|j: int| 0 <= j < v.push(p).len() && v.push(p)[j] == x;
                if j < v.len() {
                    assert(v[j] == x);
                } else {
                    assert(ps[ps.len() - 1] == x);
                }
            }
            if !v.contains(p) && v.contains(x) {
                let j = choose|j: int| 0 <= j < v.len() && v[j] == x;
                assert(v.push(p)[j] == x);
            }
        }
    }
}

// ---------------------------------------------------------------- merging files

/// The order of strings: lexicographic by character (for UTF-8 text the same
/// as by bytes, the order of `String`).
pub open spec fn str_lt(a: Seq<char>, b: Seq<char>) -> bool
    decreases a.len(),
{
    if a.len() == 0 {
        b.len() > 0
    } else if b.len() == 0 {
        false
    } else if a[0] != b[0] {
        (a[0] as u32) < (b[0] as u32)
    } else {
        str_lt(a.drop_first(), b.drop_first())
    }
}

pub proof fn lemma_str_lt_irreflexive(a: Seq<char>)
    ensures
        !str_lt(a, a),
    decreases a.len(),
{
    if a.len() > 0 {
        lemma_str_lt_irreflexive(a.drop_first());
    }
}

pub proof fn lemma_str_lt_transitive(a: Seq<char>, b: Seq<char>, c: Seq<char>)
    requires
        str_lt(a, b),
        str_lt(b, c),
    ensures
        str_lt(a, c),
    decreases a.len(),
{
    if a.len() > 0 && b.len() > 0 && c.len() > 0 && a[0] == b[0] && b[0] == c[0] {
        lemma_str_lt_transitive(a.drop_first(), b.drop_first(), c.drop_first());
    }
}

pub proof fn lemma_str_lt_total(a: Seq<char>, b: Seq<char>)
    requires
        a != b,
    ensures
        str_lt(a, b) || str_lt(b, a),
    decreases a.len(),
{
    if a.len() == 0 && b.len() == 0 {
        assert(a =~= b);
    } else if a.len() > 0 && b.len() > 0 && a[0] != b[0] {
        vstd::utf8::char_u32_cast(a[0], a[0] as u32);
        vstd::utf8::char_u32_cast(b[0], b[0] as u32);
    } else if a.len() > 0 && b.len() > 0 && a[0] == b[0] {
        if a.drop_first() =~= b.drop_first() {
            assert(a =~= seq![a[0]] + a.drop_first());
            assert(b =~= seq![b[0]] + b.drop_first());
        }
        lemma_str_lt_total(a.drop_first(), b.drop_first());
    }
}

/// Whether `a` sorts before `b`.
pub fn str_less(a: &str, b: &str) -> (r: bool)
    ensures
        r == str_lt(a@, b@),
{
    let va = text::chars_of(a);
    let vb = text::chars_of(b);
    let mut i: usize = 0;
    proof {
        assert(va@.subrange(0, va@.len() as int) =~= a@);
        assert(vb@.subrange(0, vb@.len() as int) =~= b@);
    }
    while i < va.len() && i < vb.len() && va[i] == vb[i]
        invariant
            i <= va.len(),
            i <= vb.len(),
            va@ == a@,
            vb@ == b@,
            str_lt(a@, b@) == str_lt(va@.subrange(i as int, va@.len() as int), vb@.subrange(i as int, vb@.len() as int)),
        decreases va.len() - i,
    {
        proof {
            let sa = va@.subrange(i as int, va@.len() as int);
            let sb = vb@.subrange(i as int, vb@.len() as int);
            assert(sa.drop_first() =~= va@.subrange(i + 1, va@.len() as int));
            assert(sb.drop_first() =~= vb@.subrange(i + 1, vb@.len() as int));
        }
        i += 1;
    }
    let ghost sa = va@.subrange(i as int, va@.len() as int);
    let ghost sb = vb@.subrange(i as int, vb@.len() as int);
    if i == va.len() {
        i < vb.len()
    } else if i == vb.len() {
        false
    } else {
        assert(sa[0] == va@[i as int] && sb[0] == vb@[i as int]);
        (va[i] as u32) < (vb[i] as u32)
    }
}

/// Whether `h` is the last host in `s` with its alias.
pub open spec fn last_with_alias(s: Seq<HostView>, h: HostView) -> bool {
    exists|j: int|
        0 <= j < s.len() && s[j] == h && forall|j2: int| j < j2 < s.len() ==> (#[trigger] s[j2]).alias != h.alias
}

/// Whether the hosts are in strictly increasing alias order.
pub open spec fn sorted_by_alias(out: Seq<HostView>) -> bool {
    forall|k1: int, k2: int|
        0 <= k1 < k2 < out.len() ==> str_lt((#[trigger] out[k1]).alias, (#[trigger] out[k2]).alias)
}

/// Whether each host of `out` is the last one in `s` with its alias.
pub open spec fn all_last(s: Seq<HostView>, out: Seq<HostView>) -> bool {
    forall|k: int| 0 <= k < out.len() ==> last_with_alias(s, #[trigger] out[k])
}

/// Whether some host of `out` has the alias `a`.
pub open spec fn has_alias(out: Seq<HostView>, a: Seq<char>) -> bool {
    exists|k: int| 0 <= k < out.len() && (#[trigger] out[k]).alias == a
}

/// Whether each alias of `s` has a host in `out`.
pub open spec fn covers(s: Seq<HostView>, out: Seq<HostView>) -> bool {
    forall|j: int| 0 <= j < s.len() ==> has_alias(out, (#[trigger] s[j]).alias)
}

/// Whether `out` merges the hosts `s`: one host per alias, the last one
/// given for it, sorted by alias.
pub open spec fn merged(s: Seq<HostView>, out: Seq<HostView>) -> bool {
    &&& sorted_by_alias(out)
    &&& all_last(s, out)
    &&& covers(s, out)
}

#[verifier::opaque]
pub open spec fn merged_opaque(s: Seq<HostView>, out: Seq<HostView>) -> bool {
    merged(s, out)
}

proof fn lemma_sorted_distinct(out: Seq<HostView>, k1: int, k2: int)
    requires
        sorted_by_alias(out),
        0 <= k1 < out.len(),
        0 <= k2 < out.len(),
        k1 != k2,
    ensures
        out[k1].alias != out[k2].alias,
{
    lemma_str_lt_irreflexive(out[k1].alias);
    if k1 < k2 {
        assert(str_lt(out[k1].alias, out[k2].alias));
    } else {
        assert(str_lt(out[k2].alias, out[k1].alias));
    }
}

proof fn lemma_last_kept(s: Seq<HostView>, x: HostView, h: HostView)
    requires
        last_with_alias(s, x),
        x.alias != h.alias,
    ensures
        last_with_alias(s.push(h), x),
{
    let s2 = s.push(h);
    let j = choose|j: int|
        0 <= j < s.len() && s[j] == x && forall|j2: int| j < j2 < s.len() ==> (#[trigger] s[j2]).alias != x.alias;
    assert(s2[j] == x);
    assert forall|j2: int| j < j2 < s2.len() implies (#[trigger] s2[j2]).alias != x.alias by {
        if j2 < s.len() {
            assert(s2[j2] == s[j2]);
        }
    }
}

proof fn lemma_last_new(s: Seq<HostView>, h: HostView)
    ensures
        last_with_alias(s.push(h), h),
{
    assert(s.push(h)[s.len() as int] == h);
}

proof fn lemma_merge_replace(s: Seq<HostView>, out: Seq<HostView>, h: HostView, pos: int)
    requires
        merged_opaque(s, out),
        0 <= pos < out.len(),
        out[pos].alias == h.alias,
    ensures
        merged_opaque(s.push(h), out.update(pos, h)),
{
    reveal(merged_opaque);
    let s2 = s.push(h);
    let o2 = out.update(pos, h);
    assert forall|k: int| 0 <= k < o2.len() implies (#[trigger] o2[k]).alias == out[k].alias by {}
    assert forall|k1: int, k2: int| 0 <= k1 < k2 < o2.len() implies str_lt(
        (#[trigger] o2[k1]).alias,
        (#[trigger] o2[k2]).alias,
    ) by {
        assert(o2[k1].alias == out[k1].alias && o2[k2].alias == out[k2].alias);
        assert(str_lt(out[k1].alias, out[k2].alias));
    }
    assert forall|k: int| 0 <= k < o2.len() implies last_with_alias(s2, #[trigger] o2[k]) by {
        if k == pos {
            lemma_last_new(s, h);
        } else {
            lemma_sorted_distinct(out, k, pos);
            assert(last_with_alias(s, out[k]));
            lemma_last_kept(s, out[k], h);
        }
    }
    assert forall|j: int| 0 <= j < s2.len() implies has_alias(o2, (#[trigger] s2[j]).alias) by {
        if j == s.len() {
            assert(o2[pos].alias == s2[j].alias);
        } else {
            assert(s2[j] == s[j]);
            assert(has_alias(out, s[j].alias));
            let k = choose|k: int| 0 <= k < out.len() && (#[trigger] out[k]).alias == s[j].alias;
            assert(o2[k].alias == out[k].alias);
            assert(o2[k].alias == s2[j].alias);
        }
    }
}

proof fn lemma_merge_insert(s: Seq<HostView>, out: Seq<HostView>, h: HostView, pos: int)
    requires
        merged_opaque(s, out),
        0 <= pos <= out.len(),
        forall|k: int| 0 <= k < pos ==> str_lt((#[trigger] out[k]).alias, h.alias),
        pos < out.len() ==> str_lt(h.alias, out[pos].alias),
    ensures
        merged_opaque(s.push(h), out.insert(pos, h)),
{
    reveal(merged_opaque);
    let s2 = s.push(h);
    let o2 = out.insert(pos, h);
    out.insert_ensures(pos, h);
    assert forall|k: int| pos < k < out.len() implies str_lt(h.alias, (#[trigger] out[k]).alias) by {
        assert(str_lt(out[pos].alias, out[k].alias));
        lemma_str_lt_transitive(h.alias, out[pos].alias, out[k].alias);
    }
    assert forall|k: int| 0 <= k < out.len() implies (#[trigger] out[k]).alias != h.alias by {
        lemma_str_lt_irreflexive(h.alias);
    }
    assert forall|k: int| 0 <= k < o2.len() implies o2[k] == if k < pos {
        out[k]
    } else if k == pos {
        h
    } else {
        out[k - 1]
    } by {
        if k > pos {
            assert(o2[(k - 1) + 1] == out[k - 1]);
        }
    }
    assert forall|k1: int, k2: int| 0 <= k1 < k2 < o2.len() implies str_lt(
        (#[trigger] o2[k1]).alias,
        (#[trigger] o2[k2]).alias,
    ) by {
        if k2 < pos {
        } else if k1 > pos {
            assert(str_lt(out[k1 - 1].alias, out[k2 - 1].alias));
        } else if k1 < pos && k2 > pos {
            assert(str_lt(out[k1].alias, out[k2 - 1].alias));
        } else if k1 < pos {
        } else {
        }
    }
    assert forall|k: int| 0 <= k < o2.len() implies last_with_alias(s2, #[trigger] o2[k]) by {
        if k == pos {
            lemma_last_new(s, h);
        } else {
            let k0 = if k < pos {
                k
            } else {
                k - 1
            };
            assert(o2[k] == out[k0]);
            assert(last_with_alias(s, out[k0]));
            lemma_last_kept(s, out[k0], h);
        }
    }
    assert forall|j: int| 0 <= j < s2.len() implies has_alias(o2, (#[trigger] s2[j]).alias) by {
        if j == s.len() {
            assert(o2[pos].alias == s2[j].alias);
        } else {
            assert(s2[j] == s[j]);
            assert(has_alias(out, s[j].alias));
            let k = choose|k: int| 0 <= k < out.len() && (#[trigger] out[k]).alias == s[j].alias;
            if k < pos {
                assert(o2[k].alias == s2[j].alias);
            } else {
                assert(o2[k + 1].alias == s2[j].alias);
            }
        }
    }
}

/// Adds `h` to a merged list: it replaces the host with its alias, or goes
/// in at its place in alias order.
fn merge_one(out: &mut Vec<Host>, h: &Host, Ghost(s): Ghost<Seq<HostView>>)
    requires
        merged_opaque(s, hosts_view(old(out)@)),
    ensures
        merged_opaque(s.push(h@), hosts_view(final(out)@)),
{
    let ghost o0 = hosts_view(out@);
    let mut pos: usize = 0;
    while pos < out.len() && str_less(out[pos].alias.as_str(), h.alias.as_str())
        invariant
            pos <= out.len(),
            hosts_view(out@) == o0,
            forall|k: int| 0 <= k < pos ==> str_lt((#[trigger] o0[k]).alias, h@.alias),
        decreases out.len() - pos,
    {
        assert(o0[pos as int] == out@[pos as int]@);
        pos += 1;
    }
    if pos < out.len() {
        assert(o0[pos as int] == out@[pos as int]@);
    }
    if pos < out.len() && text::str_eq(out[pos].alias.as_str(), h.alias.as_str()) {
        let c = h.copy();
        proof {
            lemma_merge_replace(s, o0, h@, pos as int);
            assert(hosts_view(out@.update(pos as int, c)) =~= o0.update(pos as int, h@));
        }
        out.set(pos, c);
    } else {
        proof {
            if pos < out.len() {
                lemma_str_lt_total(o0[pos as int].alias, h@.alias);
            }
            lemma_merge_insert(s, o0, h@, pos as int);
        }
        let c = h.copy();
        proof {
            assert(hosts_view(out@.insert(pos as int, c)) =~= o0.insert(pos as int, h@));
        }
        out.insert(pos, c);
    }
}

/// Merges hosts read in order: one host per alias, the last one read for
/// it, sorted by alias.
pub fn merge_hosts(hosts: &Vec<Host>) -> (r: Vec<Host>)
    ensures
        merged(hosts_view(hosts@), hosts_view(r@)),
{
    let mut out: Vec<Host> = Vec::new();
    let mut j: usize = 0;
    proof {
        reveal(merged_opaque);
        assert(hosts_view(hosts@).take(0) =~= Seq::<HostView>::empty());
        assert(hosts_view(out@) =~= Seq::<HostView>::empty());
    }
    while j < hosts.len()
        invariant
            j <= hosts.len(),
            merged_opaque(hosts_view(hosts@).take(j as int), hosts_view(out@)),
        decreases hosts.len() - j,
    {
        proof {
            assert(hosts_view(hosts@).take(j + 1) =~= hosts_view(hosts@).take(j as int).push(hosts@[j as int]@));
        }
        merge_one(&mut out, &hosts[j], Ghost(hosts_view(hosts@).take(j as int)));
        j += 1;
    }
    proof {
        reveal(merged_opaque);
        assert(hosts_view(hosts@).take(hosts.len() as int) =~= hosts_view(hosts@));
    }
    out
}

/// Why the hosts could not be loaded.
#[derive(Debug)]
pub enum ConfigError {
    /// No config file was named.
    NoPaths,
}

impl ConfigError {
    /// The error's message.
    pub fn message(&self) -> (r: String)
        ensures
            r@ == "no ssh config paths provided"@,
    {
        String::from_str("no ssh config paths provided")
    }
}

/// The hosts of all files, in file order.
pub open spec fn all_hosts(files: Seq<Seq<HostView>>) -> Seq<HostView>
    decreases files.len(),
{
    if files.len() == 0 {
        Seq::empty()
    } else {
        all_hosts(files.drop_last()) + files.last()
    }
}

/// The hosts of the config files, given as the hosts read from each file
/// (includes already expanded), in the order the files were named: one host
/// per alias, the last one read for it, sorted by alias. Naming no file is an
/// error.
pub fn load(files: &Vec<Vec<Host>>) -> (r: Result<Vec<Host>, ConfigError>)
    ensures
        files.len() == 0 <==> r is Err,
        r matches Ok(hosts) ==> merged(all_hosts(files@.map_values(|v: Vec<Host>| hosts_view(v@))), hosts_view(hosts@)),
{
    if files.len() == 0 {
        return Err(ConfigError::NoPaths);
    }
    let ghost fv = files@.map_values(|v: Vec<Host>| hosts_view(v@));
    let mut flat: Vec<Host> = Vec::new();
    let mut i: usize = 0;
    proof {
        assert(fv.take(0) =~= Seq::<Seq<HostView>>::empty());
        assert(hosts_view(flat@) =~= Seq::<HostView>::empty());
    }
    while i < files.len()
        invariant
            i <= files.len(),
            fv == files@.map_values(|v: Vec<Host>| hosts_view(v@)),
            hosts_view(flat@) == all_hosts(fv.take(i as int)),
        decreases files.len() - i,
    {
        let row = &files[i];
        let ghost before = hosts_view(flat@);
        let mut k: usize = 0;
        while k < row.len()
            invariant
                k <= row.len(),
                hosts_view(flat@) == before + hosts_view(row@).take(k as int),
            decreases row.len() - k,
        {
            let h = row[k].copy();
            proof {
                assert(hosts_view(flat@.push(h)) =~= hosts_view(flat@).push(h@));
                assert(hosts_view(row@).take(k + 1) =~= hosts_view(row@).take(k as int).push(h@));
            }
            flat.push(h);
            k += 1;
        }
        proof {
            assert(hosts_view(row@).take(row.len() as int) =~= hosts_view(row@));
            assert(fv.take(i + 1).drop_last() =~= fv.take(i as int));
            assert(fv[i as int] == hosts_view(row@));
        }
        i += 1;
    }
    proof {
        assert(fv.take(files.len() as int) =~= fv);
    }
    Ok(merge_hosts(&flat))
}

// ---------------------------------------------------------------- adding a host

/// Why a new host was refused.
#[derive(Debug)]
pub enum AddHostError {
    /// The alias is blank.
    AliasRequired,
    /// A host with this alias is already configured.
    AliasExists(String),
}

impl AddHostError {
    /// The error's message.
    pub fn message(&self) -> (r: String)
        ensures
            match self {
                AddHostError::AliasRequired => r@ == "alias is required"@,
                AddHostError::AliasExists(a) => r@ == "host alias already exists: "@ + a@,
            },
    {
        match self {
            AddHostError::AliasRequired => String::from_str("alias is required"),
            AddHostError::AliasExists(a) => {
                let mut r = String::from_str("host alias already exists: ");
                text::push_str(&mut r, a.as_str());
                r
            },
        }
    }
}

/// The new host's fields as they are written: each trimmed, and the host
/// name defaulting to the alias.
pub open spec fn prepared(v: AddHostInputView) -> AddHostInputView {
    let alias = text::trim(v.alias);
    let hostname = text::trim(v.hostname);
    AddHostInputView {
        alias,
        hostname: if hostname.len() == 0 {
            alias
        } else {
            hostname
        },
        user: text::trim(v.user),
        port: v.port,
        proxyjump: text::trim(v.proxyjump),
        identity_file: text::trim(v.identity_file),
    }
}

/// Checks a new host against the hosts already configured: the alias must
/// not be blank and must not be taken. On success the fields come back as
/// they will be written.
pub fn prepare_new_host(input: &AddHostInput, existing: &Vec<Host>) -> (r: Result<AddHostInput, AddHostError>)
    ensures
        (r matches Err(AddHostError::AliasRequired)) <==> text::trim(input@.alias).len() == 0,
        r matches Err(AddHostError::AliasExists(a)) ==> a@ == text::trim(input@.alias),
        (r is Err && !(r matches Err(AddHostError::AliasRequired))) <==> (text::trim(input@.alias).len() > 0
            && has_alias(hosts_view(existing@), text::trim(input@.alias))),
        r matches Ok(v) ==> v@ == prepared(input@),
{
    let alias = text::trim_str(input.alias.as_str());
    let mut hostname = text::trim_str(input.hostname.as_str());
    let user = text::trim_str(input.user.as_str());
    let proxyjump = text::trim_str(input.proxyjump.as_str());
    let identity_file = text::trim_str(input.identity_file.as_str());
    if alias.as_str().is_empty() {
        proof {
            assert(alias@.len() == 0);
        }
        return Err(AddHostError::AliasRequired);
    }
    if hostname.as_str().is_empty() {
        hostname = alias.clone();
    }
    let mut i: usize = 0;
    while i < existing.len()
        invariant
            i <= existing.len(),
            alias@ == text::trim(input@.alias),
            alias@.len() > 0,
            forall|k: int| 0 <= k < i ==> (#[trigger] existing@[k])@.alias != alias@,
        decreases existing.len() - i,
    {
        if text::str_eq(existing[i].alias.as_str(), alias.as_str()) {
            proof {
                assert(hosts_view(existing@)[i as int].alias == alias@);
            }
            return Err(AddHostError::AliasExists(alias));
        }
        i += 1;
    }
    proof {
        if has_alias(hosts_view(existing@), alias@) {
            let k = choose|k: int|
                0 <= k < hosts_view(existing@).len() && (#[trigger] hosts_view(existing@)[k]).alias == alias@;
            assert(existing@[k]@.alias == alias@);
        }
    }
    Ok(AddHostInput { alias, hostname, user, port: input.port, proxyjump, identity_file })
}

/// A line `  <keyword> <value>` of a host block, if the value is not empty.
pub open spec fn setting_line(keyword: Seq<char>, value: Seq<char>) -> Seq<char> {
    if value.len() == 0 {
        Seq::empty()
    } else {
        keyword + value + seq!['\n']
    }
}

/// The block written for a new host: `Host` and `HostName` always, `User`,
/// `Port`, `ProxyJump` and `IdentityFile` when given (a port when positive).
pub open spec fn host_block(v: AddHostInputView) -> Seq<char> {
    "Host "@ + v.alias + seq!['\n'] + "  HostName "@ + v.hostname + seq!['\n'] + setting_line(
        "  User "@,
        v.user,
    ) + (if v.port > 0 {
        "  Port "@ + text::decimal(v.port as nat) + seq!['\n']
    } else {
        Seq::empty()
    }) + setting_line("  ProxyJump "@, v.proxyjump) + setting_line("  IdentityFile "@, v.identity_file)
}

/// The config file's new text: the old text (when the file could be read),
/// ended by a newline and followed by a blank line, then the host's block.
pub open spec fn config_with_block(old_text: Option<Seq<char>>, v: AddHostInputView) -> Seq<char> {
    match old_text {
        None => host_block(v),
        Some(d) => d + (if d.len() > 0 && d.last() != '\n' {
            seq!['\n']
        } else {
            Seq::empty()
        }) + seq!['\n'] + host_block(v),
    }
}

fn push_setting(s: &mut String, keyword: &str, value: &String)
    ensures
        final(s)@ == old(s)@ + setting_line(keyword@, value@),
{
    if !value.as_str().is_empty() {
        let ghost s0 = s@;
        text::push_str(s, keyword);
        text::push_str(s, value.as_str());
        s.push('\n');
        assert(s@ =~= s0 + setting_line(keyword@, value@));
    } else {
        assert(value@.len() == 0);
        assert(s@ =~= s@ + setting_line(keyword@, value@));
    }
}

/// The text of the block written for a new host.
pub fn host_block_text(input: &AddHostInput) -> (r: String)
    ensures
        r@ == host_block(input@),
{
    let mut b = String::from_str("Host ");
    text::push_str(&mut b, input.alias.as_str());
    b.push('\n');
    text::push_str(&mut b, "  HostName ");
    text::push_str(&mut b, input.hostname.as_str());
    b.push('\n');
    let ghost head = b@;
    push_setting(&mut b, "  User ", &input.user);
    let ghost with_user = b@;
    if input.port > 0 {
        text::push_str(&mut b, "  Port ");
        let d = text::decimal_string(input.port as u64);
        text::push_str(&mut b, d.as_str());
        b.push('\n');
    }
    let ghost with_port = b@;
    push_setting(&mut b, "  ProxyJump ", &input.proxyjump);
    push_setting(&mut b, "  IdentityFile ", &input.identity_file);
    proof {
        let v = input@;
        assert(head =~= "Host "@ + v.alias + seq!['\n'] + "  HostName "@ + v.hostname + seq!['\n']);
        let port_part = if v.port > 0 {
            "  Port "@ + text::decimal(v.port as nat) + seq!['\n']
        } else {
            Seq::empty()
        };
        assert(with_port =~= with_user + port_part);
        assert(b@ =~= host_block(v));
    }
    b
}

/// The config file's text after adding the host: the old text, when there is
/// one, ended by a newline and a blank line, then the host's block.
pub fn config_with_host(old_text: Option<String>, input: &AddHostInput) -> (r: String)
    ensures
        r@ == config_with_block(
            match old_text {
                None => None,
                Some(d) => Some(d@),
            },
            input@,
        ),
{
    let block = host_block_text(input);
    match old_text {
        None => block,
        Some(d) => {
            let mut b = d;
            let ghost d0 = b@;
            let needs_newline = if b.as_str().is_empty() {
                false
            } else {
                let mut t = b.clone();
                let last = t.pop();
                match last {
                    Some(c) => c != '\n',
                    None => false,
                }
            };
            if needs_newline {
                b.push('\n');
            }
            b.push('\n');
            text::push_str(&mut b, block.as_str());
            proof {
                let sep = if d0.len() > 0 && d0.last() != '\n' {
                    seq!['\n']
                } else {
                    Seq::<char>::empty()
                };
                assert(b@ =~= d0 + sep + seq!['\n'] + host_block(input@));
            }
            b
        },
    }
}

/// The config file's new text after adding a host: the host is checked
/// against the hosts already configured (`prepare_new_host`), and its block
/// is appended to the old text (`config_with_host`).
pub fn add_host(old_text: Option<String>, input: &AddHostInput, existing: &Vec<Host>) -> (r: Result<String, AddHostError>)
    ensures
        (r matches Err(AddHostError::AliasRequired)) <==> text::trim(input@.alias).len() == 0,
        r matches Err(AddHostError::AliasExists(a)) ==> a@ == text::trim(input@.alias),
        (r is Err && !(r matches Err(AddHostError::AliasRequired))) <==> (text::trim(input@.alias).len() > 0
            && has_alias(hosts_view(existing@), text::trim(input@.alias))),
        r matches Ok(t) ==> t@ == config_with_block(
            match old_text {
                None => None,
                Some(d) => Some(d@),
            },
            prepared(input@),
        ),
{
    let ready = prepare_new_host(input, existing)?;
    Ok(config_with_host(old_text, &ready))
}

/// A host as `list --json` reports it: the port only when positive.
#[derive(Debug)]
pub struct ListEntry {
    pub alias: String,
    pub hostname: String,
    pub user: String,
    pub port: Option<i32>,
    pub proxyjump: String,
    pub identity_files: Vec<String>,
}

/// The entries `list --json` reports, one per host, in order.
pub fn list_entries(hosts: &Vec<Host>) -> (r: Vec<ListEntry>)
    ensures
        r.len() == hosts.len(),
        forall|i: int|
            0 <= i < hosts.len() ==> {
                let e = #[trigger] r@[i];
                let h = hosts@[i]@;
                &&& e.alias@ == h.alias
                &&& e.hostname@ == h.hostname
                &&& e.user@ == h.user
                &&& e.port == (if h.port > 0 {
                    Some(h.port)
                } else {
                    None
                })
                &&& e.proxyjump@ == h.proxyjump
                &&& strings_view(e.identity_files@) == h.identity_files
            },
{
    let mut r: Vec<ListEntry> = Vec::new();
    let mut i: usize = 0;
    while i < hosts.len()
        invariant
            i <= hosts.len(),
            r.len() == i,
            forall|k: int|
                0 <= k < i ==> {
                    let e = #[trigger] r@[k];
                    let h = hosts@[k]@;
                    &&& e.alias@ == h.alias
                    &&& e.hostname@ == h.hostname
                    &&& e.user@ == h.user
                    &&& e.port == (if h.port > 0 {
                        Some(h.port)
                    } else {
                        None
                    })
                    &&& e.proxyjump@ == h.proxyjump
                    &&& strings_view(e.identity_files@) == h.identity_files
                },
        decreases hosts.len() - i,
    {
        let h = &hosts[i];
        r.push(
            ListEntry {
                alias: h.alias.clone(),
                hostname: h.hostname.clone(),
                user: h.user.clone(),
                port: if h.port > 0 {
                    Some(h.port)
                } else {
                    None
                },
                proxyjump: h.proxyjump.clone(),
                identity_files: copy_strings(&h.identity_files),
            },
        );
        i += 1;
    }
    r
}

// ---------------------------------------------------------------- laws of loading

/// Whether every host entry has a literal pattern as its alias.
pub open spec fn entries_literal(out: Seq<EntryView>) -> bool {
    forall|k: int| 0 <= k < out.len() ==> (#[trigger] out[k] matches EntryView::Host(h) ==> literal_pattern(h.alias))
}

/// Whether every host has a literal pattern as its alias.
pub open spec fn hosts_literal(hs: Seq<HostView>) -> bool {
    forall|k: int| 0 <= k < hs.len() ==> literal_pattern(#[trigger] hs[k].alias)
}

proof fn lemma_block_hosts_literal(b: BlockView, n: int)
    ensures
        hosts_literal(block_hosts_upto(b, n)),
    decreases n,
{
    if n > 0 {
        lemma_block_hosts_literal(b, n - 1);
        let p = b.patterns[n - 1];
        if literal_pattern(text::trim(p)) {
            let prev = block_hosts_upto(b, n - 1);
            let hs = prev.push(block_host(b, p));
            assert forall|k: int| 0 <= k < hs.len() implies literal_pattern(#[trigger] hs[k].alias) by {
                if k < prev.len() {
                    assert(hs[k] == prev[k]);
                }
            }
        }
    }
}

proof fn lemma_flushed_literal(st: ReadState)
    requires
        entries_literal(st.out),
    ensures
        entries_literal(flushed(st).out),
{
    match st.current {
        None => {},
        Some(b) => {
            let hs = block_hosts(b);
            lemma_block_hosts_literal(b, b.patterns.len() as int);
            let add = hs.map_values(|h: HostView| EntryView::Host(h));
            let out = st.out + add;
            assert forall|k: int| 0 <= k < out.len() implies (#[trigger] out[k] matches EntryView::Host(h)
                ==> literal_pattern(h.alias)) by {
                if k < st.out.len() {
                    assert(out[k] == st.out[k]);
                } else {
                    assert(out[k] == add[k - st.out.len()]);
                    assert(add[k - st.out.len()] == EntryView::Host(hs[k - st.out.len()]));
                }
            }
        },
    }
}

proof fn lemma_read_upto_literal(lines: Seq<Seq<char>>, n: int, source: Seq<char>)
    ensures
        entries_literal(read_upto(lines, n, source).out),
    decreases n,
{
    if n > 0 {
        lemma_read_upto_literal(lines, n - 1, source);
        let st = read_upto(lines, n - 1, source);
        lemma_flushed_literal(st);
        let f = flushed(st);
        assert forall|v: Seq<char>| #![auto] entries_literal(f.out.push(EntryView::Include(v))) by {
            let o = f.out.push(EntryView::Include(v));
            assert forall|k: int| 0 <= k < o.len() implies (#[trigger] o[k] matches EntryView::Host(h)
                ==> literal_pattern(h.alias)) by {
                if k < f.out.len() {
                    assert(o[k] == f.out[k]);
                }
            }
        }
    }
}

/// Every host a config file gives has a literal pattern (not empty, not
/// negated, no wildcard) as its alias.
pub proof fn lemma_config_hosts_literal(lines: Seq<Seq<char>>, source: Seq<char>)
    ensures
        entries_literal(config_entries(lines, source)),
{
    lemma_read_upto_literal(lines, lines.len() as int, source);
    lemma_flushed_literal(read_upto(lines, lines.len() as int, source));
}

/// Splicing the hosts of included files into a file keeps all aliases
/// literal.
pub proof fn lemma_spliced_literal(entries: Seq<EntryView>, inc: Seq<Seq<HostView>>)
    requires
        entries_literal(entries),
        forall|i: int| 0 <= i < inc.len() ==> hosts_literal(#[trigger] inc[i]),
    ensures
        hosts_literal(spliced(entries, inc)),
    decreases entries.len(),
{
    if entries.len() > 0 {
        let rest = entries.drop_first();
        assert(entries_literal(rest)) by {
            assert forall|k: int| 0 <= k < rest.len() implies (#[trigger] rest[k] matches EntryView::Host(h)
                ==> literal_pattern(h.alias)) by {
                assert(rest[k] == entries[k + 1]);
            }
        }
        match entries[0] {
            EntryView::Host(h) => {
                lemma_spliced_literal(rest, inc);
                let t = spliced(rest, inc);
                let r = seq![h] + t;
                assert(entries[0] matches EntryView::Host(h2) ==> literal_pattern(h2.alias));
                assert forall|k: int| 0 <= k < r.len() implies literal_pattern(#[trigger] r[k].alias) by {
                    if k > 0 {
                        assert(r[k] == t[k - 1]);
                    }
                }
            },
            EntryView::Include(_) => {
                if inc.len() > 0 {
                    let i2 = inc.drop_first();
                    assert forall|i: int| 0 <= i < i2.len() implies hosts_literal(#[trigger] i2[i]) by {
                        assert(i2[i] == inc[i + 1]);
                    }
                    lemma_spliced_literal(rest, i2);
                    let t = spliced(rest, i2);
                    let r = inc[0] + t;
                    assert(hosts_literal(inc[0]));
                    assert forall|k: int| 0 <= k < r.len() implies literal_pattern(#[trigger] r[k].alias) by {
                        if k < inc[0].len() {
                            assert(r[k] == inc[0][k]);
                        } else {
                            assert(r[k] == t[k - inc[0].len()]);
                        }
                    }
                } else {
                    lemma_spliced_literal(rest, inc);
                }
            },
        }
    }
}

proof fn lemma_all_hosts_literal(files: Seq<Seq<HostView>>)
    requires
        forall|i: int| 0 <= i < files.len() ==> hosts_literal(#[trigger] files[i]),
    ensures
        hosts_literal(all_hosts(files)),
    decreases files.len(),
{
    if files.len() > 0 {
        let p = files.drop_last();
        assert forall|i: int| 0 <= i < p.len() implies hosts_literal(#[trigger] p[i]) by {
            assert(p[i] == files[i]);
        }
        lemma_all_hosts_literal(p);
        let a = all_hosts(p);
        let l = files.last();
        assert(hosts_literal(files[files.len() - 1]));
        let r = a + l;
        assert forall|k: int| 0 <= k < r.len() implies literal_pattern(#[trigger] r[k].alias) by {
            if k < a.len() {
                assert(r[k] == a[k]);
            } else {
                assert(r[k] == l[k - a.len()]);
            }
        }
    }
}

/// Loading keeps only literal aliases: when every file's hosts have literal
/// aliases (as `lemma_config_hosts_literal` and `lemma_spliced_literal` give
/// for parsed files), so does every host of the merged result, each of which
/// is the last host read for its alias.
pub proof fn lemma_load_literal(files: Seq<Seq<HostView>>, out: Seq<HostView>)
    requires
        forall|i: int| 0 <= i < files.len() ==> hosts_literal(#[trigger] files[i]),
        merged(all_hosts(files), out),
    ensures
        hosts_literal(out),
{
    lemma_all_hosts_literal(files);
    let s = all_hosts(files);
    assert forall|k: int| 0 <= k < out.len() implies literal_pattern(#[trigger] out[k].alias) by {
        assert(last_with_alias(s, out[k]));
        let j = choose|j: int|
            0 <= j < s.len() && s[j] == out[k] && forall|j2: int| j < j2 < s.len() ==> (#[trigger] s[j2]).alias
                != out[k].alias;
        assert(literal_pattern(s[j].alias));
    }
}

} // verus!
