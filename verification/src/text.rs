//! Character-level helpers shared by the parsers and command builders.
//!
//! Strings are handled through their view, the sequence of their `char`s.

use vstd::prelude::*;
use vstd::string::StringExecFns;

verus! {

/// `String::push`, as its documentation describes it: the character is
/// appended at the end.
pub assume_specification[ String::push ](s: &mut String, ch: char)
    ensures
        final(s)@ == old(s)@.push(ch),
;

/// `String::pop`, as its documentation describes it: the last character is
/// removed and returned, and an empty string gives `None` and stays empty.
pub assume_specification[ String::pop ](s: &mut String) -> (r: Option<char>)
    ensures
        old(s)@.len() == 0 ==> r is None && final(s)@ == old(s)@,
        old(s)@.len() > 0 ==> r == Some(old(s)@.last()) && final(s)@ == old(s)@.drop_last(),
;

/// Whitespace as `char::is_whitespace` defines it: the Unicode `White_Space`
/// property.
pub open spec fn is_ws(c: char) -> bool {
    let u = c as u32;
    ||| 9 <= u <= 13
    ||| u == 32
    ||| u == 0x85
    ||| u == 0xA0
    ||| u == 0x1680
    ||| 0x2000 <= u <= 0x200A
    ||| u == 0x2028
    ||| u == 0x2029
    ||| u == 0x202F
    ||| u == 0x205F
    ||| u == 0x3000
}

/// `s` without its leading whitespace.
pub open spec fn trim_start(s: Seq<char>) -> Seq<char>
    decreases s.len(),
{
    if s.len() > 0 && is_ws(s[0]) {
        trim_start(s.drop_first())
    } else {
        s
    }
}

/// `s` without its trailing whitespace.
pub open spec fn trim_end(s: Seq<char>) -> Seq<char>
    decreases s.len(),
{
    if s.len() > 0 && is_ws(s.last()) {
        trim_end(s.drop_last())
    } else {
        s
    }
}

/// `s` without leading and trailing whitespace, as `str::trim` gives it.
pub open spec fn trim(s: Seq<char>) -> Seq<char> {
    trim_end(trim_start(s))
}

proof fn lemma_trim_start_first(s: Seq<char>)
    ensures
        trim_start(s).len() == 0 || !is_ws(trim_start(s)[0]),
    decreases s.len(),
{
    if s.len() > 0 && is_ws(s[0]) {
        lemma_trim_start_first(s.drop_first());
    }
}

proof fn lemma_trim_end_prefix(s: Seq<char>)
    ensures
        trim_end(s).len() <= s.len(),
        trim_end(s) == s.take(trim_end(s).len() as int),
        trim_end(s).len() == 0 || !is_ws(trim_end(s).last()),
    decreases s.len(),
{
    if s.len() > 0 && is_ws(s.last()) {
        lemma_trim_end_prefix(s.drop_last());
        assert(s.drop_last().take(trim_end(s).len() as int) =~= s.take(trim_end(s).len() as int));
    } else {
        assert(s.take(s.len() as int) =~= s);
    }
}

/// Trimming twice is trimming once.
pub proof fn lemma_trim_idempotent(s: Seq<char>)
    ensures
        trim(trim(s)) == trim(s),
{
    let a = trim_start(s);
    let u = trim_end(a);
    lemma_trim_start_first(s);
    lemma_trim_end_prefix(a);
    if u.len() > 0 {
        assert(u[0] == a[0]);
    }
    assert(trim_start(u) == u);
    assert(trim_end(u) == u);
}

/// A trimmed string that is not empty starts and ends with a character that
/// is not whitespace.
pub proof fn lemma_trim_ends(s: Seq<char>)
    ensures
        trim(s).len() > 0 ==> !is_ws(trim(s)[0]) && !is_ws(trim(s).last()),
{
    let a = trim_start(s);
    lemma_trim_start_first(s);
    lemma_trim_end_prefix(a);
    if trim(s).len() > 0 {
        assert(trim(s)[0] == a[0]);
    }
}

proof fn lemma_trim_start_suffix(s: Seq<char>)
    ensures
        trim_start(s).len() <= s.len(),
        forall|k: int| 0 <= k < trim_start(s).len() ==> trim_start(s)[k] == s[k + (s.len() - trim_start(s).len())],
        trim_start(s).len() == 0 <==> forall|k: int| 0 <= k < s.len() ==> is_ws(#[trigger] s[k]),
    decreases s.len(),
{
    if s.len() > 0 && is_ws(s[0]) {
        let t = s.drop_first();
        lemma_trim_start_suffix(t);
        if trim_start(t).len() == 0 {
            assert forall|k: int| 0 <= k < s.len() implies is_ws(#[trigger] s[k]) by {
                if k > 0 {
                    assert(s[k] == t[k - 1]);
                }
            }
        }
        if forall|k: int| 0 <= k < s.len() ==> is_ws(#[trigger] s[k]) {
            assert forall|k: int| 0 <= k < t.len() implies is_ws(#[trigger] t[k]) by {
                assert(t[k] == s[k + 1]);
            }
        }
    } else if s.len() > 0 {
        assert(!is_ws(s[0]));
    }
}

proof fn lemma_trim_end_blank(s: Seq<char>)
    ensures
        trim_end(s).len() == 0 ==> forall|k: int| 0 <= k < s.len() ==> is_ws(#[trigger] s[k]),
    decreases s.len(),
{
    if s.len() > 0 && is_ws(s.last()) {
        let t = s.drop_last();
        lemma_trim_end_blank(t);
        if trim_end(t).len() == 0 {
            assert forall|k: int| 0 <= k < s.len() implies is_ws(#[trigger] s[k]) by {
                if k < t.len() {
                    assert(s[k] == t[k]);
                }
            }
        }
    }
}

/// A string trims to nothing exactly when it is all whitespace.
pub proof fn lemma_trim_empty_iff_blank(s: Seq<char>)
    ensures
        trim(s).len() == 0 <==> forall|k: int| 0 <= k < s.len() ==> is_ws(#[trigger] s[k]),
{
    lemma_trim_start_suffix(s);
    lemma_trim_start_first(s);
    let a = trim_start(s);
    lemma_trim_end_blank(a);
    lemma_trim_end_prefix(a);
    if trim(s).len() == 0 && a.len() > 0 {
        assert(is_ws(a[0]));
    }
}

/// The trimmed string is a run of consecutive characters of the string,
/// starting at the returned offset.
pub proof fn lemma_trim_within(s: Seq<char>) -> (a: int)
    ensures
        0 <= a,
        a + trim(s).len() <= s.len(),
        forall|k: int| 0 <= k < trim(s).len() ==> #[trigger] trim(s)[k] == s[a + k],
{
    lemma_trim_start_suffix(s);
    let t = trim_start(s);
    lemma_trim_end_prefix(t);
    let a = s.len() - t.len();
    assert forall|k: int| 0 <= k < trim(s).len() implies #[trigger] trim(s)[k] == s[a + k] by {
        assert(trim(s)[k] == t[k]);
    }
    a
}

/// Whether `p` is a prefix of `s`.
pub open spec fn has_prefix(s: Seq<char>, p: Seq<char>) -> bool {
    p.len() <= s.len() && s.subrange(0, p.len() as int) == p
}

/// Unicode lowercase of a string, as `str::to_lowercase` computes it.
pub uninterp spec fn lowercase(s: Seq<char>) -> Seq<char>;

/// Whether every character of `s` is ASCII.
pub open spec fn all_ascii(s: Seq<char>) -> bool {
    forall|i: int| 0 <= i < s.len() ==> (#[trigger] s[i] as u32) < 128
}

/// The ASCII lowercase of a character: `A`..`Z` become `a`..`z`, all else
/// stays.
pub open spec fn ascii_lower(c: char) -> char {
    let u = c as u32;
    if 65 <= u <= 90 {
        (u + 32) as char
    } else {
        c
    }
}

/// The ASCII lowercase of a string, character by character.
pub open spec fn lower_ascii(s: Seq<char>) -> Seq<char> {
    s.map_values(|c: char| ascii_lower(c))
}

/// ASCII lowercasing distributes over concatenation.
pub proof fn lemma_lower_ascii_concat(a: Seq<char>, b: Seq<char>)
    ensures
        lower_ascii(a + b) == lower_ascii(a) + lower_ascii(b),
{
    assert(lower_ascii(a + b) =~= lower_ascii(a) + lower_ascii(b));
}

/// Concatenated ASCII text is ASCII.
pub proof fn lemma_all_ascii_concat(a: Seq<char>, b: Seq<char>)
    requires
        all_ascii(a),
        all_ascii(b),
    ensures
        all_ascii(a + b),
{
    assert forall|i: int| 0 <= i < (a + b).len() implies (#[trigger] (a + b)[i] as u32) < 128 by {
        if i < a.len() {
            assert((a + b)[i] == a[i]);
        } else {
            assert((a + b)[i] == b[i - a.len()]);
        }
    }
}

/// Lowercased ASCII text stays ASCII.
pub proof fn lemma_lower_ascii_ascii(s: Seq<char>)
    requires
        all_ascii(s),
    ensures
        all_ascii(lower_ascii(s)),
{
    assert forall|i: int| 0 <= i < lower_ascii(s).len() implies (#[trigger] lower_ascii(s)[i] as u32) < 128 by {
        assert(lower_ascii(s)[i] == ascii_lower(s[i]));
        assert((s[i] as u32) < 128);
    }
}

/// Calls `str::to_lowercase`. The contract claims that the result is the
/// lowercase mapping of the argument, a function of the argument alone, and
/// that on ASCII text it is the ASCII lowercase, character by character (the
/// Unicode lowercase of an ASCII letter is its ASCII lowercase, and other
/// ASCII characters have none). The Unicode case tables beyond ASCII are not
/// stated.
#[verifier::external_body]
pub fn to_lowercase(s: &str) -> (r: String)
    ensures
        r@ == lowercase(s@),
        all_ascii(s@) ==> r@ == lower_ascii(s@),
{
    s.to_lowercase()
}

/// The lowercase of `s` as `to_lowercase` is known to give it: ASCII text
/// lowercased letter by letter, other text its Unicode lowercase.
pub open spec fn lowered(s: Seq<char>) -> Seq<char> {
    if all_ascii(s) {
        lower_ascii(s)
    } else {
        lowercase(s)
    }
}

pub fn is_whitespace(c: char) -> (b: bool)
    ensures
        b == is_ws(c),
{
    let u = c as u32;
    (9 <= u && u <= 13) || u == 32 || u == 0x85 || u == 0xA0 || u == 0x1680 || (0x2000 <= u && u
        <= 0x200A) || u == 0x2028 || u == 0x2029 || u == 0x202F || u == 0x205F || u == 0x3000
}

/// The characters of `s`, in order.
pub fn chars_of(s: &str) -> (v: Vec<char>)
    ensures
        v@ == s@,
{
    let mut v: Vec<char> = Vec::new();
    for c in it: s.chars()
        invariant
            v@ == it.seq().take(it.index() as int),
    {
        v.push(c);
    }
    v
}

/// A line ended by `\n`, as `str::lines` hands it out: without a `\r`
/// right before the `\n`.
pub open spec fn without_cr(l: Seq<char>) -> Seq<char> {
    if l.len() > 0 && l.last() == '\r' {
        l.drop_last()
    } else {
        l
    }
}

/// The lines ended by `\n` among the first `n` characters of `s`, and the
/// line in progress after them.
pub open spec fn lines_fold(s: Seq<char>, n: int) -> (Seq<Seq<char>>, Seq<char>)
    decreases n,
{
    if n <= 0 {
        (Seq::empty(), Seq::empty())
    } else {
        let (done, cur) = lines_fold(s, n - 1);
        if s[n - 1] == '\n' {
            (done.push(without_cr(cur)), Seq::empty())
        } else {
            (done, cur.push(s[n - 1]))
        }
    }
}

/// The lines of `s`, as `str::lines` gives them: split at each `\n`, a `\r`
/// right before it dropped, and a last line without `\n` kept when it is not
/// empty.
pub open spec fn lines_of(s: Seq<char>) -> Seq<Seq<char>> {
    let (done, cur) = lines_fold(s, s.len() as int);
    if cur.len() > 0 {
        done.push(cur)
    } else {
        done
    }
}

/// The lines of a text.
pub fn split_lines(s: &str) -> (r: Vec<String>)
    ensures
        r@.map_values(|x: String| x@) == lines_of(s@),
{
    let v = chars_of(s);
    let mut out: Vec<String> = Vec::new();
    let mut cur = String::new();
    let mut i: usize = 0;
    assert(out@.map_values(|x: String| x@) =~= Seq::<Seq<char>>::empty());
    while i < v.len()
        invariant
            i <= v.len(),
            v@ == s@,
            out@.map_values(|x: String| x@) == lines_fold(s@, i as int).0,
            cur@ == lines_fold(s@, i as int).1,
        decreases v.len() - i,
    {
        let c = v[i];
        if c == '\n' {
            let mut line = cur;
            cur = String::new();
            let ghost l0 = line@;
            let last = line.pop();
            match last {
                Some(ch) => {
                    if ch != '\r' {
                        line.push(ch);
                        assert(line@ =~= l0);
                    }
                },
                None => {},
            }
            assert(line@ == without_cr(l0));
            proof {
                assert(out@.push(line).map_values(|x: String| x@) =~= out@.map_values(|x: String| x@).push(
                    line@,
                ));
            }
            out.push(line);
        } else {
            cur.push(c);
        }
        i += 1;
    }
    if !cur.as_str().is_empty() {
        proof {
            assert(out@.push(cur).map_values(|x: String| x@) =~= out@.map_values(|x: String| x@).push(cur@));
        }
        out.push(cur);
    } else {
        assert(cur@.len() == 0);
    }
    assert(s@.len() == v.len());
    out
}

/// A string holding the characters `v[from..to]`.
pub fn string_of_range(v: &Vec<char>, from: usize, to: usize) -> (s: String)
    requires
        from <= to <= v.len(),
    ensures
        s@ == v@.subrange(from as int, to as int),
{
    let mut s = String::new();
    let mut i = from;
    while i < to
        invariant
            from <= i <= to <= v.len(),
            s@ == v@.subrange(from as int, i as int),
        decreases to - i,
    {
        s.push(v[i]);
        i += 1;
        assert(s@ =~= v@.subrange(from as int, i as int));
    }
    s
}

/// A string holding the characters of `v`.
pub fn string_of(v: &Vec<char>) -> (s: String)
    ensures
        s@ == v@,
{
    let s = string_of_range(v, 0, v.len());
    assert(v@.subrange(0, v.len() as int) =~= v@);
    s
}

/// A copy of `s`.
pub fn copy_str(s: &str) -> (r: String)
    ensures
        r@ == s@,
{
    String::from_str(s)
}

proof fn lemma_trim_start_step(s: Seq<char>, i: int)
    requires
        0 <= i < s.len(),
        is_ws(s[i]),
    ensures
        trim_start(s.subrange(i, s.len() as int)) == trim_start(s.subrange(i + 1, s.len() as int)),
{
    let t = s.subrange(i, s.len() as int);
    assert(t.drop_first() =~= s.subrange(i + 1, s.len() as int));
}

proof fn lemma_trim_end_step(s: Seq<char>, a: int, j: int)
    requires
        0 <= a < j <= s.len(),
        is_ws(s[j - 1]),
    ensures
        trim_end(s.subrange(a, j)) == trim_end(s.subrange(a, j - 1)),
{
    let t = s.subrange(a, j);
    assert(t.drop_last() =~= s.subrange(a, j - 1));
}

/// Bounds `(a, b)` such that `v[a..b]` is `v` trimmed.
pub fn trim_bounds(v: &Vec<char>) -> (r: (usize, usize))
    ensures
        r.0 <= r.1 <= v.len(),
        trim(v@) == v@.subrange(r.0 as int, r.1 as int),
{
    let n = v.len();
    let mut a: usize = 0;
    assert(v@.subrange(0, n as int) =~= v@);
    while a < n && is_whitespace(v[a])
        invariant
            a <= n == v.len(),
            trim_start(v@) == trim_start(v@.subrange(a as int, n as int)),
        decreases n - a,
    {
        proof {
            lemma_trim_start_step(v@, a as int);
        }
        a += 1;
    }
    assert(trim_start(v@.subrange(a as int, n as int)) == v@.subrange(a as int, n as int));
    let mut b: usize = n;
    while b > a && is_whitespace(v[b - 1])
        invariant
            a <= b <= n == v.len(),
            trim(v@) == trim_end(v@.subrange(a as int, b as int)),
        decreases b - a,
    {
        proof {
            lemma_trim_end_step(v@, a as int, b as int);
        }
        b -= 1;
    }
    (a, b)
}

/// `s` trimmed, as characters.
pub fn trim_chars(s: &str) -> (r: Vec<char>)
    ensures
        r@ == trim(s@),
{
    let v = chars_of(s);
    let (a, b) = trim_bounds(&v);
    let mut r: Vec<char> = Vec::new();
    let mut i = a;
    while i < b
        invariant
            a <= i <= b <= v.len(),
            r@ == v@.subrange(a as int, i as int),
        decreases b - i,
    {
        r.push(v[i]);
        i += 1;
        assert(r@ =~= v@.subrange(a as int, i as int));
    }
    r
}

/// `s` trimmed, as `str::trim` gives it.
pub fn trim_str(s: &str) -> (r: String)
    ensures
        r@ == trim(s@),
{
    let v = chars_of(s);
    let (a, b) = trim_bounds(&v);
    string_of_range(&v, a, b)
}

/// Whether two character sequences are equal.
pub fn chars_eq(a: &Vec<char>, b: &Vec<char>) -> (r: bool)
    ensures
        r == (a@ == b@),
{
    if a.len() != b.len() {
        return false;
    }
    let mut i: usize = 0;
    while i < a.len()
        invariant
            i <= a.len() == b.len(),
            forall|k: int| 0 <= k < i ==> a@[k] == b@[k],
        decreases a.len() - i,
    {
        if a[i] != b[i] {
            return false;
        }
        i += 1;
    }
    assert(a@ =~= b@);
    true
}

/// Whether two strings are equal.
pub fn str_eq(a: &str, b: &str) -> (r: bool)
    ensures
        r == (a@ == b@),
{
    let va = chars_of(a);
    let vb = chars_of(b);
    chars_eq(&va, &vb)
}

/// Whether `p` is a prefix of `s`.
pub fn chars_has_prefix(s: &Vec<char>, p: &Vec<char>) -> (r: bool)
    ensures
        r == has_prefix(s@, p@),
{
    if p.len() > s.len() {
        return false;
    }
    let mut i: usize = 0;
    while i < p.len()
        invariant
            i <= p.len() <= s.len(),
            forall|k: int| 0 <= k < i ==> s@[k] == p@[k],
        decreases p.len() - i,
    {
        if s[i] != p[i] {
            assert(s@.subrange(0, p.len() as int)[i as int] != p@[i as int]);
            return false;
        }
        i += 1;
    }
    assert(s@.subrange(0, p.len() as int) =~= p@);
    true
}

/// Whether `c` occurs in `v`.
pub fn chars_contain(v: &Vec<char>, c: char) -> (r: bool)
    ensures
        r == v@.contains(c),
{
    let mut i: usize = 0;
    while i < v.len()
        invariant
            i <= v.len(),
            forall|k: int| 0 <= k < i ==> v@[k] != c,
        decreases v.len() - i,
    {
        if v[i] == c {
            return true;
        }
        i += 1;
    }
    false
}

/// Appends `t` to `s`.
pub fn push_str(s: &mut String, t: &str)
    ensures
        final(s)@ == old(s)@ + t@,
{
    s.append(t);
}

/// Decimal digits of a natural number, most significant first, no sign.
pub open spec fn decimal(n: nat) -> Seq<char>
    decreases n,
{
    if n < 10 {
        seq![digit_char(n)]
    } else {
        decimal(n / 10).push(digit_char(n % 10))
    }
}

/// The ASCII digit for `d` (`d < 10`).
pub open spec fn digit_char(d: nat) -> char {
    (48 + d) as char
}

/// The ASCII digit for `d`.
pub fn digit(d: u64) -> (c: char)
    requires
        d < 10,
    ensures
        c == digit_char(d as nat),
{
    match d {
        0 => '0',
        1 => '1',
        2 => '2',
        3 => '3',
        4 => '4',
        5 => '5',
        6 => '6',
        7 => '7',
        8 => '8',
        _ => '9',
    }
}

/// The decimal representation of `n`, as `u64::to_string` writes it.
pub fn decimal_string(n: u64) -> (s: String)
    ensures
        s@ == decimal(n as nat),
{
    let mut digits: Vec<char> = Vec::new();
    let mut m = n;
    // digits holds the low-order digits of n, least significant first
    proof {
        assert(decimal(n as nat) == decimal(m as nat) + digits@.reverse());
    }
    while m >= 10
        invariant
            decimal(n as nat) == decimal(m as nat) + digits@.reverse(),
        decreases m,
    {
        let c = digit(m % 10);
        proof {
            assert(decimal(m as nat) == decimal((m / 10) as nat).push(c));
            assert(digits@.push(c).reverse() =~= seq![c] + digits@.reverse());
            assert(decimal((m / 10) as nat).push(c) + digits@.reverse() =~= decimal((m / 10) as nat)
                + (seq![c] + digits@.reverse()));
        }
        digits.push(c);
        m = m / 10;
    }
    let c = digit(m);
    let mut s = String::new();
    s.push(c);
    assert(s@ =~= decimal(m as nat));
    let mut i = digits.len();
    while i > 0
        invariant
            i <= digits.len(),
            s@ + digits@.subrange(0, i as int).reverse() == decimal(n as nat),
        decreases i,
    {
        proof {
            let pre = digits@.subrange(0, i as int);
            assert(pre.reverse() =~= seq![pre.last()] + digits@.subrange(0, i - 1).reverse());
            assert(pre.last() == digits@[i - 1]);
        }
        s.push(digits[i - 1]);
        i -= 1;
        proof {
            assert(s@ + digits@.subrange(0, i as int).reverse() =~= decimal(n as nat));
        }
    }
    assert(digits@.subrange(0, 0).reverse() =~= Seq::<char>::empty());
    assert(s@ =~= decimal(n as nat));
    s
}

} // verus!
