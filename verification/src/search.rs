//! Search candidates for the host picker and the ranking of matches.

use vstd::prelude::*;
use vstd::string::StringExecFns;
use crate::text;
use crate::sshconfig::{Host, HostView};

verus! {

// ---------------------------------------------------------------- candidates

/// A host as the picker lists and searches it.
#[derive(Debug)]
pub struct Candidate {
    pub host: Host,
    pub alias_lc: String,
    pub hostname_lc: String,
    pub proxyjump_lc: String,
    pub search_all_lc: String,
    pub line: String,
}

/// `seq` when `cond` holds, else nothing.
pub open spec fn part_if(cond: bool, s: Seq<char>) -> Seq<char> {
    if cond {
        s
    } else {
        Seq::empty()
    }
}

/// The line shown for a host: its alias, then ` as USER`, ` :PORT` (for a
/// port other than 22), ` via PROXYJUMP` and ` -> HOSTNAME` (when it differs
/// from the alias), each only when set.
pub open spec fn display_line(h: Host) -> Seq<char> {
    h.alias@ + part_if(h.user@.len() > 0, " as "@ + h.user@) + part_if(
        h.port > 0 && h.port != 22,
        " :"@ + text::decimal(h.port as nat),
    ) + part_if(h.proxyjump@.len() > 0, " via "@ + h.proxyjump@) + part_if(
        h.hostname@.len() > 0 && h.hostname@ != h.alias@,
        " -> "@ + h.hostname@,
    )
}

/// The text all fields are searched in: alias, hostname, user and proxyjump
/// joined by spaces.
pub open spec fn search_text(h: Host) -> Seq<char> {
    h.alias@ + " "@ + h.hostname@ + " "@ + h.user@ + " "@ + h.proxyjump@
}

/// A candidate with each string taken as its characters.
pub struct CandidateView {
    pub host: HostView,
    pub alias_lc: Seq<char>,
    pub hostname_lc: Seq<char>,
    pub proxyjump_lc: Seq<char>,
    pub search_all_lc: Seq<char>,
    pub line: Seq<char>,
}

impl View for Candidate {
    type V = CandidateView;

    open spec fn view(&self) -> CandidateView {
        CandidateView {
            host: self.host@,
            alias_lc: self.alias_lc@,
            hostname_lc: self.hostname_lc@,
            proxyjump_lc: self.proxyjump_lc@,
            search_all_lc: self.search_all_lc@,
            line: self.line@,
        }
    }
}

/// Whether `c` is the candidate built from `h`.
pub open spec fn candidate_of(h: Host, c: CandidateView) -> bool {
    &&& c.host == h@
    &&& c.alias_lc == text::lowercase(h.alias@)
    &&& c.hostname_lc == text::lowercase(h.hostname@)
    &&& c.proxyjump_lc == text::lowercase(h.proxyjump@)
    &&& c.search_all_lc == text::lowercase(search_text(h))
    &&& c.line == display_line(h)
}

/// Whether all text fields of a host are ASCII.
pub open spec fn host_ascii(h: Host) -> bool {
    &&& text::all_ascii(h.alias@)
    &&& text::all_ascii(h.hostname@)
    &&& text::all_ascii(h.user@)
    &&& text::all_ascii(h.proxyjump@)
}

/// The lowercase fields of a candidate for an ASCII host: each field's ASCII
/// lowercase, and the search text the fields joined by spaces.
pub open spec fn ascii_candidate(h: Host, c: CandidateView) -> bool {
    &&& c.alias_lc == text::lower_ascii(h.alias@)
    &&& c.hostname_lc == text::lower_ascii(h.hostname@)
    &&& c.proxyjump_lc == text::lower_ascii(h.proxyjump@)
    &&& c.search_all_lc == c.alias_lc + seq![' '] + c.hostname_lc + seq![' '] + text::lower_ascii(h.user@)
        + seq![' '] + c.proxyjump_lc
}

proof fn lemma_search_text_ascii(h: Host)
    requires
        host_ascii(h),
    ensures
        text::all_ascii(search_text(h)),
        text::lower_ascii(search_text(h)) == text::lower_ascii(h.alias@) + seq![' '] + text::lower_ascii(
            h.hostname@,
        ) + seq![' '] + text::lower_ascii(h.user@) + seq![' '] + text::lower_ascii(h.proxyjump@),
{
    reveal_strlit(" ");
    let sp = seq![' '];
    assert(" "@ == sp);
    assert(text::all_ascii(sp));
    assert(text::lower_ascii(sp) =~= sp);
    let a = h.alias@;
    let b = h.hostname@;
    let u = h.user@;
    let p = h.proxyjump@;
    text::lemma_all_ascii_concat(a, sp);
    text::lemma_all_ascii_concat(a + sp, b);
    text::lemma_all_ascii_concat(a + sp + b, sp);
    text::lemma_all_ascii_concat(a + sp + b + sp, u);
    text::lemma_all_ascii_concat(a + sp + b + sp + u, sp);
    text::lemma_all_ascii_concat(a + sp + b + sp + u + sp, p);
    text::lemma_lower_ascii_concat(a, sp);
    text::lemma_lower_ascii_concat(a + sp, b);
    text::lemma_lower_ascii_concat(a + sp + b, sp);
    text::lemma_lower_ascii_concat(a + sp + b + sp, u);
    text::lemma_lower_ascii_concat(a + sp + b + sp + u, sp);
    text::lemma_lower_ascii_concat(a + sp + b + sp + u + sp, p);
}

/// The search candidate for one host.
pub fn build_candidate(h: &Host) -> (c: Candidate)
    ensures
        candidate_of(*h, c@),
        host_ascii(*h) ==> ascii_candidate(*h, c@),
{
    let mut line = h.alias.clone();
    if !h.user.as_str().is_empty() {
        text::push_str(&mut line, " as ");
        text::push_str(&mut line, h.user.as_str());
    }
    let ghost l1 = line@;
    if h.port > 0 && h.port != 22 {
        text::push_str(&mut line, " :");
        let digits = text::decimal_string(h.port as u64);
        text::push_str(&mut line, digits.as_str());
    }
    let ghost l2 = line@;
    if !h.proxyjump.as_str().is_empty() {
        text::push_str(&mut line, " via ");
        text::push_str(&mut line, h.proxyjump.as_str());
    }
    let ghost l3 = line@;
    if !h.hostname.as_str().is_empty() && !text::str_eq(h.hostname.as_str(), h.alias.as_str()) {
        text::push_str(&mut line, " -> ");
        text::push_str(&mut line, h.hostname.as_str());
    }
    assert(line@ =~= display_line(*h));
    let mut all = h.alias.clone();
    text::push_str(&mut all, " ");
    text::push_str(&mut all, h.hostname.as_str());
    text::push_str(&mut all, " ");
    text::push_str(&mut all, h.user.as_str());
    text::push_str(&mut all, " ");
    text::push_str(&mut all, h.proxyjump.as_str());
    assert(all@ =~= search_text(*h));
    proof {
        if host_ascii(*h) {
            lemma_search_text_ascii(*h);
        }
    }
    Candidate {
        host: h.copy(),
        alias_lc: text::to_lowercase(h.alias.as_str()),
        hostname_lc: text::to_lowercase(h.hostname.as_str()),
        proxyjump_lc: text::to_lowercase(h.proxyjump.as_str()),
        search_all_lc: text::to_lowercase(all.as_str()),
        line,
    }
}

/// The search candidates for a list of hosts, in the same order.
pub fn build_candidates(hosts: &Vec<Host>) -> (r: Vec<Candidate>)
    ensures
        r.len() == hosts.len(),
        forall|i: int| 0 <= i < hosts.len() ==> candidate_of(#[trigger] hosts@[i], r@[i]@),
        forall|i: int| 0 <= i < hosts.len() && host_ascii(#[trigger] hosts@[i]) ==> ascii_candidate(hosts@[i], r@[i]@),
{
    let mut out: Vec<Candidate> = Vec::new();
    let mut i: usize = 0;
    while i < hosts.len()
        invariant
            i <= hosts.len(),
            out.len() == i,
            forall|k: int| 0 <= k < i ==> candidate_of(#[trigger] hosts@[k], out@[k]@),
            forall|k: int| 0 <= k < i && host_ascii(#[trigger] hosts@[k]) ==> ascii_candidate(hosts@[k], out@[k]@),
        decreases hosts.len() - i,
    {
        let c = build_candidate(&hosts[i]);
        out.push(c);
        i += 1;
    }
    out
}

// ---------------------------------------------------------------- ranking

/// How well a candidate matches a query; smaller sorts first.
#[derive(Debug, Clone, Copy, PartialEq, Eq)]
pub struct MatchSortKey {
    pub bucket: u8,
    pub position: u16,
    pub len: u16,
}

/// The order of match keys: by bucket, then position, then length.
pub open spec fn key_lt(a: MatchSortKey, b: MatchSortKey) -> bool {
    ||| a.bucket < b.bucket
    ||| a.bucket == b.bucket && a.position < b.position
    ||| a.bucket == b.bucket && a.position == b.position && a.len < b.len
}

/// Whether `a` sorts before `b`.
pub fn key_less(a: &MatchSortKey, b: &MatchSortKey) -> (r: bool)
    ensures
        r == key_lt(*a, *b),
{
    if a.bucket != b.bucket {
        a.bucket < b.bucket
    } else if a.position != b.position {
        a.position < b.position
    } else {
        a.len < b.len
    }
}

/// `n` capped at `u16::MAX`.
pub open spec fn cap16(n: int) -> u16 {
    if n < 0xFFFF {
        n as u16
    } else {
        0xFFFF
    }
}

fn cap_u16(n: usize) -> (r: u16)
    ensures
        r == cap16(n as int),
{
    if n < 0xFFFF {
        n as u16
    } else {
        0xFFFF
    }
}

/// The UTF-8 length of a string, in bytes, as `str::len` gives it.
pub open spec fn byte_len(s: Seq<char>) -> int {
    (vstd::utf8::encode_utf8(s).len() as usize) as int
}

/// An ASCII letter or digit.
pub open spec fn is_word_byte(b: u8) -> bool {
    (48 <= b <= 57) || (65 <= b <= 90) || (97 <= b <= 122)
}

/// Whether `q` occurs in `t` at byte `i`, at the start of a word: at the
/// start of `t` or after a byte that is not an ASCII letter or digit.
pub open spec fn token_match_at(t: Seq<u8>, q: Seq<u8>, i: int) -> bool {
    &&& 0 <= i < t.len()
    &&& (i == 0 || !is_word_byte(t[i - 1]))
    &&& i + q.len() <= t.len()
    &&& t.subrange(i, i + q.len()) == q
}

/// The byte position of the first word in `t` that starts with `q`, for a
/// non-empty `q`.
pub open spec fn token_prefix(t: Seq<u8>, q: Seq<u8>) -> Option<int> {
    if q.len() > 0 && exists|i: int| token_match_at(t, q, i) {
        Some(
            choose|i: int|
                token_match_at(t, q, i) && forall|j: int| 0 <= j < i ==> !token_match_at(t, q, j),
        )
    } else {
        None
    }
}

proof fn lemma_first_token_match(t: Seq<u8>, q: Seq<u8>, i: int)
    requires
        q.len() > 0,
        token_match_at(t, q, i),
        forall|j: int| 0 <= j < i ==> !token_match_at(t, q, j),
    ensures
        token_prefix(t, q) == Some(i),
{
    let k = choose|k: int|
        token_match_at(t, q, k) && forall|j: int| 0 <= j < k ==> !token_match_at(t, q, j);
    assert(k == i) by {
        if k < i {
        } else if k > i {
        }
    }
}

fn is_word_u8(b: u8) -> (r: bool)
    ensures
        r == is_word_byte(b),
{
    (48 <= b && b <= 57) || (65 <= b && b <= 90) || (97 <= b && b <= 122)
}

fn bytes_match_at(t: &[u8], q: &[u8], i: usize) -> (r: bool)
    requires
        i + q@.len() <= t@.len(),
    ensures
        r == (t@.subrange(i as int, i + q@.len()) == q@),
{
    let mut k: usize = 0;
    while k < q.len()
        invariant
            k <= q@.len(),
            i + q@.len() <= t@.len(),
            t@.len() == t.len(),
            forall|m: int| 0 <= m < k ==> t@[i + m] == q@[m],
        decreases q.len() - k,
    {
        if t[i + k] != q[k] {
            assert(t@.subrange(i as int, i + q@.len())[k as int] != q@[k as int]);
            return false;
        }
        k += 1;
    }
    assert(t@.subrange(i as int, i + q@.len()) =~= q@);
    true
}

/// The byte position, capped at `u16::MAX`, of the first word of `text` that
/// starts with `q`; `None` for an empty `q`.
pub fn token_prefix_pos(text: &str, q: &str) -> (r: Option<u16>)
    ensures
        r == (match token_prefix(vstd::utf8::encode_utf8(text@), vstd::utf8::encode_utf8(q@)) {
            Some(i) => Some(cap16(i)),
            None => None,
        }),
{
    let bytes = text.as_bytes();
    let q_bytes = q.as_bytes();
    if q_bytes.len() == 0 {
        return None;
    }
    let mut i: usize = 0;
    while i < bytes.len()
        invariant
            i <= bytes@.len(),
            bytes@ == vstd::utf8::encode_utf8(text@),
            q_bytes@ == vstd::utf8::encode_utf8(q@),
            q_bytes@.len() > 0,
            forall|j: int| 0 <= j < i ==> !token_match_at(bytes@, q_bytes@, j),
        decreases bytes.len() - i,
    {
        let is_boundary = i == 0 || !is_word_u8(bytes[i - 1]);
        if is_boundary && bytes.len() - i >= q_bytes.len() && bytes_match_at(bytes, q_bytes, i) {
            proof {
                lemma_first_token_match(bytes@, q_bytes@, i as int);
            }
            return Some(cap_u16(i));
        }
        i += 1;
    }
    proof {
        assert forall|j: int| !token_match_at(bytes@, q_bytes@, j) by {
            if 0 <= j < i {
            }
        }
    }
    None
}

/// Whether the characters of `q` occur in `t` in order, matched greedily
/// from the left.
pub open spec fn in_order(q: Seq<char>, t: Seq<char>) -> bool
    decreases t.len(),
{
    if q.len() == 0 {
        true
    } else if t.len() == 0 {
        false
    } else if t[0] == q[0] {
        in_order(q.drop_first(), t.drop_first())
    } else {
        in_order(q, t.drop_first())
    }
}

/// Whether `idx` places the characters of `q` in `t` at strictly increasing
/// positions.
pub open spec fn embeds(q: Seq<char>, t: Seq<char>, idx: Seq<int>) -> bool {
    &&& idx.len() == q.len()
    &&& forall|i: int| 0 <= i < idx.len() ==> 0 <= #[trigger] idx[i] < t.len() && t[idx[i]] == q[i]
    &&& forall|i: int, j: int| 0 <= i < j < idx.len() ==> #[trigger] idx[i] < #[trigger] idx[j]
}

/// The greedy scan finds a match exactly when the query is a subsequence of
/// the text: its characters occur in it in order, not necessarily adjacent.
pub proof fn lemma_in_order_iff_subsequence(q: Seq<char>, t: Seq<char>)
    ensures
        in_order(q, t) <==> exists|idx: Seq<int>| embeds(q, t, idx),
    decreases t.len(),
{
    if q.len() == 0 {
        assert(embeds(q, t, Seq::<int>::empty()));
    } else if t.len() == 0 {
        if exists|idx: Seq<int>| embeds(q, t, idx) {
            let idx = choose|idx: Seq<int>| embeds(q, t, idx);
            assert(0 <= idx[0] < t.len());
        }
    } else {
        let t1 = t.drop_first();
        if t[0] == q[0] {
            let q1 = q.drop_first();
            lemma_in_order_iff_subsequence(q1, t1);
            if in_order(q1, t1) {
                let i1 = choose|idx: Seq<int>| embeds(q1, t1, idx);
                let idx = seq![0int] + Seq::new(i1.len(), |i: int| i1[i] + 1);
                assert forall|i: int| 0 <= i < idx.len() implies 0 <= #[trigger] idx[i] < t.len() && t[idx[i]]
                    == q[i] by {
                    if i > 0 {
                        assert(idx[i] == i1[i - 1] + 1);
                        assert(t[idx[i]] == t1[i1[i - 1]]);
                    }
                }
                assert forall|i: int, j: int| 0 <= i < j < idx.len() implies #[trigger] idx[i] < #[trigger] idx[j] by {
                    if i > 0 {
                        assert(idx[i] == i1[i - 1] + 1 && idx[j] == i1[j - 1] + 1);
                        assert(i1[i - 1] < i1[j - 1]);
                    } else {
                        assert(idx[j] == i1[j - 1] + 1);
                        assert(0 <= i1[j - 1]);
                    }
                }
                assert(embeds(q, t, idx));
            }
            if exists|idx: Seq<int>| embeds(q, t, idx) {
                let idx = choose|idx: Seq<int>| embeds(q, t, idx);
                let i1 = Seq::new((idx.len() - 1) as nat, |i: int| idx[i + 1] - 1);
                assert forall|i: int| 0 <= i < i1.len() implies 0 <= #[trigger] i1[i] < t1.len() && t1[i1[i]]
                    == q1[i] by {
                    assert(idx[0] < idx[i + 1]);
                    assert(idx[0] >= 0);
                }
                assert forall|i: int, j: int| 0 <= i < j < i1.len() implies #[trigger] i1[i] < #[trigger] i1[j] by {
                    assert(idx[i + 1] < idx[j + 1]);
                }
                assert(embeds(q1, t1, i1));
            }
        } else {
            lemma_in_order_iff_subsequence(q, t1);
            if in_order(q, t1) {
                let i1 = choose|idx: Seq<int>| embeds(q, t1, idx);
                let idx = Seq::new(i1.len(), |i: int| i1[i] + 1);
                assert forall|i: int| 0 <= i < idx.len() implies 0 <= #[trigger] idx[i] < t.len() && t[idx[i]]
                    == q[i] by {
                    assert(t[idx[i]] == t1[i1[i]]);
                }
                assert forall|i: int, j: int| 0 <= i < j < idx.len() implies #[trigger] idx[i] < #[trigger] idx[j] by {
                    assert(i1[i] < i1[j]);
                }
                assert(embeds(q, t, idx));
            }
            if exists|idx: Seq<int>| embeds(q, t, idx) {
                let idx = choose|idx: Seq<int>| embeds(q, t, idx);
                assert(idx[0] != 0) by {
                    assert(t[idx[0]] == q[0]);
                }
                let i1 = Seq::new(idx.len(), |i: int| idx[i] - 1);
                assert forall|i: int| 0 <= i < i1.len() implies 0 <= #[trigger] i1[i] < t1.len() && t1[i1[i]]
                    == q[i] by {
                    if i > 0 {
                        assert(idx[0] < idx[i]);
                    }
                    assert(idx[0] >= 0);
                }
                assert forall|i: int, j: int| 0 <= i < j < i1.len() implies #[trigger] i1[i] < #[trigger] i1[j] by {
                    assert(idx[i] < idx[j]);
                }
                assert(embeds(q, t1, i1));
            }
        }
    }
}

proof fn lemma_in_order_within(q: Seq<char>, s: Seq<char>, t: Seq<char>, r: Seq<char>)
    requires
        in_order(q, t),
    ensures
        in_order(q, s + t + r),
{
    lemma_in_order_iff_subsequence(q, t);
    let w = s + t + r;
    lemma_in_order_iff_subsequence(q, w);
    let idx = choose|idx: Seq<int>| embeds(q, t, idx);
    let j = Seq::new(idx.len(), |i: int| idx[i] + s.len());
    assert forall|i: int| 0 <= i < j.len() implies 0 <= #[trigger] j[i] < w.len() && w[j[i]] == q[i] by {
        assert(w[idx[i] + s.len()] == t[idx[i]]);
    }
    assert forall|i: int, k: int| 0 <= i < k < j.len() implies #[trigger] j[i] < #[trigger] j[k] by {
        assert(idx[i] < idx[k]);
    }
    assert(embeds(q, w, j));
}

proof fn lemma_substring_in_order(q: Seq<char>, t: Seq<char>, at: int)
    requires
        0 <= at,
        at + q.len() <= t.len(),
        forall|k: int| 0 <= k < q.len() ==> t[at + k] == #[trigger] q[k],
    ensures
        in_order(q, t),
{
    lemma_in_order_iff_subsequence(q, t);
    let j = Seq::new(q.len(), |i: int| at + i);
    assert forall|i: int| 0 <= i < j.len() implies 0 <= #[trigger] j[i] < t.len() && t[j[i]] == q[i] by {
        assert(t[at + i] == q[i]);
    }
    assert(embeds(q, t, j));
}

proof fn lemma_encode_ascii(s: Seq<char>)
    requires
        text::all_ascii(s),
    ensures
        vstd::utf8::encode_utf8(s).len() == s.len(),
        forall|k: int| 0 <= k < s.len() ==> (#[trigger] vstd::utf8::encode_utf8(s)[k]) as u32 == s[k] as u32,
    decreases s.len(),
{
    if s.len() > 0 {
        let t = s.drop_first();
        assert forall|i: int| 0 <= i < t.len() implies (#[trigger] t[i] as u32) < 128 by {
            assert(t[i] == s[i + 1]);
        }
        lemma_encode_ascii(t);
        let u = s[0] as u32;
        assert(u < 128);
        assert(((u & 0x7F) as u8) as u32 == u) by (bit_vector)
            requires
                u < 128,
        ;
        let e = vstd::utf8::encode_utf8(s);
        assert(e == vstd::utf8::encode_scalar(u) + vstd::utf8::encode_utf8(t));
        assert(vstd::utf8::encode_scalar(u) == seq![(u & 0x7F) as u8]);
        assert forall|k: int| 0 <= k < s.len() implies (#[trigger] e[k]) as u32 == s[k] as u32 by {
            if k > 0 {
                assert(e[k] == vstd::utf8::encode_utf8(t)[k - 1]);
                assert(t[k - 1] == s[k]);
            }
        }
    }
}

proof fn lemma_char_eq(x: char, y: char)
    requires
        x as u32 == y as u32,
    ensures
        x == y,
{
    vstd::utf8::char_u32_cast(x, x as u32);
    vstd::utf8::char_u32_cast(y, y as u32);
}

proof fn lemma_ascii_from_bytes(q: Seq<char>)
    requires
        forall|k: int| 0 <= k < vstd::utf8::encode_utf8(q).len() ==> (#[trigger] vstd::utf8::encode_utf8(q)[k]) < 128,
    ensures
        text::all_ascii(q),
    decreases q.len(),
{
    if q.len() > 0 {
        let u = q[0] as u32;
        let es = vstd::utf8::encode_scalar(u);
        let r = q.drop_first();
        let e = vstd::utf8::encode_utf8(q);
        assert(e == es + vstd::utf8::encode_utf8(r));
        assert(es.len() > 0);
        assert(e[0] == es[0]);
        if u >= 128 {
            let x2 = ((u >> 6) & 0x1F) as u8;
            let x3 = ((u >> 12) & 0x0F) as u8;
            let x4 = ((u >> 18) & 0x7) as u8;
            assert((0xC0u8 | x2) >= 128 && (0xE0u8 | x3) >= 128 && (0xF0u8 | x4) >= 128) by (bit_vector);
            assert(false);
        }
        assert forall|k: int| 0 <= k < vstd::utf8::encode_utf8(r).len() implies (#[trigger] vstd::utf8::encode_utf8(
            r,
        )[k]) < 128 by {
            assert(e[es.len() + k] == vstd::utf8::encode_utf8(r)[k]);
        }
        lemma_ascii_from_bytes(r);
        assert forall|i: int| 0 <= i < q.len() implies (#[trigger] q[i] as u32) < 128 by {
            if i > 0 {
                assert(q[i] == r[i - 1]);
            }
        }
    }
}

#[verifier::rlimit(30)]
proof fn lemma_token_in_order(t: Seq<char>, q: Seq<char>)
    requires
        text::all_ascii(t),
        token_prefix(vstd::utf8::encode_utf8(t), vstd::utf8::encode_utf8(q)) is Some,
    ensures
        in_order(q, t),
{
    let et = vstd::utf8::encode_utf8(t);
    let eq = vstd::utf8::encode_utf8(q);
    lemma_encode_ascii(t);
    let i = choose|i: int| token_match_at(et, eq, i);
    assert(0 <= i && i + eq.len() <= et.len() && et.subrange(i, i + eq.len()) == eq);
    assert forall|k: int| 0 <= k < eq.len() implies (#[trigger] eq[k]) < 128 by {
        assert(et.subrange(i, i + eq.len())[k] == et[i + k]);
        assert(et[i + k] as u32 == t[i + k] as u32);
        assert((t[i + k] as u32) < 128);
    }
    lemma_ascii_from_bytes(q);
    lemma_encode_ascii(q);
    assert forall|k: int| 0 <= k < q.len() implies t[i + k] == #[trigger] q[k] by {
        assert(et.subrange(i, i + eq.len())[k] == et[i + k]);
        assert(et[i + k] as u32 == t[i + k] as u32);
        assert(eq[k] as u32 == q[k] as u32);
        lemma_char_eq(t[i + k], q[k]);
    }
    lemma_substring_in_order(q, t, i);
}

proof fn lemma_prefix_in_order(q: Seq<char>, t: Seq<char>)
    requires
        text::has_prefix(t, q),
    ensures
        in_order(q, t),
{
    assert forall|k: int| 0 <= k < q.len() implies t[0 + k] == #[trigger] q[k] by {
        assert(t.subrange(0, q.len() as int)[k] == t[k]);
    }
    lemma_substring_in_order(q, t, 0);
}

/// Whether `c` occurs in `t` before index `n`.
pub open spec fn occurs_before(t: Seq<char>, c: char, n: int) -> bool {
    exists|i: int| 0 <= i < n && i < t.len() && t[i] == c
}

/// The index of the first occurrence of `c` in `t` (for a `c` that occurs).
pub open spec fn first_index(t: Seq<char>, c: char) -> int {
    choose|i: int| 0 <= i < t.len() && t[i] == c && !occurs_before(t, c, i)
}

/// The fuzzy match of `q` in `t`: `None` when the characters of `q` do not
/// occur in `t` in order; otherwise the position of the first occurrence of
/// `q`'s first character (0 for an empty `q`).
pub open spec fn fuzzy_match(q: Seq<char>, t: Seq<char>) -> Option<int> {
    if !in_order(q, t) {
        None
    } else if q.len() == 0 {
        Some(0)
    } else {
        Some(first_index(t, q[0]))
    }
}

proof fn lemma_in_order_skip(q: Seq<char>, t: Seq<char>, qi: int, i: int)
    requires
        0 <= qi < q.len(),
        0 <= i < t.len(),
    ensures
        in_order(q.subrange(qi, q.len() as int), t.subrange(i, t.len() as int)) == if t[i] == q[qi] {
            in_order(q.subrange(qi + 1, q.len() as int), t.subrange(i + 1, t.len() as int))
        } else {
            in_order(q.subrange(qi, q.len() as int), t.subrange(i + 1, t.len() as int))
        },
{
    let qs = q.subrange(qi, q.len() as int);
    let ts = t.subrange(i, t.len() as int);
    assert(qs.drop_first() =~= q.subrange(qi + 1, q.len() as int));
    assert(ts.drop_first() =~= t.subrange(i + 1, t.len() as int));
}

proof fn lemma_first_index(t: Seq<char>, c: char, i: int)
    requires
        0 <= i < t.len(),
        t[i] == c,
        !occurs_before(t, c, i),
    ensures
        first_index(t, c) == i,
{
    let k = first_index(t, c);
    assert(0 <= k < t.len() && t[k] == c && !occurs_before(t, c, k));
    if k < i {
        assert(occurs_before(t, c, i));
    } else if k > i {
        assert(occurs_before(t, c, k));
    }
}

/// The fuzzy match of `query` in `text`, the position capped at `u16::MAX`.
pub fn fuzzy_match_pos(query: &str, text: &str) -> (r: Option<u16>)
    ensures
        r == (match fuzzy_match(query@, text@) {
            Some(i) => Some(cap16(i)),
            None => None,
        }),
{
    let q = text::chars_of(query);
    let t = text::chars_of(text);
    if q.len() == 0 {
        return Some(0);
    }
    let mut qi: usize = 0;
    let mut first_match: Option<usize> = None;
    let mut i: usize = 0;
    assert(q@.subrange(0, q@.len() as int) =~= q@);
    assert(t@.subrange(0, t@.len() as int) =~= t@);
    while i < t.len() && qi < q.len()
        invariant
            q@ == query@,
            t@ == text@,
            q@.len() > 0,
            i <= t.len(),
            qi <= q.len(),
            in_order(q@, t@) == in_order(
                q@.subrange(qi as int, q@.len() as int),
                t@.subrange(i as int, t@.len() as int),
            ),
            qi == 0 ==> first_match is None && !occurs_before(t@, q@[0], i as int),
            qi > 0 ==> (first_match matches Some(f) && f < i && t@[f as int] == q@[0]
                && !occurs_before(t@, q@[0], f as int)),
        decreases t.len() - i,
    {
        proof {
            lemma_in_order_skip(q@, t@, qi as int, i as int);
        }
        if t[i] == q[qi] {
            if qi == 0 {
                first_match = Some(i);
            }
            qi += 1;
        }
        i += 1;
    }
    if qi == q.len() {
        assert(q@.subrange(qi as int, q@.len() as int) =~= Seq::<char>::empty());
        let f = first_match.unwrap();
        proof {
            lemma_first_index(t@, q@[0], f as int);
        }
        Some(cap_u16(f))
    } else {
        assert(t@.subrange(i as int, t@.len() as int) =~= Seq::<char>::empty());
        assert(q@.subrange(qi as int, q@.len() as int).len() > 0);
        None
    }
}

/// A match key.
pub open spec fn mk_key(bucket: u8, position: u16, len: u16) -> MatchSortKey {
    MatchSortKey { bucket, position, len }
}

/// How a candidate ranks for a (lowercase) query, if it matches at all, by
/// the first rule that applies: alias prefix (bucket 0), hostname prefix (1),
/// prefix of a word of the alias (2) or hostname (3), fuzzy match in the
/// alias (4) or hostname (5), any such match in the proxyjump (6), fuzzy
/// match in all fields together (7). An empty query ranks everything in
/// bucket 255. Positions and lengths are in bytes, except fuzzy positions,
/// which count characters.
pub open spec fn match_key(query: Seq<char>, c: CandidateView) -> Option<MatchSortKey> {
    let q = text::trim(query);
    let qb = vstd::utf8::encode_utf8(q);
    let a = c.alias_lc;
    let h = c.hostname_lc;
    let p = c.proxyjump_lc;
    let alen = cap16(byte_len(a));
    let hlen = cap16(byte_len(h));
    let plen = cap16(byte_len(p));
    if q.len() == 0 {
        Some(mk_key(255, 0, alen))
    } else if text::has_prefix(a, q) {
        Some(mk_key(0, 0, alen))
    } else if h.len() > 0 && text::has_prefix(h, q) {
        Some(mk_key(1, 0, hlen))
    } else if token_prefix(vstd::utf8::encode_utf8(a), qb) is Some {
        Some(mk_key(2, cap16(token_prefix(vstd::utf8::encode_utf8(a), qb)->0), alen))
    } else if token_prefix(vstd::utf8::encode_utf8(h), qb) is Some {
        Some(mk_key(3, cap16(token_prefix(vstd::utf8::encode_utf8(h), qb)->0), hlen))
    } else if fuzzy_match(q, a) is Some {
        Some(mk_key(4, cap16(fuzzy_match(q, a)->0), alen))
    } else if fuzzy_match(q, h) is Some {
        Some(mk_key(5, cap16(fuzzy_match(q, h)->0), hlen))
    } else if p.len() > 0 && text::has_prefix(p, q) {
        Some(mk_key(6, 0, plen))
    } else if p.len() > 0 && token_prefix(vstd::utf8::encode_utf8(p), qb) is Some {
        Some(mk_key(6, cap16(token_prefix(vstd::utf8::encode_utf8(p), qb)->0), plen))
    } else if p.len() > 0 && fuzzy_match(q, p) is Some {
        Some(mk_key(6, cap16(fuzzy_match(q, p)->0), plen))
    } else if fuzzy_match(q, c.search_all_lc) is Some {
        Some(mk_key(7, cap16(fuzzy_match(q, c.search_all_lc)->0), alen))
    } else {
        None
    }
}

/// The byte length of `s`, capped at `u16::MAX`.
fn byte_len_u16(s: &String) -> (r: u16)
    ensures
        r == cap16(byte_len(s@)),
{
    cap_u16(s.as_str().len())
}

/// Ranks candidate `c` for `query`.
pub fn match_sort_key(query: &str, c: &Candidate) -> (r: Option<MatchSortKey>)
    ensures
        r == match_key(query@, c@),
{
    let q = text::trim_str(query);
    let qv = text::chars_of(q.as_str());
    let alen = byte_len_u16(&c.alias_lc);
    if qv.len() == 0 {
        return Some(MatchSortKey { bucket: 255, position: 0, len: alen });
    }
    let a = text::chars_of(c.alias_lc.as_str());
    if text::chars_has_prefix(&a, &qv) {
        return Some(MatchSortKey { bucket: 0, position: 0, len: alen });
    }
    let h = text::chars_of(c.hostname_lc.as_str());
    let hlen = byte_len_u16(&c.hostname_lc);
    if h.len() > 0 && text::chars_has_prefix(&h, &qv) {
        return Some(MatchSortKey { bucket: 1, position: 0, len: hlen });
    }
    if let Some(pos) = token_prefix_pos(c.alias_lc.as_str(), q.as_str()) {
        return Some(MatchSortKey { bucket: 2, position: pos, len: alen });
    }
    if let Some(pos) = token_prefix_pos(c.hostname_lc.as_str(), q.as_str()) {
        return Some(MatchSortKey { bucket: 3, position: pos, len: hlen });
    }
    if let Some(pos) = fuzzy_match_pos(q.as_str(), c.alias_lc.as_str()) {
        return Some(MatchSortKey { bucket: 4, position: pos, len: alen });
    }
    if let Some(pos) = fuzzy_match_pos(q.as_str(), c.hostname_lc.as_str()) {
        return Some(MatchSortKey { bucket: 5, position: pos, len: hlen });
    }
    let p = text::chars_of(c.proxyjump_lc.as_str());
    if p.len() > 0 {
        let plen = byte_len_u16(&c.proxyjump_lc);
        if text::chars_has_prefix(&p, &qv) {
            return Some(MatchSortKey { bucket: 6, position: 0, len: plen });
        }
        if let Some(pos) = token_prefix_pos(c.proxyjump_lc.as_str(), q.as_str()) {
            return Some(MatchSortKey { bucket: 6, position: pos, len: plen });
        }
        if let Some(pos) = fuzzy_match_pos(q.as_str(), c.proxyjump_lc.as_str()) {
            return Some(MatchSortKey { bucket: 6, position: pos, len: plen });
        }
    }
    match fuzzy_match_pos(q.as_str(), c.search_all_lc.as_str()) {
        Some(pos) => Some(MatchSortKey { bucket: 7, position: pos, len: alen }),
        None => None,
    }
}

/// The buckets follow the ranking's priority, each rule at its own level,
/// the first rule that applies deciding: a blank query 255; then a prefix
/// of the alias 0, of the host name 1; a prefix of a word of the alias 2, of
/// the host name 3; a fuzzy match in the alias 4, in the host name 5; any
/// match in the proxy jump 6; a fuzzy match anywhere 7; else no match. So a
/// host found by a word of its host name always ranks above one found only
/// by a fuzzy match of its alias. A prefix match sits at position 0, and the
/// length that breaks ties is that of the field that matched (the alias for
/// a match anywhere).
pub proof fn lemma_bucket_priority(query: Seq<char>, c: CandidateView)
    ensures
        ({
            let q = text::trim(query);
            let qb = vstd::utf8::encode_utf8(q);
            let a = c.alias_lc;
            let h = c.hostname_lc;
            let p = c.proxyjump_lc;
            let r0 = text::has_prefix(a, q);
            let r1 = h.len() > 0 && text::has_prefix(h, q);
            let r2 = token_prefix(vstd::utf8::encode_utf8(a), qb) is Some;
            let r3 = token_prefix(vstd::utf8::encode_utf8(h), qb) is Some;
            let r4 = fuzzy_match(q, a) is Some;
            let r5 = fuzzy_match(q, h) is Some;
            let r6 = p.len() > 0 && (text::has_prefix(p, q) || token_prefix(vstd::utf8::encode_utf8(p), qb) is Some
                || fuzzy_match(q, p) is Some);
            let r7 = fuzzy_match(q, c.search_all_lc) is Some;
            let b = match_key(query, c)->0.bucket;
            let pos = match_key(query, c)->0.position;
            let len = match_key(query, c)->0.len;
            let alen = cap16(byte_len(a));
            let hlen = cap16(byte_len(h));
            &&& q.len() == 0 ==> match_key(query, c) is Some && b == 255 && pos == 0 && len == alen
            &&& q.len() > 0 && r0 ==> match_key(query, c) is Some && b == 0 && pos == 0 && len == alen
            &&& q.len() > 0 && !r0 && r1 ==> match_key(query, c) is Some && b == 1 && pos == 0 && len == hlen
            &&& q.len() > 0 && !r0 && !r1 && r2 ==> match_key(query, c) is Some && b == 2 && len == alen
            &&& q.len() > 0 && !r0 && !r1 && !r2 && r3 ==> match_key(query, c) is Some && b == 3 && len == hlen
            &&& q.len() > 0 && !r0 && !r1 && !r2 && !r3 && r4 ==> match_key(query, c) is Some && b == 4 && len == alen
            &&& q.len() > 0 && !r0 && !r1 && !r2 && !r3 && !r4 && r5 ==> match_key(query, c) is Some && b == 5 && len == hlen
            &&& q.len() > 0 && !r0 && !r1 && !r2 && !r3 && !r4 && !r5 && r6 ==> match_key(query, c) is Some && b
                == 6
            &&& q.len() > 0 && !r0 && !r1 && !r2 && !r3 && !r4 && !r5 && !r6 && r7 ==> match_key(query, c) is Some
                && b == 7 && len == alen
            &&& q.len() > 0 && !r0 && !r1 && !r2 && !r3 && !r4 && !r5 && !r6 && !r7 ==> match_key(query, c) is None
        }),
{
}

/// For an ASCII host and any query: an empty (or blank) query ranks the
/// host in bucket 255; otherwise the host matches exactly when the trimmed
/// query is a subsequence of its lowercase search text, a match lands in a
/// bucket of at most 7, and in bucket 0 exactly when the lowercase alias
/// starts with the query.
pub proof fn lemma_match_key_ascii(query: Seq<char>, h: Host, c: CandidateView)
    requires
        host_ascii(h),
        ascii_candidate(h, c),
    ensures
        text::trim(query).len() == 0 ==> match_key(query, c) == Some(mk_key(255, 0, cap16(byte_len(c.alias_lc)))),
        text::trim(query).len() > 0 ==> (match_key(query, c) is Some <==> in_order(
            text::trim(query),
            c.search_all_lc,
        )),
        text::trim(query).len() > 0 && match_key(query, c) is Some ==> match_key(query, c)->0.bucket <= 7 && (
        match_key(query, c)->0.bucket == 0 <==> text::has_prefix(c.alias_lc, text::trim(query))),
{
    let q = text::trim(query);
    let sp = seq![' '];
    let a = c.alias_lc;
    let hn = c.hostname_lc;
    let u = text::lower_ascii(h.user@);
    let p = c.proxyjump_lc;
    let all = c.search_all_lc;
    text::lemma_lower_ascii_ascii(h.alias@);
    text::lemma_lower_ascii_ascii(h.hostname@);
    text::lemma_lower_ascii_ascii(h.proxyjump@);
    if q.len() > 0 {
        // alias, hostname and proxyjump each sit inside the search text
        assert(all == a + (sp + hn + sp + u + sp + p)) by {
            assert(all =~= a + (sp + hn + sp + u + sp + p));
        }
        assert(all == (a + sp) + hn + (sp + u + sp + p)) by {
            assert(all =~= (a + sp) + hn + (sp + u + sp + p));
        }
        assert(all == (a + sp + hn + sp + u + sp) + p + Seq::<char>::empty()) by {
            assert(all =~= (a + sp + hn + sp + u + sp) + p + Seq::<char>::empty());
        }
        assert(a + (sp + hn + sp + u + sp + p) == Seq::<char>::empty() + a + (sp + hn + sp + u + sp + p)) by {
            assert(a + (sp + hn + sp + u + sp + p) =~= Seq::<char>::empty() + a + (sp + hn + sp + u + sp + p));
        }
        if in_order(q, a) {
            lemma_in_order_within(q, Seq::empty(), a, sp + hn + sp + u + sp + p);
        }
        if in_order(q, hn) {
            lemma_in_order_within(q, a + sp, hn, sp + u + sp + p);
        }
        if in_order(q, p) {
            lemma_in_order_within(q, a + sp + hn + sp + u + sp, p, Seq::empty());
        }
        if text::has_prefix(a, q) {
            lemma_prefix_in_order(q, a);
        }
        if text::has_prefix(hn, q) {
            lemma_prefix_in_order(q, hn);
        }
        if text::has_prefix(p, q) {
            lemma_prefix_in_order(q, p);
        }
        let qb = vstd::utf8::encode_utf8(q);
        if token_prefix(vstd::utf8::encode_utf8(a), qb) is Some {
            lemma_token_in_order(a, q);
        }
        if token_prefix(vstd::utf8::encode_utf8(hn), qb) is Some {
            lemma_token_in_order(hn, q);
        }
        if token_prefix(vstd::utf8::encode_utf8(p), qb) is Some {
            lemma_token_in_order(p, q);
        }
    }
}

} // verus!
