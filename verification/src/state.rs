//! The picker's persistent state: favorite hosts and recently used hosts.

use vstd::prelude::*;
use crate::paths;
use crate::text;
use crate::tmuxrun;
use crate::sshconfig::{copy_strings, strings_view};

verus! {

/// The most recent hosts that are kept.
pub const RECENTS_LIMIT: usize = 100;

/// Favorites and recents, as stored in the state file.
#[derive(Debug)]
pub struct Store {
    pub version: i32,
    pub favorites: Vec<String>,
    pub recents: Vec<String>,
    pub updated_at: String,
}

/// A store with each string taken as its characters.
pub struct StoreView {
    pub version: i32,
    pub favorites: Seq<Seq<char>>,
    pub recents: Seq<Seq<char>>,
    pub updated_at: Seq<char>,
}

impl View for Store {
    type V = StoreView;

    open spec fn view(&self) -> StoreView {
        StoreView {
            version: self.version,
            favorites: strings_view(self.favorites@),
            recents: strings_view(self.recents@),
            updated_at: self.updated_at@,
        }
    }
}

impl Default for Store {
    fn default() -> (r: Store)
        ensures
            r@ == empty_store(),
    {
        let r = Store {
            version: 1,
            favorites: Vec::new(),
            recents: Vec::new(),
            updated_at: String::new(),
        };
        assert(r@.favorites =~= Seq::<Seq<char>>::empty());
        assert(r@.recents =~= Seq::<Seq<char>>::empty());
        r
    }
}

/// The store a missing state file stands for.
pub open spec fn empty_store() -> StoreView {
    StoreView {
        version: 1,
        favorites: Seq::empty(),
        recents: Seq::empty(),
        updated_at: Seq::empty(),
    }
}

/// The trimmed, non-empty items of `s`, each kept at its first occurrence.
pub open spec fn unique_trimmed(s: Seq<Seq<char>>) -> Seq<Seq<char>>
    decreases s.len(),
{
    if s.len() == 0 {
        Seq::empty()
    } else {
        let prev = unique_trimmed(s.drop_last());
        let t = text::trim(s.last());
        if t.len() == 0 || prev.contains(t) {
            prev
        } else {
            prev.push(t)
        }
    }
}

/// At most the first `RECENTS_LIMIT` items of `s`.
pub open spec fn capped(s: Seq<Seq<char>>) -> Seq<Seq<char>> {
    if s.len() > RECENTS_LIMIT {
        s.take(RECENTS_LIMIT as int)
    } else {
        s
    }
}

/// A store with version 0 read as 1, favorites and recents trimmed and free of
/// empty and repeated items, and recents capped.
pub open spec fn normalized(s: StoreView) -> StoreView {
    StoreView {
        version: if s.version == 0 {
            1
        } else {
            s.version
        },
        favorites: unique_trimmed(s.favorites),
        recents: capped(unique_trimmed(s.recents)),
        updated_at: s.updated_at,
    }
}

/// `s` without the items equal to `a`.
pub open spec fn without(s: Seq<Seq<char>>, a: Seq<char>) -> Seq<Seq<char>>
    decreases s.len(),
{
    if s.len() == 0 {
        s
    } else if s.last() == a {
        without(s.drop_last(), a)
    } else {
        without(s.drop_last(), a).push(s.last())
    }
}

/// The result of toggling the favorite `alias`: the new store, and whether
/// the alias is now a favorite.
pub open spec fn toggled(s: StoreView, alias: Seq<char>) -> (StoreView, bool) {
    let a = text::trim(alias);
    if a.len() == 0 {
        (s, false)
    } else if s.favorites.contains(a) {
        (StoreView { favorites: without(s.favorites, a), ..s }, false)
    } else {
        (normalized(StoreView { favorites: s.favorites.push(a), ..s }), true)
    }
}

/// The store after `alias` was used: it heads the recents, once.
pub open spec fn with_recent(s: StoreView, alias: Seq<char>) -> StoreView {
    let a = text::trim(alias);
    if a.len() == 0 {
        s
    } else {
        StoreView { recents: capped(seq![a] + without(s.recents, a)), ..s }
    }
}

/// Whether `a` is in `v`, comparing characters.
pub fn contains_string(v: &Vec<String>, a: &str) -> (r: bool)
    ensures
        r == strings_view(v@).contains(a@),
{
    let mut i: usize = 0;
    while i < v.len()
        invariant
            i <= v.len(),
            forall|k: int| 0 <= k < i ==> v@[k]@ != a@,
        decreases v.len() - i,
    {
        if text::str_eq(v[i].as_str(), a) {
            assert(strings_view(v@)[i as int] == a@);
            return true;
        }
        i += 1;
    }
    assert forall|k: int| 0 <= k < strings_view(v@).len() implies strings_view(v@)[k] != a@ by {
        assert(strings_view(v@)[k] == v@[k]@);
    }
    false
}

proof fn lemma_strings_view_push(v: Seq<String>, s: String)
    ensures
        strings_view(v.push(s)) == strings_view(v).push(s@),
{
    assert(strings_view(v.push(s)) =~= strings_view(v).push(s@));
}

proof fn lemma_strings_view_take(v: Seq<String>, i: int)
    requires
        0 <= i <= v.len(),
    ensures
        strings_view(v.take(i)) == strings_view(v).take(i),
{
    assert(strings_view(v.take(i)) =~= strings_view(v).take(i));
}

/// The trimmed, non-empty items of `items`, each kept once, in order of
/// first occurrence.
pub fn unique_non_empty(items: &Vec<String>) -> (r: Vec<String>)
    ensures
        strings_view(r@) == unique_trimmed(strings_view(items@)),
{
    let mut out: Vec<String> = Vec::new();
    let mut i: usize = 0;
    while i < items.len()
        invariant
            i <= items.len(),
            strings_view(out@) == unique_trimmed(strings_view(items@).take(i as int)),
        decreases items.len() - i,
    {
        let t = text::trim_str(items[i].as_str());
        proof {
            let s = strings_view(items@).take(i + 1);
            assert(s.drop_last() =~= strings_view(items@).take(i as int));
            assert(s.last() == items@[i as int]@);
        }
        if !t.as_str().is_empty() && !contains_string(&out, t.as_str()) {
            proof {
                lemma_strings_view_push(out@, t);
            }
            out.push(t);
        }
        i += 1;
    }
    assert(strings_view(items@).take(items.len() as int) =~= strings_view(items@));
    out
}

/// `v` without the items equal to `a`.
pub fn strings_without(v: &Vec<String>, a: &str) -> (r: Vec<String>)
    ensures
        strings_view(r@) == without(strings_view(v@), a@),
{
    let mut out: Vec<String> = Vec::new();
    let mut i: usize = 0;
    while i < v.len()
        invariant
            i <= v.len(),
            strings_view(out@) == without(strings_view(v@).take(i as int), a@),
        decreases v.len() - i,
    {
        proof {
            let s = strings_view(v@).take(i + 1);
            assert(s.drop_last() =~= strings_view(v@).take(i as int));
            assert(s.last() == v@[i as int]@);
        }
        if !text::str_eq(v[i].as_str(), a) {
            proof {
                lemma_strings_view_push(out@, v@[i as int]);
            }
            out.push(v[i].clone());
        }
        i += 1;
    }
    assert(strings_view(v@).take(v.len() as int) =~= strings_view(v@));
    out
}

/// Keeps at most the first `RECENTS_LIMIT` items of `v`.
fn cap_strings(v: &mut Vec<String>)
    ensures
        strings_view(final(v)@) == capped(strings_view(old(v)@)),
{
    if v.len() > RECENTS_LIMIT {
        v.truncate(RECENTS_LIMIT);
        proof {
            lemma_strings_view_take(old(v)@, RECENTS_LIMIT as int);
        }
    }
}

impl Store {
    /// Whether the trimmed `alias` is a favorite.
    pub fn is_favorite(&self, alias: &str) -> (r: bool)
        ensures
            r == self@.favorites.contains(text::trim(alias@)),
    {
        let a = text::trim_str(alias);
        contains_string(&self.favorites, a.as_str())
    }

    /// Reads version 0 as 1, trims the favorites and recents, drops empty and
    /// repeated items, and keeps at most `RECENTS_LIMIT` recents.
    pub fn normalize(&mut self)
        ensures
            final(self)@ == normalized(old(self)@),
    {
        if self.version == 0 {
            self.version = 1;
        }
        self.favorites = unique_non_empty(&self.favorites);
        let mut recents = unique_non_empty(&self.recents);
        cap_strings(&mut recents);
        self.recents = recents;
    }

    /// Adds the trimmed `alias` to the favorites, or removes it when it is one
    /// already; returns whether it is a favorite afterwards. An empty alias
    /// changes nothing.
    pub fn toggle_favorite(&mut self, alias: &str) -> (r: bool)
        ensures
            (final(self)@, r) == toggled(old(self)@, alias@),
    {
        let a = text::trim_str(alias);
        if a.as_str().is_empty() {
            return false;
        }
        if contains_string(&self.favorites, a.as_str()) {
            self.favorites = strings_without(&self.favorites, a.as_str());
            return false;
        }
        proof {
            lemma_strings_view_push(self.favorites@, a);
        }
        self.favorites.push(a);
        self.normalize();
        true
    }

    /// Puts the trimmed `alias` at the head of the recents, removing its
    /// other occurrences and keeping at most `RECENTS_LIMIT` items. An empty
    /// alias changes nothing.
    pub fn add_recent(&mut self, alias: &str)
        ensures
            final(self)@ == with_recent(old(self)@, alias@),
    {
        let a = text::trim_str(alias);
        if a.as_str().is_empty() {
            return;
        }
        let rest = strings_without(&self.recents, a.as_str());
        let mut next: Vec<String> = Vec::new();
        next.push(a.clone());
        let mut i: usize = 0;
        while i < rest.len()
            invariant
                i <= rest.len(),
                strings_view(next@) == seq![a@] + strings_view(rest@).take(i as int),
            decreases rest.len() - i,
        {
            proof {
                lemma_strings_view_push(next@, rest@[i as int]);
                assert(strings_view(rest@).take(i + 1) =~= strings_view(rest@).take(i as int).push(
                    rest@[i as int]@,
                ));
            }
            next.push(rest[i].clone());
            i += 1;
        }
        assert(strings_view(rest@).take(rest.len() as int) =~= strings_view(rest@));
        cap_strings(&mut next);
        self.recents = next;
    }

    /// Readies the store to be written at time `now` (RFC 3339 text, read
    /// from the clock by the caller): normalizes it and stamps it.
    pub fn stamp_for_save(&mut self, now: &str)
        ensures
            final(self)@ == (StoreView { updated_at: now@, ..normalized(old(self)@) }),
    {
        self.normalize();
        self.updated_at = text::copy_str(now);
    }
}

// ---------------------------------------------------------------- laws

/// A clean list: each item trimmed and not empty, and no item twice.
pub open spec fn clean(y: Seq<Seq<char>>) -> bool {
    &&& forall|i: int| 0 <= i < y.len() ==> text::trim(#[trigger] y[i]) == y[i] && y[i].len() > 0
    &&& forall|i: int, j: int| 0 <= i < j < y.len() ==> y[i] != y[j]
}

proof fn lemma_unique_trimmed_clean(x: Seq<Seq<char>>)
    ensures
        clean(unique_trimmed(x)),
    decreases x.len(),
{
    if x.len() > 0 {
        lemma_unique_trimmed_clean(x.drop_last());
        let prev = unique_trimmed(x.drop_last());
        let t = text::trim(x.last());
        text::lemma_trim_idempotent(x.last());
        if !(t.len() == 0 || prev.contains(t)) {
            let y = prev.push(t);
            assert forall|i: int| 0 <= i < y.len() implies text::trim(#[trigger] y[i]) == y[i] && y[i].len() > 0 by {
                if i < prev.len() {
                    assert(y[i] == prev[i]);
                }
            }
            assert forall|i: int, j: int| 0 <= i < j < y.len() implies y[i] != y[j] by {
                if j == prev.len() {
                    assert(y[i] == prev[i]);
                    if y[i] == y[j] {
                        assert(prev.contains(t));
                    }
                } else {
                    assert(y[i] == prev[i] && y[j] == prev[j]);
                }
            }
        }
    }
}

proof fn lemma_unique_trimmed_fixed(y: Seq<Seq<char>>)
    requires
        clean(y),
    ensures
        unique_trimmed(y) == y,
    decreases y.len(),
{
    if y.len() > 0 {
        let p = y.drop_last();
        assert(clean(p)) by {
            assert forall|i: int| 0 <= i < p.len() implies text::trim(#[trigger] p[i]) == p[i] && p[i].len() > 0 by {
                assert(p[i] == y[i]);
            }
            assert forall|i: int, j: int| 0 <= i < j < p.len() implies p[i] != p[j] by {
                assert(p[i] == y[i] && p[j] == y[j]);
            }
        }
        lemma_unique_trimmed_fixed(p);
        assert(text::trim(y[y.len() - 1]) == y[y.len() - 1]);
        if p.contains(y.last()) {
            let k = choose|k: int| 0 <= k < p.len() && p[k] == y.last();
            assert(y[k] == y[y.len() - 1]);
        }
        assert(p.push(y.last()) =~= y);
    }
}

proof fn lemma_capped_clean(y: Seq<Seq<char>>)
    requires
        clean(y),
    ensures
        clean(capped(y)),
        capped(y).len() <= RECENTS_LIMIT,
{
    if y.len() > RECENTS_LIMIT {
        let c = y.take(RECENTS_LIMIT as int);
        assert forall|i: int| 0 <= i < c.len() implies text::trim(#[trigger] c[i]) == c[i] && c[i].len() > 0 by {
            assert(c[i] == y[i]);
        }
        assert forall|i: int, j: int| 0 <= i < j < c.len() implies c[i] != c[j] by {
            assert(c[i] == y[i] && c[j] == y[j]);
        }
    }
}

/// A normalized store has clean favorites and recents, and at most
/// `RECENTS_LIMIT` recents.
pub proof fn lemma_normalized_clean(s: StoreView)
    ensures
        clean(normalized(s).favorites),
        clean(normalized(s).recents),
        normalized(s).recents.len() <= RECENTS_LIMIT,
        normalized(s).version != 0,
{
    lemma_unique_trimmed_clean(s.favorites);
    lemma_unique_trimmed_clean(s.recents);
    lemma_capped_clean(unique_trimmed(s.recents));
}

/// Normalizing twice is normalizing once.
pub proof fn lemma_normalize_idempotent(s: StoreView)
    ensures
        normalized(normalized(s)) == normalized(s),
{
    lemma_normalized_clean(s);
    let n = normalized(s);
    lemma_unique_trimmed_fixed(n.favorites);
    lemma_unique_trimmed_fixed(n.recents);
    assert(capped(n.recents) == n.recents);
}

proof fn lemma_without_absent(f: Seq<Seq<char>>, a: Seq<char>)
    requires
        !f.contains(a),
    ensures
        without(f, a) == f,
    decreases f.len(),
{
    if f.len() > 0 {
        let p = f.drop_last();
        if p.contains(a) {
            let k = choose|k: int| 0 <= k < p.len() && p[k] == a;
            assert(f[k] == a);
        }
        lemma_without_absent(p, a);
        assert(f.last() != a) by {
            assert(f[f.len() - 1] == f.last());
        }
        assert(p.push(f.last()) =~= f);
    }
}

proof fn lemma_without_removes(f: Seq<Seq<char>>, a: Seq<char>)
    ensures
        !without(f, a).contains(a),
        without(f, a).len() <= f.len(),
    decreases f.len(),
{
    if f.len() > 0 {
        lemma_without_removes(f.drop_last(), a);
        let w = without(f.drop_last(), a);
        if f.last() != a {
            if w.push(f.last()).contains(a) {
                let k = choose|k: int| 0 <= k < w.push(f.last()).len() && w.push(f.last())[k] == a;
                assert(w[k] == a);
            }
        }
    }
}

/// Toggling a favorite reports whether the alias is a favorite afterwards.
pub proof fn lemma_toggle_reports_membership(s: StoreView, alias: Seq<char>)
    requires
        text::trim(alias).len() > 0,
    ensures
        toggled(s, alias).1 == toggled(s, alias).0.favorites.contains(text::trim(alias)),
{
    let a = text::trim(alias);
    if s.favorites.contains(a) {
        lemma_without_removes(s.favorites, a);
    } else {
        let x = s.favorites.push(a);
        let prev = unique_trimmed(x.drop_last());
        assert(x.drop_last() =~= s.favorites);
        text::lemma_trim_idempotent(alias);
        assert(x.last() == a);
        if prev.contains(a) {
        } else {
            assert(prev.push(a)[prev.len() as int] == a);
        }
    }
}

/// Toggling an alias that is not a favorite, then toggling it again, gives
/// back a normalized store unchanged.
pub proof fn lemma_toggle_twice(s: StoreView, alias: Seq<char>)
    requires
        normalized(s) == s,
        text::trim(alias).len() > 0,
        !s.favorites.contains(text::trim(alias)),
    ensures
        toggled(s, alias).1,
        !toggled(toggled(s, alias).0, alias).1,
        toggled(toggled(s, alias).0, alias).0 == s,
{
    let a = text::trim(alias);
    lemma_normalized_clean(s);
    lemma_unique_trimmed_fixed(s.favorites);
    text::lemma_trim_idempotent(alias);
    let x = s.favorites.push(a);
    assert(x.drop_last() =~= s.favorites);
    assert(unique_trimmed(x) == s.favorites.push(a));
    lemma_unique_trimmed_fixed(s.recents);
    let t1 = toggled(s, alias).0;
    assert(t1.favorites == s.favorites.push(a));
    assert(t1.recents == s.recents);
    assert(t1.favorites.contains(a)) by {
        assert(t1.favorites[s.favorites.len() as int] == a);
    }
    assert(without(s.favorites.push(a), a) == without(s.favorites, a)) by {
        assert(s.favorites.push(a).drop_last() =~= s.favorites);
    }
    lemma_without_absent(s.favorites, a);
}

/// After a use, the alias heads the recents, appears there once, and the
/// recents stay within `RECENTS_LIMIT`.
pub proof fn lemma_recent_heads(s: StoreView, alias: Seq<char>)
    requires
        text::trim(alias).len() > 0,
    ensures
        with_recent(s, alias).recents.len() > 0,
        with_recent(s, alias).recents[0] == text::trim(alias),
        forall|k: int| 0 < k < with_recent(s, alias).recents.len() ==> with_recent(s, alias).recents[k] != text::trim(alias),
        with_recent(s, alias).recents.len() <= RECENTS_LIMIT,
        with_recent(s, alias).favorites == s.favorites,
{
    let a = text::trim(alias);
    lemma_without_removes(s.recents, a);
    let w = without(s.recents, a);
    let full = seq![a] + w;
    assert forall|k: int| 0 < k < full.len() implies full[k] != a by {
        assert(full[k] == w[k - 1]);
    }
}

/// Using the same host twice in a row changes nothing the second time.
pub proof fn lemma_recent_twice(s: StoreView, alias: Seq<char>)
    ensures
        with_recent(with_recent(s, alias), alias) == with_recent(s, alias),
{
    let a = text::trim(alias);
    if a.len() > 0 {
        let r1 = with_recent(s, alias).recents;
        lemma_recent_heads(s, alias);
        lemma_without_removes(s.recents, a);
        let w = without(s.recents, a);
        // r1 = capped([a] + w); removing a from it leaves its tail
        let tail = r1.drop_first();
        assert(!tail.contains(a)) by {
            if tail.contains(a) {
                let k = choose|k: int| 0 <= k < tail.len() && tail[k] == a;
                assert(r1[k + 1] == a);
            }
        }
        lemma_without_absent(tail, a);
        lemma_without_head(r1, a);
        assert(seq![a] + tail =~= r1);
        assert(capped(r1) == r1);
    }
}

proof fn lemma_without_head(r: Seq<Seq<char>>, a: Seq<char>)
    requires
        r.len() > 0,
        r[0] == a,
    ensures
        without(r, a) == without(r.drop_first(), a),
    decreases r.len(),
{
    if r.len() > 1 {
        lemma_without_head(r.drop_last(), a);
        assert(r.drop_last().drop_first() =~= r.drop_first().drop_last());
        assert(r.drop_first().last() == r.last());
    } else {
        assert(r.drop_first() =~= Seq::<Seq<char>>::empty());
        assert(r.drop_last() =~= Seq::<Seq<char>>::empty());
    }
}

/// Where the state file lives: under `XDG_CONFIG_HOME` when set, else under
/// the platform's config directory for `tmux-ssh-manager`, else under
/// `~/.config`.
pub open spec fn state_path_of(xdg: Option<Seq<char>>, project: Option<Seq<char>>, home: Option<Seq<char>>) -> Option<Seq<char>> {
    match xdg {
        Some(x) => Some(paths::path_join(paths::path_join(x, "tmux-ssh-manager"@), "state.json"@)),
        None => match project {
            Some(d) => Some(paths::path_join(d, "state.json"@)),
            None => match home {
                Some(h) => Some(
                    paths::path_join(
                        paths::path_join(paths::path_join(h, ".config"@), "tmux-ssh-manager"@),
                        "state.json"@,
                    ),
                ),
                None => None,
            },
        },
    }
}

/// The state file's path from the three places it can come from.
pub fn state_path_from(xdg_config_home: Option<&str>, project_dir: Option<&str>, home: Option<&str>) -> (r: Option<String>)
    ensures
        paths::opt_view(r) == state_path_of(tmuxrun::sv(xdg_config_home), tmuxrun::sv(project_dir), tmuxrun::sv(home)),
{
    match xdg_config_home {
        Some(x) => {
            let a = paths::join_path(x, "tmux-ssh-manager");
            Some(paths::join_path(a.as_str(), "state.json"))
        },
        None => match project_dir {
            Some(d) => Some(paths::join_path(d, "state.json")),
            None => match home {
                Some(h) => {
                    let a = paths::join_path(h, ".config");
                    let b = paths::join_path(a.as_str(), "tmux-ssh-manager");
                    Some(paths::join_path(b.as_str(), "state.json"))
                },
                None => None,
            },
        },
    }
}

/// The state file's path, given `XDG_CONFIG_HOME` and `HOME`; the
/// platform's directory is asked for only when `XDG_CONFIG_HOME` is unset.
/// `None` means no place could be found.
pub fn default_path(xdg_config_home: Option<&str>, home: Option<&str>) -> (r: Option<String>)
    ensures
        xdg_config_home is Some ==> paths::opt_view(r) == state_path_of(tmuxrun::sv(xdg_config_home), None, tmuxrun::sv(home)),
        xdg_config_home is None ==> exists|p: Option<Seq<char>>|
            paths::opt_view(r) == state_path_of(None, p, tmuxrun::sv(home)),
{
    match xdg_config_home {
        Some(_) => state_path_from(xdg_config_home, None, home),
        None => {
            let project = tmuxrun::project_config_dir("tmux-ssh-manager");
            let r = match &project {
                Some(d) => state_path_from(None, Some(d.as_str()), home),
                None => state_path_from(None, None, home),
            };
            assert(paths::opt_view(r) == state_path_of(None, paths::opt_view(project), tmuxrun::sv(home)));
            r
        },
    }
}

} // verus!
