//! Paths as the config files write them: `$VAR` and `~/` expansion against
//! a snapshot of the environment, joining, and `Include` patterns.
use vstd::prelude::*;

use crate::text;

verus! {

/// The environment as name/value pairs, by view.
pub open spec fn env_view(env: Seq<(String, String)>) -> Seq<(Seq<char>, Seq<char>)> {
    env.map_values(|p: (String, String)| (p.0@, p.1@))
}

/// The value of the first variable named `name`.
pub open spec fn env_lookup(env: Seq<(Seq<char>, Seq<char>)>, name: Seq<char>) -> Option<Seq<char>>
    decreases env.len(),
{
    if env.len() == 0 {
        None
    } else if env[0].0 == name {
        Some(env[0].1)
    } else {
        env_lookup(env.drop_first(), name)
    }
}

/// The optional string, by view.
pub open spec fn opt_view(o: Option<String>) -> Option<Seq<char>> {
    match o {
        Some(s) => Some(s@),
        None => None,
    }
}

/// Looks up a variable in an environment snapshot.
pub fn env_get(env: &Vec<(String, String)>, name: &str) -> (r: Option<String>)
    ensures
        opt_view(r) == env_lookup(env_view(env@), name@),
{
    let mut i: usize = 0;
    assert(env_view(env@).skip(0) =~= env_view(env@));
    while i < env.len()
        invariant
            i <= env.len(),
            env_lookup(env_view(env@), name@) == env_lookup(env_view(env@).skip(i as int), name@),
        decreases env.len() - i,
    {
        proof {
            let s = env_view(env@).skip(i as int);
            assert(s.drop_first() =~= env_view(env@).skip(i + 1));
            assert(s[0] == (env@[i as int].0@, env@[i as int].1@));
        }
        if text::str_eq(env[i].0.as_str(), name) {
            return Some(env[i].1.clone());
        }
        i += 1;
    }
    None
}

/// A character of a variable name: an ASCII letter or digit, or `_`.
pub open spec fn is_name_char(c: char) -> bool {
    let u = c as u32;
    ||| 48 <= u <= 57
    ||| 65 <= u <= 90
    ||| 97 <= u <= 122
    ||| u == 95
}

fn name_char(c: char) -> (r: bool)
    ensures
        r == is_name_char(c),
{
    let u = c as u32;
    (48 <= u && u <= 57) || (65 <= u && u <= 90) || (97 <= u && u <= 122) || u == 95
}

/// The length of the variable name at the start of `s`.
pub open spec fn name_len(s: Seq<char>) -> nat
    decreases s.len(),
{
    if s.len() > 0 && is_name_char(s[0]) {
        1 + name_len(s.drop_first())
    } else {
        0
    }
}

pub proof fn lemma_name_len_bound(s: Seq<char>)
    ensures
        name_len(s) <= s.len(),
    decreases s.len(),
{
    if s.len() > 0 && is_name_char(s[0]) {
        lemma_name_len_bound(s.drop_first());
    }
}

proof fn lemma_name_len_at(s: Seq<char>, k: int)
    requires
        0 <= k <= s.len(),
        forall|i: int| 0 <= i < k ==> is_name_char(#[trigger] s[i]),
        k == s.len() || !is_name_char(s[k]),
    ensures
        name_len(s) == k,
    decreases k,
{
    if k > 0 {
        assert(is_name_char(s[0]));
        let t = s.drop_first();
        assert forall|i: int| 0 <= i < k - 1 implies is_name_char(#[trigger] t[i]) by {
            assert(t[i] == s[i + 1]);
        }
        if k < s.len() {
            assert(t[k - 1] == s[k]);
        }
        lemma_name_len_at(t, k - 1);
    }
}

/// `s` with each `$NAME` replaced by the variable's value; a `$` that names
/// no set variable stays as written.
pub open spec fn expand_vars(s: Seq<char>, env: Seq<(Seq<char>, Seq<char>)>) -> Seq<char>
    decreases s.len(),
{
    if s.len() == 0 {
        Seq::empty()
    } else if s[0] == '$' {
        let rest = s.drop_first();
        let n = name_len(rest);
        proof {
            lemma_name_len_bound(rest);
        }
        let name = rest.take(n as int);
        let after = rest.skip(n as int);
        let found = if n > 0 {
            env_lookup(env, name)
        } else {
            None
        };
        match found {
            Some(v) => v + expand_vars(after, env),
            None => seq!['$'] + name + expand_vars(after, env),
        }
    } else {
        seq![s[0]] + expand_vars(s.drop_first(), env)
    }
}

fn expand_vars_in(v: &Vec<char>, env: &Vec<(String, String)>) -> (r: String)
    ensures
        r@ == expand_vars(v@, env_view(env@)),
{
    let ghost e = env_view(env@);
    let mut out = String::new();
    let mut i: usize = 0;
    assert(v@.skip(0) =~= v@);
    while i < v.len()
        invariant
            i <= v.len(),
            e == env_view(env@),
            out@ + expand_vars(v@.skip(i as int), e) == expand_vars(v@, e),
        decreases v.len() - i,
    {
        let ghost s = v@.skip(i as int);
        assert(s[0] == v@[i as int]);
        if v[i] == '$' {
            let mut j: usize = i + 1;
            while j < v.len() && name_char(v[j])
                invariant
                    i + 1 <= j <= v.len(),
                    forall|k: int| i + 1 <= k < j ==> is_name_char(#[trigger] v@[k]),
                decreases v.len() - j,
            {
                j += 1;
            }
            let ghost rest = s.drop_first();
            proof {
                assert(rest =~= v@.skip(i + 1));
                assert forall|k: int| 0 <= k < j - (i + 1) implies is_name_char(#[trigger] rest[k]) by {
                    assert(rest[k] == v@[k + i + 1]);
                }
                if j < v.len() {
                    assert(rest[j - (i + 1)] == v@[j as int]);
                }
                lemma_name_len_at(rest, j - (i + 1));
                assert(rest.take(j - (i + 1)) =~= v@.subrange(i + 1, j as int));
                assert(rest.skip(j - (i + 1)) =~= v@.skip(j as int));
            }
            let name = text::string_of_range(v, i + 1, j);
            let found = if j > i + 1 {
                env_get(env, name.as_str())
            } else {
                None
            };
            let ghost out0 = out@;
            match found {
                Some(val) => {
                    text::push_str(&mut out, val.as_str());
                },
                None => {
                    out.push('$');
                    text::push_str(&mut out, name.as_str());
                },
            }
            proof {
                assert(out@ + expand_vars(v@.skip(j as int), e) =~= out0 + expand_vars(s, e));
            }
            i = j;
        } else {
            let ghost out0 = out@;
            out.push(v[i]);
            proof {
                assert(s.drop_first() =~= v@.skip(i + 1));
                assert(out@ + expand_vars(v@.skip(i + 1), e) =~= out0 + expand_vars(s, e));
            }
            i += 1;
        }
    }
    assert(v@.skip(v.len() as int) =~= Seq::<char>::empty());
    assert(out@ + Seq::<char>::empty() =~= out@);
    out
}

/// Whether `s` starts with `~/`.
pub open spec fn home_relative(s: Seq<char>) -> bool {
    s.len() >= 2 && s[0] == '~' && s[1] == '/'
}

/// `s` with every leading `~/` removed, as `trim_start_matches("~/")` does.
pub open spec fn strip_home_prefixes(s: Seq<char>) -> Seq<char>
    decreases s.len(),
{
    if home_relative(s) {
        strip_home_prefixes(s.skip(2))
    } else {
        s
    }
}

fn strip_home(v: &Vec<char>) -> (r: String)
    ensures
        r@ == strip_home_prefixes(v@),
{
    let mut i: usize = 0;
    assert(v@.skip(0) =~= v@);
    while i < v.len() && i + 1 < v.len() && v[i] == '~' && v[i + 1] == '/'
        invariant
            i <= v.len(),
            strip_home_prefixes(v@) == strip_home_prefixes(v@.skip(i as int)),
        decreases v.len() - i,
    {
        proof {
            let s = v@.skip(i as int);
            assert(s[0] == v@[i as int] && s[1] == v@[i + 1]);
            assert(s.skip(2) =~= v@.skip(i + 2));
        }
        i += 2;
    }
    proof {
        let s = v@.skip(i as int);
        if s.len() >= 2 {
            assert(s[0] == v@[i as int] && s[1] == v@[i + 1]);
        }
        assert(s =~= v@.subrange(i as int, v.len() as int));
    }
    text::string_of_range(v, i, v.len())
}

/// `rest` joined onto `base` as `Path::join` does: an absolute `rest`
/// replaces `base`; otherwise a `/` goes between them unless `base` is empty
/// or already ends with one.
pub open spec fn path_join(base: Seq<char>, rest: Seq<char>) -> Seq<char> {
    if rest.len() > 0 && rest[0] == '/' {
        rest
    } else if base.len() > 0 && base.last() != '/' {
        base + seq!['/'] + rest
    } else {
        base + rest
    }
}

/// Joins `rest` onto `base` as `Path::join` does.
pub fn join_path(base: &str, rest: &str) -> (r: String)
    ensures
        r@ == path_join(base@, rest@),
{
    let vr = text::chars_of(rest);
    if vr.len() > 0 && vr[0] == '/' {
        return text::copy_str(rest);
    }
    let vb = text::chars_of(base);
    let mut out = text::copy_str(base);
    if vb.len() > 0 && vb[vb.len() - 1] != '/' {
        out.push('/');
    }
    text::push_str(&mut out, rest);
    out
}

/// A path from a config file, expanded: trimmed, each `$NAME` replaced by the
/// variable's value, then a lone `~` or a leading `~/` resolved against
/// `HOME` when it is set.
pub open spec fn expanded_path(path: Seq<char>, env: Seq<(Seq<char>, Seq<char>)>) -> Seq<char> {
    let p = text::trim(path);
    if p.len() == 0 {
        Seq::empty()
    } else {
        let out = expand_vars(p, env);
        match env_lookup(env, "HOME"@) {
            Some(home) => if out == seq!['~'] {
                home
            } else if home_relative(out) {
                path_join(home, strip_home_prefixes(out))
            } else {
                out
            },
            None => out,
        }
    }
}

/// Expands a path from a config file against an environment snapshot.
pub fn expand_path(path: &str, env: &Vec<(String, String)>) -> (r: String)
    ensures
        r@ == expanded_path(path@, env_view(env@)),
{
    let p = text::trim_chars(path);
    if p.len() == 0 {
        return String::new();
    }
    let out = expand_vars_in(&p, env);
    let home = env_get(env, "HOME");
    match home {
        Some(h) => {
            let vo = text::chars_of(out.as_str());
            if vo.len() == 1 && vo[0] == '~' {
                assert(vo@ =~= seq!['~']);
                h
            } else if vo.len() >= 2 && vo[0] == '~' && vo[1] == '/' {
                let rest = strip_home(&vo);
                join_path(h.as_str(), rest.as_str())
            } else {
                proof {
                    if vo@ == seq!['~'] {
                        assert(vo@.len() == 1);
                    }
                }
                out
            }
        },
        None => out,
    }
}

/// The parent directory of a path, as `Path::parent` gives it.
pub uninterp spec fn parent_of(p: Seq<char>) -> Option<Seq<char>>;

/// Calls `Path::parent`. The contract claims only that the result is a
/// function of the path's text; how `Path` splits components is not stated.
#[verifier::external_body]
fn path_parent(p: &str) -> (r: Option<String>)
    ensures
        opt_view(r) == parent_of(p@),
{
    match std::path::Path::new(p).parent() {
        Some(d) => Some(d.to_string_lossy().into_owned()),
        None => None,
    }
}

/// The glob pattern of an `Include` in the file `base_file`: the argument
/// expanded and trimmed, and a relative one taken from the file's directory.
/// A blank argument includes nothing.
pub open spec fn include_glob(base_file: Seq<char>, raw: Seq<char>, env: Seq<(Seq<char>, Seq<char>)>) -> Option<Seq<char>> {
    let p = text::trim(expanded_path(raw, env));
    if p.len() == 0 {
        None
    } else if p[0] == '/' {
        Some(p)
    } else {
        match parent_of(base_file) {
            Some(dir) => Some(path_join(dir, p)),
            None => Some(p),
        }
    }
}

/// The glob pattern that an `Include` in `base_file` names.
pub fn include_pattern(base_file: &str, raw: &str, env: &Vec<(String, String)>) -> (r: Option<String>)
    ensures
        opt_view(r) == include_glob(base_file@, raw@, env_view(env@)),
{
    let expanded = expand_path(raw, env);
    let p = text::trim_str(expanded.as_str());
    let vp = text::chars_of(p.as_str());
    if vp.len() == 0 {
        return None;
    }
    if vp[0] == '/' {
        return Some(p);
    }
    match path_parent(base_file) {
        Some(dir) => Some(join_path(dir.as_str(), p.as_str())),
        None => Some(p),
    }
}

} // verus!
