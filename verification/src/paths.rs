//! A textual model of filesystem paths.
//!
//! Paths are plain strings whose separator is `/`; backslashes are treated as
//! the same separator and rewritten by [`normalize`]. A path `p` lies in the
//! subtree of a path `x` when `p` equals `x` or continues it past a separator;
//! that relation, [`is_under`], is what the exclude rules of the file
//! enumerator are stated with.

use vstd::prelude::*;
use vstd::string::{StrSliceExecFns, StringExecFns};

verus! {

/// A single path character with a backslash rewritten to a forward slash.
pub open spec fn norm_char(c: char) -> char {
    if c == '\\' {
        '/'
    } else {
        c
    }
}

/// Separator normalization: every backslash becomes a forward slash.
pub open spec fn norm(s: Seq<char>) -> Seq<char> {
    s.map_values(|c: char| norm_char(c))
}

/// A directory path and an entry name joined with a `/` separator.
pub open spec fn spec_join(d: Seq<char>, n: Seq<char>) -> Seq<char> {
    d + seq!['/'] + n
}

/// `p` lies in the subtree rooted at `x`: it is `x` itself, or continues `x`
/// immediately past a `/` separator.
pub open spec fn is_under(p: Seq<char>, x: Seq<char>) -> bool {
    p == x || (x.len() < p.len() && p.subrange(0, x.len() as int) == x && p[x.len() as int] == '/')
}

/// `p` lies in the subtree of some member of `xs`.
pub open spec fn under_any(p: Seq<char>, xs: Seq<Seq<char>>) -> bool {
    exists|i: int| 0 <= i < xs.len() && is_under(p, xs[i])
}

/// Relies on `String::push`: appends exactly the given character.
#[verifier::external_body]
pub(crate) fn push_char(s: &mut String, c: char)
    ensures
        final(s)@ == old(s)@ + seq![c],
{
    s.push(c);
}

/// Replaces every backslash in `s` by a forward slash.
pub fn normalize(s: &str) -> (r: String)
    ensures
        r@ == norm(s@),
{
    let len = s.unicode_len();
    let mut r = String::new();
    let mut i: usize = 0;
    while i < len
        invariant
            i <= len,
            len == s@.len(),
            r@ == norm(s@.subrange(0, i as int)),
        decreases len - i,
    {
        let c = s.get_char(i);
        let nc = if c == '\\' {
            '/'
        } else {
            c
        };
        push_char(&mut r, nc);
        proof {
            assert(norm(s@.subrange(0, i + 1)) =~= norm(s@.subrange(0, i as int)) + seq![
                norm_char(s@[i as int]),
            ]);
        }
        i = i + 1;
    }
    proof {
        assert(s@.subrange(0, len as int) =~= s@);
    }
    r
}

/// A path extended by one component, as `PathBuf::push` writes it: a
/// separator is added only when the base does not already end with one, and
/// an empty base gives the component alone.
pub open spec fn spec_push_path(base: Seq<char>, name: Seq<char>) -> Seq<char> {
    if base.len() == 0 {
        name
    } else if base[base.len() - 1] == '/' || base[base.len() - 1] == '\\' {
        base + name
    } else {
        base + seq!['/'] + name
    }
}

/// Extends a path by one component, adding a separator only where needed.
pub fn push_path(base: &str, name: &str) -> (r: String)
    ensures
        r@ == spec_push_path(base@, name@),
{
    let blen = base.unicode_len();
    let mut r = String::from_str(base);
    if blen > 0 {
        let c = base.get_char(blen - 1);
        if !(c == '/' || c == '\\') {
            push_char(&mut r, '/');
        }
    }
    r.append(name);
    r
}

/// Joins a directory path and an entry name with a `/` separator.
pub fn join_path(d: &str, n: &str) -> (r: String)
    ensures
        r@ == spec_join(d@, n@),
{
    let mut r = String::from_str(d);
    push_char(&mut r, '/');
    r.append(n);
    r
}

/// Decides whether `p` lies in the subtree rooted at `x`.
pub fn path_is_under(p: &String, x: &String) -> (r: bool)
    ensures
        r == is_under(p@, x@),
{
    let plen = p.as_str().unicode_len();
    let xlen = x.as_str().unicode_len();
    if xlen > plen {
        return false;
    }
    let mut j: usize = 0;
    while j < xlen
        invariant
            j <= xlen <= plen,
            plen == p@.len(),
            xlen == x@.len(),
            forall|k: int| 0 <= k < j ==> p@[k] == x@[k],
        decreases xlen - j,
    {
        if p.as_str().get_char(j) != x.as_str().get_char(j) {
            assert(!is_under(p@, x@));
            return false;
        }
        j = j + 1;
    }
    if xlen == plen {
        proof {
            assert(p@ =~= x@);
        }
        true
    } else {
        proof {
            assert(p@.subrange(0, xlen as int) =~= x@);
        }
        p.as_str().get_char(xlen) == '/'
    }
}

/// Decides whether `p` lies in the subtree of some member of `xs`.
pub fn under_any_exec(p: &String, xs: &Vec<String>) -> (r: bool)
    ensures
        r == under_any(p@, xs.deep_view()),
{
    let mut i: usize = 0;
    while i < xs.len()
        invariant
            i <= xs.len(),
            forall|k: int| 0 <= k < i ==> !is_under(p@, xs.deep_view()[k]),
        decreases xs.len() - i,
    {
        if path_is_under(p, &xs[i]) {
            assert(is_under(p@, xs.deep_view()[i as int]));
            return true;
        }
        i = i + 1;
    }
    false
}

/// Decides whether some member of `xs` equals `p`.
pub fn contains_path(xs: &Vec<String>, p: &String) -> (r: bool)
    ensures
        r == xs.deep_view().contains(p@),
{
    let mut i: usize = 0;
    while i < xs.len()
        invariant
            i <= xs.len(),
            forall|k: int| 0 <= k < i ==> xs.deep_view()[k] != p@,
        decreases xs.len() - i,
    {
        if p.eq(&xs[i]) {
            assert(xs.deep_view()[i as int] == p@);
            return true;
        }
        i = i + 1;
    }
    false
}

/// If the entry name `n` holds no separator, the joined child path `d/n` lies
/// under `x` only if it equals `x` or its parent `d` already lies under `x`.
pub proof fn lemma_child_under(d: Seq<char>, n: Seq<char>, x: Seq<char>)
    requires
        forall|j: int| 0 <= j < n.len() ==> n[j] != '/',
        is_under(spec_join(d, n), x),
    ensures
        spec_join(d, n) == x || is_under(d, x),
{
    let p = spec_join(d, n);
    if p != x {
        assert(x.len() < p.len() && p.subrange(0, x.len() as int) == x && p[x.len() as int] == '/');
        if x.len() > d.len() {
            // the `/` at index `x.len()` would fall inside `n`
            assert(p[x.len() as int] == n[x.len() - d.len() - 1]);
            assert(false);
        } else if x.len() == d.len() {
            assert(d =~= p.subrange(0, d.len() as int));
            assert(d == x);
        } else {
            assert(d.subrange(0, x.len() as int) =~= p.subrange(0, x.len() as int));
            assert(d[x.len() as int] == p[x.len() as int]);
        }
    }
}

/// Appends one string, extending the vector's contents by its text.
pub fn push_str(v: &mut Vec<String>, s: String)
    ensures
        final(v).deep_view() == old(v).deep_view().push(s@),
{
    let ghost prev = v.deep_view();
    let ghost text = s@;
    v.push(s);
    proof {
        assert(forall|k: int| 0 <= k < prev.len() ==> v.deep_view()[k] == prev[k]);
        assert(v.deep_view()[prev.len() as int] == text);
        assert(v.deep_view() =~= prev.push(text));
    }
}

/// Removes and returns the last string.
pub fn pop_str(v: &mut Vec<String>) -> (r: String)
    requires
        old(v)@.len() > 0,
    ensures
        r@ == old(v).deep_view().last(),
        final(v).deep_view() == old(v).deep_view().drop_last(),
{
    let ghost prev = v.deep_view();
    let r = v.pop().unwrap();
    proof {
        assert(forall|k: int| 0 <= k < prev.len() - 1 ==> v.deep_view()[k] == prev[k]);
        assert(v.deep_view() =~= prev.drop_last());
    }
    r
}

/// Copies a string vector, keeping its contents.
pub fn clone_strs(v: &Vec<String>) -> (r: Vec<String>)
    ensures
        r.deep_view() == v.deep_view(),
{
    let mut r: Vec<String> = Vec::new();
    let mut i: usize = 0;
    while i < v.len()
        invariant
            i <= v.len(),
            r.deep_view() =~= v.deep_view().take(i as int),
        decreases v.len() - i,
    {
        push_str(&mut r, v[i].clone());
        proof {
            assert(r.deep_view() =~= v.deep_view().take(i + 1));
        }
        i = i + 1;
    }
    proof {
        assert(v.deep_view().take(v.len() as int) =~= v.deep_view());
    }
    r
}

} // verus!
