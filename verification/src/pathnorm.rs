//! Logical path normalization.
//!
//! Storage backends key documents on the exact normalized path, so divergent
//! spellings of one path must not yield duplicate documents.  Normalization
//! trims surrounding whitespace and separators and collapses consecutive `/`
//! into a single `/`; the result never starts or ends with `/`, and the
//! operation is idempotent.

use vstd::prelude::*;

use crate::text::{chars_vec, string_from_chars};

verus! {

/// A whitespace character trimmed from the ends of a raw path.
///
/// Deliberately the ASCII set: a storage key should not depend on the
/// Unicode whitespace table of the running toolchain, and exotic Unicode
/// spaces inside a path name are content, not decoration.
pub open spec fn is_edge_space(c: char) -> bool {
    c == ' ' || c == '\t' || c == '\n' || c == '\r'
}

/// A character stripped from the ends of a raw path: whitespace or `/`.
pub open spec fn is_edge_char(c: char) -> bool {
    is_edge_space(c) || c == '/'
}

/// `s` without its leading run of edge characters.
pub open spec fn trim_front(s: Seq<char>) -> Seq<char>
    decreases s.len(),
{
    if s.len() > 0 && is_edge_char(s.first()) {
        trim_front(s.drop_first())
    } else {
        s
    }
}

/// `s` without its trailing run of edge characters.
pub open spec fn trim_back(s: Seq<char>) -> Seq<char>
    decreases s.len(),
{
    if s.len() > 0 && is_edge_char(s.last()) {
        trim_back(s.drop_last())
    } else {
        s
    }
}

/// `s` with every run of consecutive `/` collapsed to a single `/`.
pub open spec fn collapse_slashes(s: Seq<char>) -> Seq<char>
    decreases s.len(),
{
    if s.len() == 0 {
        Seq::empty()
    } else if s.len() >= 2 && s.last() == '/' && s[s.len() - 2] == '/' {
        collapse_slashes(s.drop_last())
    } else {
        collapse_slashes(s.drop_last()).push(s.last())
    }
}

/// The canonical form of a logical path: edges trimmed of whitespace and
/// separators, interior separator runs collapsed.
pub open spec fn normalize_path_spec(s: Seq<char>) -> Seq<char> {
    collapse_slashes(trim_back(trim_front(s)))
}

/// A sequence whose first and last characters are not trimmable.
pub open spec fn clean_edges(s: Seq<char>) -> bool {
    s.len() > 0 ==> !is_edge_char(s.first()) && !is_edge_char(s.last())
}

/// No two adjacent `/` anywhere in `s`.
pub open spec fn no_double_slash(s: Seq<char>) -> bool {
    forall|i: int| 1 <= i < s.len() ==> !((#[trigger] s[i]) == '/' && s[i - 1] == '/')
}

fn is_edge_char_exec(c: char) -> (r: bool)
    ensures
        r == is_edge_char(c),
{
    c == ' ' || c == '\t' || c == '\n' || c == '\r' || c == '/'
}

/// Canonicalize a logical file path: trim surrounding whitespace, strip
/// leading and trailing `/`, collapse consecutive `/` to a single `/`.
pub fn normalize_path(path: &str) -> (r: String)
    ensures
        r@ == normalize_path_spec(path@),
{
    let cs = chars_vec(path);
    let n = cs.len();
    let ghost s = cs@;

    let mut start: usize = 0;
    proof {
        assert(s.skip(0) =~= s);
    }
    while start < n && is_edge_char_exec(cs[start])
        invariant
            start <= n,
            n == s.len(),
            cs@ == s,
            trim_front(s) == trim_front(s.skip(start as int)),
        decreases n - start,
    {
        proof {
            assert(s.skip(start as int).len() > 0);
            assert(s.skip(start as int).first() == s[start as int]);
            assert(s.skip(start as int).drop_first() =~= s.skip(start as int + 1));
        }
        start = start + 1;
    }
    proof {
        if start < n {
            assert(trim_front(s.skip(start as int)) == s.skip(start as int));
        } else {
            assert(s.skip(start as int) =~= Seq::<char>::empty());
        }
        assert(trim_front(s) == s.skip(start as int));
    }

    let mut end: usize = n;
    while end > start && is_edge_char_exec(cs[end - 1])
        invariant
            start <= end <= n,
            n == s.len(),
            cs@ == s,
            trim_front(s) == s.skip(start as int),
            trim_back(trim_front(s)) == trim_back(s.subrange(start as int, end as int)),
        decreases end,
    {
        proof {
            let t = s.subrange(start as int, end as int);
            assert(t.len() > 0);
            assert(t.last() == s[end - 1]);
            assert(t.drop_last() =~= s.subrange(start as int, end as int - 1));
        }
        end = end - 1;
    }
    proof {
        let t = s.subrange(start as int, end as int);
        if end > start {
            assert(t.last() == s[end - 1]);
            assert(trim_back(t) == t);
        } else {
            assert(t =~= Seq::<char>::empty());
        }
        assert(trim_back(trim_front(s)) == s.subrange(start as int, end as int));
    }

    let mut out: Vec<char> = Vec::new();
    let mut i: usize = start;
    while i < end
        invariant
            start <= i <= end <= n,
            n == s.len(),
            cs@ == s,
            out@ == collapse_slashes(s.subrange(start as int, i as int)),
        decreases end - i,
    {
        proof {
            let t = s.subrange(start as int, i as int + 1);
            assert(t.last() == s[i as int]);
            assert(t.drop_last() =~= s.subrange(start as int, i as int));
            if t.len() >= 2 {
                assert(t[t.len() - 2] == s[i as int - 1]);
            }
        }
        if !(i > start && cs[i] == '/' && cs[i - 1] == '/') {
            out.push(cs[i]);
        }
        i = i + 1;
    }
    proof {
        assert(out@ == collapse_slashes(trim_back(trim_front(s))));
    }
    string_from_chars(&out)
}

/// Canonicalize a directory path.  The root directory canonicalizes to the
/// empty string, and the result never ends with `/`.
pub fn normalize_directory(path: &str) -> (r: String)
    ensures
        r@ == normalize_path_spec(path@),
        r@.len() > 0 ==> r@.last() != '/',
{
    proof {
        lemma_normalize_path_clean(path@);
    }
    normalize_path(path)
}

// ---------------------------------------------------------------------------
// Shape of normalized paths
// ---------------------------------------------------------------------------

proof fn lemma_trim_front_clean(s: Seq<char>)
    ensures
        trim_front(s).len() > 0 ==> !is_edge_char(trim_front(s).first()),
    decreases s.len(),
{
    if s.len() > 0 && is_edge_char(s.first()) {
        lemma_trim_front_clean(s.drop_first());
    }
}

proof fn lemma_trim_back_shape(s: Seq<char>)
    ensures
        trim_back(s).len() > 0 ==> !is_edge_char(trim_back(s).last()),
        trim_back(s).len() > 0 ==> trim_back(s).first() == s.first(),
        trim_back(s).len() <= s.len(),
    decreases s.len(),
{
    if s.len() > 0 && is_edge_char(s.last()) {
        lemma_trim_back_shape(s.drop_last());
        if trim_back(s).len() > 0 {
            assert(s.drop_last().first() == s.first());
        }
    }
}

proof fn lemma_collapse_shape(s: Seq<char>)
    ensures
        s.len() > 0 ==> collapse_slashes(s).len() > 0,
        s.len() > 0 ==> collapse_slashes(s).first() == s.first(),
        s.len() > 0 ==> collapse_slashes(s).last() == s.last(),
        no_double_slash(collapse_slashes(s)),
    decreases s.len(),
{
    if s.len() == 0 {
    } else if s.len() >= 2 && s.last() == '/' && s[s.len() - 2] == '/' {
        lemma_collapse_shape(s.drop_last());
        assert(s.drop_last().first() == s.first());
        assert(s.drop_last().last() == s[s.len() - 2]);
    } else {
        lemma_collapse_shape(s.drop_last());
        let c = collapse_slashes(s.drop_last()).push(s.last());
        if s.len() >= 2 {
            assert(s.drop_last().first() == s.first());
            assert(s.drop_last().last() == s[s.len() - 2]);
            assert forall|i: int| 1 <= i < c.len() implies !((#[trigger] c[i]) == '/' && c[i - 1]
                == '/') by {
                if i < c.len() - 1 {
                    assert(c[i] == collapse_slashes(s.drop_last())[i]);
                    assert(c[i - 1] == collapse_slashes(s.drop_last())[i - 1]);
                } else {
                    assert(c[i] == s.last());
                    assert(c[i - 1] == collapse_slashes(s.drop_last()).last());
                }
            }
        } else {
            assert(c.len() == 1);
        }
    }
}

proof fn lemma_trim_front_id(s: Seq<char>)
    requires
        s.len() > 0 ==> !is_edge_char(s.first()),
    ensures
        trim_front(s) == s,
{
}

proof fn lemma_trim_back_id(s: Seq<char>)
    requires
        s.len() > 0 ==> !is_edge_char(s.last()),
    ensures
        trim_back(s) == s,
{
}

proof fn lemma_collapse_id(s: Seq<char>)
    requires
        no_double_slash(s),
    ensures
        collapse_slashes(s) == s,
    decreases s.len(),
{
    if s.len() == 0 {
        assert(collapse_slashes(s) =~= s);
    } else {
        if s.len() >= 2 {
            assert(!(s[s.len() - 1] == '/' && s[s.len() - 2] == '/'));
            assert(s.last() == s[s.len() - 1]);
        }
        lemma_collapse_id(s.drop_last());
        assert(s.drop_last().push(s.last()) =~= s);
    }
}

/// A normalized path has clean edges and no interior `//`.
pub proof fn lemma_normalize_path_clean(p: Seq<char>)
    ensures
        clean_edges(normalize_path_spec(p)),
        no_double_slash(normalize_path_spec(p)),
{
    let u = trim_front(p);
    let t = trim_back(u);
    lemma_trim_front_clean(p);
    lemma_trim_back_shape(u);
    lemma_collapse_shape(t);
}

/// Normalization leaves a path with clean edges and no interior `//`
/// unchanged.
pub proof fn lemma_normalize_of_clean(s: Seq<char>)
    requires
        clean_edges(s),
        no_double_slash(s),
    ensures
        normalize_path_spec(s) == s,
{
    lemma_trim_front_id(s);
    lemma_trim_back_id(s);
    lemma_collapse_id(s);
}

/// Path normalization is idempotent: normalizing a normalized path changes
/// nothing.
pub proof fn lemma_normalize_path_idempotent(p: Seq<char>)
    ensures
        normalize_path_spec(normalize_path_spec(p)) == normalize_path_spec(p),
{
    let c = normalize_path_spec(p);
    lemma_normalize_path_clean(p);
    lemma_trim_front_id(c);
    lemma_trim_back_id(c);
    lemma_collapse_id(c);
}

} // verus!
