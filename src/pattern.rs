//! Route patterns and request paths as ordered sequences of segments.

use vstd::prelude::*;

verus! {

/// The pieces of `s` between slashes, empty pieces included
/// (`"/a//b"` gives `["", "a", "", "b"]`).
pub open spec fn split_on_slash(s: Seq<char>) -> Seq<Seq<char>>
    decreases s.len(),
{
    if s.len() == 0 {
        seq![Seq::<char>::empty()]
    } else {
        let prev = split_on_slash(s.drop_last());
        if s.last() == '/' {
            prev.push(Seq::<char>::empty())
        } else {
            prev.update(prev.len() - 1, prev.last().push(s.last()))
        }
    }
}

/// The same sequence with its empty elements left out.
pub open spec fn drop_empty(p: Seq<Seq<char>>) -> Seq<Seq<char>>
    decreases p.len(),
{
    if p.len() == 0 {
        p
    } else if p.last().len() == 0 {
        drop_empty(p.drop_last())
    } else {
        drop_empty(p.drop_last()).push(p.last())
    }
}

/// A segment that absorbs the rest of a path (`*name`).
pub open spec fn is_wildcard(seg: Seq<char>) -> bool {
    seg.len() > 0 && seg[0] == '*'
}

/// A segment that matches any value at its position (`:name` or `*name`).
pub open spec fn is_parametric(seg: Seq<char>) -> bool {
    seg.len() > 0 && (seg[0] == ':' || seg[0] == '*')
}

pub open spec fn has_wildcard(segs: Seq<Seq<char>>) -> bool {
    exists|k: int| 0 <= k < segs.len() && is_wildcard(#[trigger] segs[k])
}

/// The segments up to and including the first wildcard; all of them if there is none.
pub open spec fn through_first_wildcard(segs: Seq<Seq<char>>) -> Seq<Seq<char>>
    decreases segs.len(),
{
    if segs.len() == 0 {
        segs
    } else if has_wildcard(segs.drop_last()) {
        through_first_wildcard(segs.drop_last())
    } else {
        segs
    }
}

/// The segments of a pattern or path: split on `/`, empty pieces dropped,
/// nothing kept after the first wildcard.
pub open spec fn segments_of(s: Seq<char>) -> Seq<Seq<char>> {
    through_first_wildcard(drop_empty(split_on_slash(s)))
}

pub open spec fn views_of(v: Seq<&str>) -> Seq<Seq<char>> {
    v.map_values(|x: &str| x@)
}

pub proof fn lemma_split_nonempty(s: Seq<char>)
    ensures
        split_on_slash(s).len() >= 1,
    decreases s.len(),
{
    if s.len() > 0 {
        lemma_split_nonempty(s.drop_last());
    }
}

pub proof fn lemma_through_no_wildcard(segs: Seq<Seq<char>>)
    requires
        !has_wildcard(segs),
    ensures
        through_first_wildcard(segs) == segs,
{
}

pub proof fn lemma_has_wildcard_push(segs: Seq<Seq<char>>, x: Seq<char>)
    ensures
        has_wildcard(segs.push(x)) == (has_wildcard(segs) || is_wildcard(x)),
{
    let p = segs.push(x);
    if has_wildcard(segs) {
        let k = choose|k: int| 0 <= k < segs.len() && is_wildcard(#[trigger] segs[k]);
        assert(p[k] == segs[k]);
    }
    if is_wildcard(x) {
        assert(p[segs.len() as int] == x);
    }
    if has_wildcard(p) {
        let k = choose|k: int| 0 <= k < p.len() && is_wildcard(#[trigger] p[k]);
        if k < segs.len() {
            assert(p[k] == segs[k]);
        }
    }
}

/// No segment but the last is a wildcard.
pub open spec fn wildcard_last(segs: Seq<Seq<char>>) -> bool {
    forall|k: int| 0 <= k < segs.len() - 1 ==> !is_wildcard(#[trigger] segs[k])
}

/// A pattern's segments hold a wildcard only as the last one.
pub proof fn lemma_wildcard_last(s: Seq<char>)
    ensures
        wildcard_last(segments_of(s)),
{
    lemma_through_wildcard_last(drop_empty(split_on_slash(s)));
}

proof fn lemma_through_wildcard_last(segs: Seq<Seq<char>>)
    ensures
        wildcard_last(through_first_wildcard(segs)),
    decreases segs.len(),
{
    if segs.len() > 0 {
        if has_wildcard(segs.drop_last()) {
            lemma_through_wildcard_last(segs.drop_last());
        } else {
            assert forall|k: int| 0 <= k < segs.len() - 1 implies !is_wildcard(#[trigger] segs[k]) by {
                assert(segs.drop_last()[k] == segs[k]);
            }
        }
    }
}

} // verus!
