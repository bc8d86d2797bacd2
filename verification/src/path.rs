//! Path text: separators, segments and the canonical form of an entry's path.
//!
//! Paths are POSIX paths: sequences of characters in which `/` separates the
//! segments. Nothing here touches a file system.

use vstd::prelude::*;

verus! {

/// The character that separates the segments of a path.
pub const SEPARATOR: char = '/';

/// Whether `p` starts at the root.
pub open spec fn is_absolute(p: Seq<char>) -> bool {
    p.len() > 0 && p[0] == SEPARATOR
}

/// The index of the last separator in `p`, or `-1` where `p` has none.
pub open spec fn last_separator(p: Seq<char>) -> int
    decreases p.len(),
{
    if p.len() == 0 {
        -1
    } else if p.last() == SEPARATOR {
        p.len() - 1
    } else {
        last_separator(p.drop_last())
    }
}

/// What follows the last separator of `p`; all of `p` where it has none.
pub open spec fn final_component(p: Seq<char>) -> Seq<char> {
    p.skip(last_separator(p) + 1)
}

/// What precedes the last separator of `p`.
pub open spec fn parent(p: Seq<char>) -> Seq<char>
    recommends
        last_separator(p) >= 0,
{
    p.take(last_separator(p))
}

/// The segments of `p`, first to last: the runs of characters between its
/// separators. A path with `n` separators has `n + 1` segments; a segment is
/// empty where two separators meet and where `p` starts or ends with one.
pub open spec fn segments(p: Seq<char>) -> Seq<Seq<char>>
    decreases p.len(),
{
    if last_separator(p) < 0 {
        seq![p]
    } else {
        proof {
            lemma_last_separator(p);
        }
        segments(parent(p)).push(final_component(p))
    }
}

/// Whether `s` is one of the two relative segments, `.` and `..`.
pub open spec fn is_dot_segment(s: Seq<char>) -> bool {
    s =~= seq!['.'] || s =~= seq!['.', '.']
}

/// Whether `s` can be the name of an entry: not empty, and neither `.` nor `..`.
pub open spec fn is_name(s: Seq<char>) -> bool {
    s.len() > 0 && !is_dot_segment(s)
}

/// Whether `p` is the canonical path of an entry: it starts at the root, and
/// every segment after the leading separator is a name. The bare root `/` is
/// not such a path, since it has no final component to name an entry by.
pub open spec fn is_canonical(p: Seq<char>) -> bool {
    &&& is_absolute(p)
    &&& forall|i: int| 1 <= i < segments(p).len() ==> is_name(#[trigger] segments(p)[i])
}

/// `last_separator` finds a separator that no separator follows.
pub proof fn lemma_last_separator(p: Seq<char>)
    ensures
        -1 <= last_separator(p) < p.len(),
        last_separator(p) >= 0 ==> p[last_separator(p)] == SEPARATOR,
        forall|i: int| last_separator(p) < i < p.len() ==> p[i] != SEPARATOR,
    decreases p.len(),
{
    if p.len() > 0 && p.last() != SEPARATOR {
        let init = p.drop_last();
        lemma_last_separator(init);
        assert forall|i: int| last_separator(p) < i < p.len() implies p[i] != SEPARATOR by {
            if i < init.len() {
                assert(p[i] == init[i]);
            }
        }
    }
}

/// How `last_separator` changes when one character is appended.
pub proof fn lemma_last_separator_push(p: Seq<char>, c: char)
    ensures
        last_separator(p.push(c)) == if c == SEPARATOR {
            p.len() as int
        } else {
            last_separator(p)
        },
{
    assert(p.push(c).drop_last() =~= p);
}

/// How `segments` changes when one character is appended: a separator opens
/// a new, empty segment; any other character extends the last one.
pub proof fn lemma_segments_push(p: Seq<char>, c: char)
    ensures
        segments(p).len() >= 1,
        segments(p.push(c)) == if c == SEPARATOR {
            segments(p).push(Seq::empty())
        } else {
            segments(p).drop_last().push(segments(p).last().push(c))
        },
{
    let q = p.push(c);
    lemma_last_separator(p);
    lemma_last_separator_push(p, c);
    if c == SEPARATOR {
        assert(parent(q) =~= p);
        assert(final_component(q) =~= Seq::<char>::empty());
    } else if last_separator(p) >= 0 {
        assert(parent(q) =~= parent(p));
        assert(final_component(q) =~= final_component(p).push(c));
    }
}

/// The final component is the last segment.
pub proof fn lemma_final_component_is_last_segment(p: Seq<char>)
    ensures
        segments(p).len() >= 1,
        segments(p).last() == final_component(p),
{
    lemma_last_separator(p);
}

/// The first segment of an absolute path is empty: it is what precedes the
/// leading separator.
pub proof fn lemma_first_segment(p: Seq<char>)
    requires
        is_absolute(p),
    ensures
        segments(p).len() >= 2,
        segments(p)[0].len() == 0,
    decreases p.len(),
{
    lemma_last_separator(p);
    if last_separator(p) < 0 {
        // No separator follows the last one, and the first character is one.
        assert(p[0] != SEPARATOR);
    } else if last_separator(p) > 0 {
        assert(is_absolute(parent(p)));
        lemma_first_segment(parent(p));
    } else {
        assert(parent(p) =~= Seq::<char>::empty());
    }
}

/// A canonical path is absolute, none of its segments is `.` or `..`, and
/// its final component is a name.
pub proof fn lemma_canonical(p: Seq<char>)
    requires
        is_canonical(p),
    ensures
        is_absolute(p),
        forall|i: int| 0 <= i < segments(p).len() ==> !is_dot_segment(#[trigger] segments(p)[i]),
        is_name(final_component(p)),
{
    lemma_first_segment(p);
    lemma_final_component_is_last_segment(p);
}

/// Returns the final component of `path`: what follows its last separator.
pub fn file_name(path: &str) -> (name: String)
    ensures
        name@ == final_component(path@),
{
    let n: usize = path.unicode_len();
    let mut start: usize = 0;
    let mut i: usize = 0;
    for c in it: path.chars()
        invariant
            it.seq() == path@,
            n == path@.len(),
            i == it.index(),
            start == last_separator(path@.take(i as int)) + 1,
    {
        proof {
            lemma_last_separator_push(path@.take(i as int), c);
            assert(path@.take(i as int).push(c) =~= path@.take(i + 1));
        }
        i = i + 1;
        if c == SEPARATOR {
            start = i;
        }
    }
    proof {
        assert(path@.take(n as int) =~= path@);
        lemma_last_separator(path@);
    }
    String::from_str(path.substring_char(start, n))
}

/// Tells whether `path` is the canonical path of an entry.
pub fn check_canonical(path: &str) -> (ok: bool)
    ensures
        ok == is_canonical(path@),
{
    let n: usize = path.unicode_len();
    // `names`: every segment after the first that a separator has closed so
    // far is a name; `len` and `dots` describe the segment that is still open.
    let mut names: bool = true;
    let mut len: usize = 0;
    let mut dots: bool = true;
    let mut i: usize = 0;
    for c in it: path.chars()
        invariant
            it.seq() == path@,
            n == path@.len(),
            i == it.index(),
            i > 0 ==> is_absolute(path@),
            segments(path@.take(i as int)).len() >= 1,
            i > 0 ==> segments(path@.take(i as int)).len() >= 2,
            names == (forall|j: int|
                1 <= j < segments(path@.take(i as int)).len() - 1 ==> is_name(
                    #[trigger] segments(path@.take(i as int))[j],
                )),
            len == segments(path@.take(i as int)).last().len(),
            len <= i,
            dots == (forall|k: int|
                0 <= k < len ==> segments(path@.take(i as int)).last()[k] == '.'),
    {
        let ghost before = segments(path@.take(i as int));
        let ghost after = segments(path@.take(i + 1));
        proof {
            lemma_segments_push(path@.take(i as int), c);
            assert(path@.take(i as int).push(c) =~= path@.take(i + 1));
        }
        if i == 0 && c != SEPARATOR {
            return false;
        }
        if c == SEPARATOR {
            let closed: bool = len > 0 && !(dots && len <= 2);
            proof {
                assert(after[after.len() - 2] == before.last());
                if !names {
                    let j = choose|j: int| 1 <= j < before.len() - 1 && !is_name(before[j]);
                    assert(after[j] == before[j]);
                }
            }
            if i > 0 {
                names = names && closed;
            }
            len = 0;
            dots = true;
        } else {
            proof {
                assert forall|k: int| 0 <= k < len implies after.last()[k] == before.last()[k] by {}
                assert(after.last()[len as int] == c);
                if !names {
                    let j = choose|j: int| 1 <= j < before.len() - 1 && !is_name(before[j]);
                    assert(after[j] == before[j]);
                }
            }
            len = len + 1;
            dots = dots && c == '.';
        }
        i = i + 1;
    }
    proof {
        assert(path@.take(n as int) =~= path@);
    }
    n > 0 && names && len > 0 && !(dots && len <= 2)
}

} // verus!
