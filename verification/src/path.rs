//! Repository-relative path validation.
use vstd::prelude::*;
use crate::text::{chars_of, lemma_split_nonempty, lemma_split_push, split_seq};

verus! {

/// A path segment that names a real child: non-empty and neither `.` nor `..`.
pub open spec fn is_plain_segment(segment: Seq<char>) -> bool {
    &&& segment.len() > 0
    &&& segment != seq!['.']
    &&& segment != seq!['.', '.']
}

/// A non-empty, normalized, `/`-separated relative repository path.
pub open spec fn relative_path(path: Seq<char>) -> bool {
    &&& path.len() > 0
    &&& path[0] != '/'
    &&& !path.contains('\\')
    &&& forall|k: int|
        0 <= k < split_seq(path, '/').len() ==> #[trigger] is_plain_segment(split_seq(path, '/')[k])
}

/// Whether the segment `path[start..end]` is plain.
fn segment_is_plain(path: &[char], start: usize, end: usize) -> (ok: bool)
    requires
        start <= end <= path@.len(),
    ensures
        ok == is_plain_segment(path@.subrange(start as int, end as int)),
{
    let len = end - start;
    if len == 0 {
        return false;
    }
    let ghost seg = path@.subrange(start as int, end as int);
    if len == 1 && path[start] == '.' {
        assert(seg =~= seq!['.']);
        return false;
    }
    if len == 2 && path[start] == '.' && path[start + 1] == '.' {
        assert(seg =~= seq!['.', '.']);
        return false;
    }
    proof {
        if seg == seq!['.'] {
            assert(seg.len() == 1 && seg[0] == '.');
        }
        if seg == seq!['.', '.'] {
            assert(seg.len() == 2 && seg[0] == '.' && seg[1] == '.');
        }
    }
    true
}

/// Character-level form of [`is_relative_path`].
pub fn is_relative_chars(path: &[char]) -> (ok: bool)
    ensures
        ok == relative_path(path@),
{
    let n = path.len();
    let mut start: usize = 0;
    let mut i: usize = 0;
    let mut ok = n > 0;
    let mut no_backslash = true;
    proof {
        assert(path@.take(0) =~= Seq::<char>::empty());
        lemma_split_nonempty(path@.take(0), '/');
        assert(split_seq(path@.take(0), '/') =~= seq![Seq::<char>::empty()]);
    }
    while i < n
        invariant
            n == path@.len(),
            0 <= start <= i <= n,
            split_seq(path@.take(i as int), '/').len() >= 1,
            split_seq(path@.take(i as int), '/').last() =~= path@.subrange(start as int, i as int),
            no_backslash == !path@.take(i as int).contains('\\'),
            ok == (n > 0 && forall|k: int|
                0 <= k < split_seq(path@.take(i as int), '/').len() - 1
                    ==> #[trigger] is_plain_segment(split_seq(path@.take(i as int), '/')[k])),
        decreases n - i,
    {
        let c = path[i];
        let ghost before = path@.take(i as int);
        proof {
            lemma_split_push(before, c, '/');
            assert(path@.take(i + 1) =~= before.push(c));
        }
        if c == '\\' {
            no_backslash = false;
        }
        let ghost old_pieces = split_seq(before, '/');
        let ghost old_ok = ok;
        if c == '/' {
            let plain = segment_is_plain(path, start, i);
            ok = ok && plain;
            start = i + 1;
        }
        i = i + 1;
        proof {
            let new_pieces = split_seq(path@.take(i as int), '/');
            assert(new_pieces.len() >= 1);
            if c == '/' {
                assert(new_pieces.len() == old_pieces.len() + 1);
                assert(forall|k: int| 0 <= k < old_pieces.len() ==> new_pieces[k] == old_pieces[k]);
                assert(new_pieces.last() =~= path@.subrange(start as int, i as int));
                if ok {
                    assert forall|k: int| 0 <= k < new_pieces.len() - 1 implies #[trigger] is_plain_segment(new_pieces[k]) by {
                        assert(new_pieces[k] == old_pieces[k]);
                    }
                } else if n > 0 && forall|k: int| 0 <= k < new_pieces.len() - 1 ==> #[trigger] is_plain_segment(new_pieces[k]) {
                    assert(is_plain_segment(new_pieces[old_pieces.len() - 1]));
                    if !old_ok {
                        assert forall|k: int| 0 <= k < old_pieces.len() - 1 implies #[trigger] is_plain_segment(old_pieces[k]) by {
                            assert(is_plain_segment(new_pieces[k]));
                        }
                    }
                }
            } else {
                assert(new_pieces.len() == old_pieces.len());
                assert(forall|k: int| 0 <= k < old_pieces.len() - 1 ==> new_pieces[k] == old_pieces[k]);
                assert(new_pieces.last() =~= path@.subrange(start as int, i as int));
            }
        }
        proof {
            let now = path@.take(i as int);
            assert(now.contains('\\') <==> (before.contains('\\') || c == '\\')) by {
                if c == '\\' {
                    assert(now[i - 1] == '\\');
                }
                if now.contains('\\') && c != '\\' {
                    let w = choose|w: int| 0 <= w < now.len() && now[w] == '\\';
                    assert(before[w] == '\\');
                }
            }
        }
    }
    proof {
        assert(path@.take(n as int) =~= path@);
    }
    let last_plain = segment_is_plain(path, start, n);
    let result = ok && no_backslash && path[0] != '/' && last_plain;
    proof {
        let pieces = split_seq(path@, '/');
        if result {
            assert forall|k: int| 0 <= k < pieces.len() implies #[trigger] is_plain_segment(pieces[k]) by {
                if k == pieces.len() - 1 {
                } else {
                }
            }
        } else if n > 0 && path[0] != '/' && no_backslash {
            if !last_plain {
                assert(!is_plain_segment(pieces[pieces.len() - 1]));
            }
        }
    }
    result
}

/// Returns whether a path is a non-empty, normalized relative repository path.
pub fn is_relative_path(path: &str) -> (ok: bool)
    ensures
        ok == relative_path(path@),
{
    let chars = chars_of(path);
    is_relative_chars(chars.as_slice())
}

} // verus!
