//! Lexical scans of Rust source text: whole-word search and lint-suppression attributes.
use vstd::prelude::*;
use crate::order::{lemma_is_sorted_list, sort_unique, sorted_list, string_views};
use crate::text::{
    chars_of, ends_with, find_seq, has_prefix, has_suffix, matches_at, occurs_at, slice_range,
    split_chars, split_seq, starts_with, string_of, trim_chars, trim_seq, is_first_occurrence,
};

verus! {

/// A character that continues an identifier, as `u8::is_ascii_alphanumeric` or `_` judge it.
pub open spec fn is_word_char(c: char) -> bool {
    ('0' <= c <= '9') || ('a' <= c <= 'z') || ('A' <= c <= 'Z') || c == '_'
}

fn word_char(c: char) -> (b: bool)
    ensures
        b == is_word_char(c),
{
    ('0' <= c && c <= '9') || ('a' <= c && c <= 'z') || ('A' <= c && c <= 'Z') || c == '_'
}

/// `word` occurs at `i` with no identifier character right before or after it.
pub open spec fn word_at(text: Seq<char>, word: Seq<char>, i: int) -> bool {
    &&& occurs_at(text, word, i)
    &&& (i == 0 || !is_word_char(text[i - 1]))
    &&& (i + word.len() == text.len() || !is_word_char(text[i + word.len()]))
}

/// The first whole-word occurrence that a scan from `i` finds among the non-overlapping
/// occurrences of `word`, taken left to right as `str::match_indices` yields them: after an
/// occurrence that is not a whole word the scan goes on behind it.
pub open spec fn word_from(text: Seq<char>, word: Seq<char>, i: int) -> Option<int>
    decreases text.len() + 1 - i,
{
    if i < 0 || i + word.len() > text.len() {
        None
    } else if occurs_at(text, word, i) {
        if word_at(text, word, i) {
            Some(i)
        } else if word.len() == 0 {
            word_from(text, word, i + 1)
        } else {
            word_from(text, word, i + word.len())
        }
    } else {
        word_from(text, word, i + 1)
    }
}

/// The position of the first whole-word occurrence of `word`, by that scan.
#[verifier::opaque]
pub open spec fn first_word(text: Seq<char>, word: Seq<char>) -> Option<int> {
    word_from(text, word, 0)
}

/// The first whole-word occurrence of `word` in `text`, as a character index.
pub fn find_word(text: &[char], word: &[char]) -> (r: Option<usize>)
    ensures
        match r {
            Some(i) => first_word(text@, word@) == Some(i as int) && word_at(text@, word@, i as int),
            None => first_word(text@, word@) is None,
        },
{
    reveal(first_word);
    let n = text.len();
    let w = word.len();
    let mut i: usize = 0;
    while i <= n && w <= n - i
        invariant
            n == text@.len(),
            w == word@.len(),
            i <= n,
            word_from(text@, word@, 0) == word_from(text@, word@, i as int),
        decreases n - i,
    {
        if matches_at(text, word, i) {
            let end = i + w;
            let before_ok = i == 0 || !word_char(text[i - 1]);
            let after_ok = end == n || !word_char(text[end]);
            if before_ok && after_ok {
                assert(word_at(text@, word@, i as int));
                assert(word_from(text@, word@, i as int) == Some(i as int));
                proof {
                    reveal(first_word);
                }
                return Some(i);
            }
            assert(!word_at(text@, word@, i as int));
            if w == 0 {
                if i == n {
                    assert(word_from(text@, word@, i as int) == word_from(text@, word@, i + 1));
                    assert(word_from(text@, word@, i + 1) is None);
                    proof {
                        reveal(first_word);
                    }
                    return None;
                }
                i = i + 1;
            } else {
                i = i + w;
            }
        } else {
            proof {
                if w == 0 {
                    assert(text@.subrange(i as int, i as int) =~= word@);
                }
            }
            i = i + 1;
        }
    }
    None
}

/// `s` after the prefix `p`, when it begins with it.
pub open spec fn strip_prefix_seq(s: Seq<char>, p: Seq<char>) -> Option<Seq<char>> {
    if has_prefix(s, p) {
        Some(s.skip(p.len() as int))
    } else {
        None
    }
}

/// `s` before the suffix `p`, when it ends with it.
pub open spec fn strip_suffix_seq(s: Seq<char>, p: Seq<char>) -> Option<Seq<char>> {
    if has_suffix(s, p) {
        Some(s.take(s.len() - p.len()))
    } else {
        None
    }
}

fn strip_prefix(s: &[char], p: &str) -> (r: Option<Vec<char>>)
    ensures
        match r {
            Some(t) => strip_prefix_seq(s@, p@) == Some(t@),
            None => strip_prefix_seq(s@, p@) is None,
        },
{
    let pc = chars_of(p);
    if starts_with(s, pc.as_slice()) {
        let t = slice_range(s, pc.len(), s.len());
        assert(t@ =~= s@.skip(p@.len() as int));
        Some(t)
    } else {
        None
    }
}

fn strip_suffix(s: &[char], p: &str) -> (r: Option<Vec<char>>)
    ensures
        match r {
            Some(t) => strip_suffix_seq(s@, p@) == Some(t@),
            None => strip_suffix_seq(s@, p@) is None,
        },
{
    let pc = chars_of(p);
    if ends_with(s, pc.as_slice()) {
        let t = slice_range(s, 0, s.len() - pc.len());
        assert(t@ =~= s@.take(s@.len() - p@.len()));
        Some(t)
    } else {
        None
    }
}

/// The lint list of `cfg_attr(.., allow(..))`: the text after the first `allow(` up to the
/// closing `))`.
pub open spec fn cfg_allow_arguments(body: Seq<char>) -> Option<Seq<char>> {
    match strip_prefix_seq(body, "cfg_attr("@) {
        None => None,
        Some(arguments) => if exists|i: int| is_first_occurrence(arguments, "allow("@, i) {
            let i = choose|i: int| is_first_occurrence(arguments, "allow("@, i);
            strip_suffix_seq(arguments.skip(i + 6), "))"@)
        } else {
            None
        },
    }
}

/// The kind and argument list of a suppression attribute: `#[allow(..)]`, `#[expect(..)]`,
/// or `#[cfg_attr(.., allow(..))]`, inner (`#![..]`) or outer.
pub open spec fn suppression_arguments(text: Seq<char>) -> Option<(Seq<char>, Seq<char>)> {
    let t = trim_seq(text);
    let inner = match strip_prefix_seq(t, "#!["@) {
        Some(b) => Some(b),
        None => strip_prefix_seq(t, "#["@),
    };
    match inner {
        None => None,
        Some(b) => match strip_suffix_seq(b, "]"@) {
            None => None,
            Some(b2) => {
                let body = trim_seq(b2);
                match strip_prefix_seq(body, "allow("@) {
                    Some(a) => match strip_suffix_seq(a, ")"@) {
                        Some(args) => Some(("allow"@, args)),
                        None => None,
                    },
                    None => match strip_prefix_seq(body, "expect("@) {
                        Some(a) => match strip_suffix_seq(a, ")"@) {
                            Some(args) => Some(("expect"@, args)),
                            None => None,
                        },
                        None => match cfg_allow_arguments(body) {
                            Some(args) => Some(("cfg-allow"@, args)),
                            None => None,
                        },
                    },
                }
            },
        },
    }
}

/// The trimmed, non-empty comma-separated names of an argument list, in order.
pub open spec fn lint_names(args: Seq<char>) -> Seq<Seq<char>> {
    split_seq(args, ',').map_values(|p: Seq<char>| trim_seq(p)).filter(|p: Seq<char>| p.len() > 0)
}

/// A suppression attribute's kind and its sorted, unique lint paths; none when the text is
/// not such an attribute or names no lint.
pub open spec fn suppression_of(text: Seq<char>) -> Option<(Seq<char>, Seq<Seq<char>>)> {
    match suppression_arguments(text) {
        None => None,
        Some((kind, args)) => if lint_names(args).len() == 0 {
            None
        } else {
            Some((kind, sorted_list(lint_names(args).to_set())))
        },
    }
}

fn cfg_arguments(body: &[char]) -> (r: Option<Vec<char>>)
    ensures
        match r {
            Some(a) => cfg_allow_arguments(body@) == Some(a@),
            None => cfg_allow_arguments(body@) is None,
        },
{
    let arguments = match strip_prefix(body, "cfg_attr(") {
        Some(a) => a,
        None => {
            return None;
        },
    };
    let allow = chars_of("allow(");
    proof {
        reveal_strlit("allow(");
        assert(allow@.len() == 6);
    }
    match find_seq(arguments.as_slice(), allow.as_slice()) {
        Some(i) => {
            proof {
                assert(is_first_occurrence(arguments@, "allow("@, i as int));
                let k = choose|k: int| is_first_occurrence(arguments@, "allow("@, k);
                crate::text::lemma_first_occurrence_unique(arguments@, "allow("@, i as int, k);
            }
            let n = arguments.len();
            assert(i + 6 <= n);
            let rest = slice_range(arguments.as_slice(), i + 6, n);
            assert(rest@ =~= arguments@.skip(i + 6));
            strip_suffix(rest.as_slice(), "))")
        },
        None => {
            assert(!exists|i: int| is_first_occurrence(arguments@, "allow("@, i));
            None
        },
    }
}

/// Parses a lint-suppression attribute into its kind and sorted unique lint paths.
pub fn parse_suppression(text: &str) -> (r: Option<(String, Vec<String>)>)
    ensures
        match r {
            Some((kind, paths)) => suppression_of(text@) == Some((kind@, string_views(paths@))),
            None => suppression_of(text@) is None,
        },
{
    let chars = chars_of(text);
    let t = trim_chars(chars.as_slice());
    let inner = match strip_prefix(t.as_slice(), "#![") {
        Some(b) => b,
        None => match strip_prefix(t.as_slice(), "#[") {
            Some(b) => b,
            None => {
                return None;
            },
        },
    };
    let b2 = match strip_suffix(inner.as_slice(), "]") {
        Some(b) => b,
        None => {
            return None;
        },
    };
    let body = trim_chars(b2.as_slice());
    let ghost t0 = trim_seq(text@);
    assert(t@ == t0);
    assert(match strip_prefix_seq(t0, "#!["@) {
        Some(b) => Some(b),
        None => strip_prefix_seq(t0, "#["@),
    } == Some(inner@));
    assert(strip_suffix_seq(inner@, "]"@) == Some(b2@));
    let ghost expected = suppression_arguments(text@);
    assert(body@ == trim_seq(b2@));
    let (kind, args): (&str, Vec<char>) = match strip_prefix(body.as_slice(), "allow(") {
        Some(a) => match strip_suffix(a.as_slice(), ")") {
            Some(args) => {
                assert(expected == Some(("allow"@, args@)));
                ("allow", args)
            },
            None => {
                assert(expected is None);
                return None;
            },
        },
        None => match strip_prefix(body.as_slice(), "expect(") {
            Some(a) => match strip_suffix(a.as_slice(), ")") {
                Some(args) => {
                    assert(expected == Some(("expect"@, args@)));
                    ("expect", args)
                },
                None => {
                    assert(expected is None);
                    return None;
                },
            },
            None => match cfg_arguments(body.as_slice()) {
                Some(args) => {
                    assert(expected == Some(("cfg-allow"@, args@)));
                    ("cfg-allow", args)
                },
                None => {
                    assert(expected is None);
                    return None;
                },
            },
        },
    };
    assert(suppression_arguments(text@) == Some((kind@, args@)));
    let pieces = split_chars(args.as_slice(), ',');
    let mut names: Vec<String> = Vec::new();
    let mut k: usize = 0;
    let ghost ps = pieces.deep_view();
    assert(ps.take(0) =~= Seq::<Seq<char>>::empty());
    assert(string_views(names@) =~= ps.take(0).map_values(|p: Seq<char>| trim_seq(p)).filter(|p: Seq<char>| p.len() > 0));
    while k < pieces.len()
        invariant
            ps == pieces.deep_view(),
            ps == split_seq(args@, ','),
            k <= ps.len(),
            string_views(names@) == ps.take(k as int).map_values(|p: Seq<char>| trim_seq(p)).filter(|p: Seq<char>| p.len() > 0),
        decreases ps.len() - k,
    {
        let piece = trim_chars(pieces[k].as_slice());
        proof {
            assert(ps[k as int] == pieces@[k as int]@);
            let a = ps.take(k as int).map_values(|p: Seq<char>| trim_seq(p));
            let b = ps.take(k + 1).map_values(|p: Seq<char>| trim_seq(p));
            assert(b =~= a.push(piece@));
            assert(b.drop_last() =~= a);
            reveal_with_fuel(Seq::filter, 1);
        }
        if piece.len() > 0 {
            let ghost before = names@;
            names.push(string_of(piece.as_slice()));
            assert(string_views(names@) =~= string_views(before).push(piece@));
        }
        k = k + 1;
    }
    assert(ps.take(ps.len() as int) =~= ps);
    if names.len() == 0 {
        return None;
    }
    let sorted = sort_unique(names);
    proof {
        lemma_is_sorted_list(string_views(sorted@));
    }
    Some((kind.to_owned(), sorted))
}

} // verus!
