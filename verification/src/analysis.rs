//! Structural facts of Rust functions read from their syntax trees: normalized token and
//! AST-shape streams, their shingles, physical lines of code and cyclomatic complexity.
use vstd::prelude::*;
use crate::artifact::{
    record_views, AnalyzedFile, FunctionIdentity, FunctionKind, FunctionRecord, IdentityView,
    RecordView,
};
use crate::error::{is_invalid, AppError, AppResult};
use crate::order::string_views;
use crate::facts::{LintSuppression, LintSuppressionView, UnsafeSurface, UnsafeSurfaceView};
use crate::scan::{find_word, first_word, parse_suppression, suppression_of};
use crate::clones::capped;
use crate::sort::{insertion_sort, lemma_sort_map, stable_sort};
use crate::text::seq_lt;
use crate::path::{is_relative_path, relative_path};
use crate::syntax::{all_well_formed, parse_refusal, parse_rust, rows_between, rows_nested, rust_tree};
use vstd::string::StringSliceAdditionalSpecFns;
use crate::syntax::{lemma_all_well_formed, node_text, text_of, well_formed, SyntaxNode};
use crate::digest::{blake3_digest, blake3_hash, blake3_hex, digest_hex, hex_seq, le_u64};
use crate::text::{debug_quoted, debug_str, chars_of, contains_seq, find_seq, join_seq, join_strings, str_eq, trim_chars, trim_seq};
use vstd::utf8::encode_utf8;

verus! {

pub open spec fn is_comment(kind: Seq<char>) -> bool {
    kind == "line_comment"@ || kind == "block_comment"@
}

/// Kinds whose leaves stand for a name.
pub open spec fn names_identifier(kind: Seq<char>) -> bool {
    contains_seq(kind, "identifier"@) || kind == "self"@ || kind == "super"@ || kind == "crate"@
}

/// Kinds whose leaves stand for a literal value.
pub open spec fn names_literal(kind: Seq<char>) -> bool {
    contains_seq(kind, "literal"@) || kind == "true"@ || kind == "false"@
}

/// Text that begins like a quoted or numeric literal.
pub open spec fn looks_literal(t: Seq<char>) -> bool {
    t.len() > 0 && (t[0] == '"' || t[0] == '\'' || ('0' <= t[0] <= '9'))
}

/// A leaf's normalized token: `ID` for names, `LIT` for literals, else its text.
pub open spec fn normalized_leaf(n: SyntaxNode, src: Seq<u8>) -> Seq<char> {
    if names_identifier(n.kind@) {
        "ID"@
    } else if names_literal(n.kind@) {
        "LIT"@
    } else if looks_literal(text_of(n, src)) {
        "LIT"@
    } else {
        text_of(n, src)
    }
}

/// The normalized token stream of a node: leaves in source order, without comments and
/// without the bodies of functions nested below the root.
pub open spec fn tokens(n: SyntaxNode, src: Seq<u8>, root: bool) -> Seq<Seq<char>>
    decreases n,
{
    if !root && n.kind@ == "function_item"@ {
        Seq::empty()
    } else if is_comment(n.kind@) {
        Seq::empty()
    } else if n.children@.len() == 0 {
        seq![normalized_leaf(n, src)]
    } else {
        tokens_seq(n.children@, src)
    }
}

pub open spec fn tokens_seq(s: Seq<SyntaxNode>, src: Seq<u8>) -> Seq<Seq<char>>
    decreases s,
{
    if s.len() == 0 {
        Seq::empty()
    } else {
        tokens_seq(s.drop_last(), src) + tokens(s.last(), src, false)
    }
}

/// Kinds left out of the AST-shape stream together with their subtrees.
pub open spec fn shape_skips(kind: Seq<char>) -> bool {
    is_comment(kind) || kind == "attribute_item"@ || kind == "inner_attribute_item"@
}

/// A leaf's AST-shape label: `ID` for names, `LIT` for literals, else its kind.
pub open spec fn shape_leaf(kind: Seq<char>) -> Seq<char> {
    if names_identifier(kind) {
        "ID"@
    } else if names_literal(kind) {
        "LIT"@
    } else {
        kind
    }
}

/// The AST-shape stream of a node: node kinds in preorder, leaves normalized, without
/// comments, attributes and functions nested below the root.
pub open spec fn shape(n: SyntaxNode, root: bool) -> Seq<Seq<char>>
    decreases n,
{
    if !root && n.kind@ == "function_item"@ {
        Seq::empty()
    } else if shape_skips(n.kind@) {
        Seq::empty()
    } else if n.children@.len() == 0 {
        seq![shape_leaf(n.kind@)]
    } else {
        seq![n.kind@] + shape_seq(n.children@)
    }
}

pub open spec fn shape_seq(s: Seq<SyntaxNode>) -> Seq<Seq<char>>
    decreases s,
{
    if s.len() == 0 {
        Seq::empty()
    } else {
        shape_seq(s.drop_last()) + shape(s.last(), false)
    }
}

fn has_text(kind: &str, part: &str) -> (b: bool)
    ensures
        b == contains_seq(kind@, part@),
{
    let k = chars_of(kind);
    let p = chars_of(part);
    find_seq(k.as_slice(), p.as_slice()).is_some()
}

fn is_identifier_kind(kind: &str) -> (b: bool)
    ensures
        b == names_identifier(kind@),
{
    has_text(kind, "identifier") || str_eq(kind, "self") || str_eq(kind, "super") || str_eq(
        kind,
        "crate",
    )
}

fn is_literal_kind(kind: &str) -> (b: bool)
    ensures
        b == names_literal(kind@),
{
    has_text(kind, "literal") || str_eq(kind, "true") || str_eq(kind, "false")
}

fn is_comment_kind(kind: &str) -> (b: bool)
    ensures
        b == is_comment(kind@),
{
    str_eq(kind, "line_comment") || str_eq(kind, "block_comment")
}

/// The normalized token of a leaf.
pub fn normalize_leaf(n: &SyntaxNode, src: &[u8]) -> (t: String)
    requires
        well_formed(*n, src@),
    ensures
        t@ == normalized_leaf(*n, src@),
{
    if is_identifier_kind(n.kind.as_str()) {
        return "ID".to_owned();
    }
    if is_literal_kind(n.kind.as_str()) {
        return "LIT".to_owned();
    }
    let text = node_text(n, src);
    let chars = chars_of(text.as_str());
    if chars.len() > 0 && (chars[0] == '"' || chars[0] == '\'' || ('0' <= chars[0] && chars[0]
        <= '9')) {
        return "LIT".to_owned();
    }
    text
}

/// The normalized token stream of a node.
pub fn normalized_tokens(n: &SyntaxNode, src: &[u8], root: bool) -> (r: Vec<String>)
    requires
        well_formed(*n, src@),
    ensures
        string_views(r@) == tokens(*n, src@, root),
    decreases n,
{
    if !root && str_eq(n.kind.as_str(), "function_item") {
        return Vec::new();
    }
    if is_comment_kind(n.kind.as_str()) {
        return Vec::new();
    }
    if n.children.len() == 0 {
        let leaf = normalize_leaf(n, src);
        let r = vec![leaf];
        assert(string_views(r@) =~= seq![normalized_leaf(*n, src@)]);
        return r;
    }
    let ghost cs = n.children@;
    proof {
        lemma_all_well_formed(cs, src@);
    }
    let mut out: Vec<String> = Vec::new();
    let mut k: usize = 0;
    assert(cs.take(0) =~= Seq::<SyntaxNode>::empty());
    while k < n.children.len()
        invariant
            cs == n.children@,
            k <= cs.len(),
            forall|i: int| 0 <= i < cs.len() ==> #[trigger] well_formed(cs[i], src@),
            string_views(out@) == tokens_seq(cs.take(k as int), src@),
        decreases cs.len() - k,
    {
        let mut sub = normalized_tokens(&n.children[k], src, false);
        proof {
            assert(cs.take(k + 1).drop_last() =~= cs.take(k as int));
            assert(cs.take(k + 1).last() == cs[k as int]);
        }
        let ghost before = out@;
        let ghost more = sub@;
        out.append(&mut sub);
        assert(string_views(out@) =~= string_views(before) + string_views(more));
        k = k + 1;
    }
    assert(cs.take(cs.len() as int) =~= cs);
    out
}

/// The AST-shape stream of a node.
pub fn shape_labels(n: &SyntaxNode, root: bool) -> (r: Vec<String>)
    ensures
        string_views(r@) == shape(*n, root),
    decreases n,
{
    if !root && str_eq(n.kind.as_str(), "function_item") {
        return Vec::new();
    }
    if is_comment_kind(n.kind.as_str()) || str_eq(n.kind.as_str(), "attribute_item") || str_eq(
        n.kind.as_str(),
        "inner_attribute_item",
    ) {
        return Vec::new();
    }
    if n.children.len() == 0 {
        let label = if is_identifier_kind(n.kind.as_str()) {
            "ID".to_owned()
        } else if is_literal_kind(n.kind.as_str()) {
            "LIT".to_owned()
        } else {
            n.kind.clone()
        };
        let r = vec![label];
        assert(string_views(r@) =~= seq![shape_leaf(n.kind@)]);
        return r;
    }
    let ghost cs = n.children@;
    let mut out: Vec<String> = vec![n.kind.clone()];
    let mut k: usize = 0;
    assert(cs.take(0) =~= Seq::<SyntaxNode>::empty());
    assert(string_views(out@) =~= seq![n.kind@] + shape_seq(cs.take(0)));
    while k < n.children.len()
        invariant
            cs == n.children@,
            k <= cs.len(),
            string_views(out@) == seq![n.kind@] + shape_seq(cs.take(k as int)),
        decreases cs.len() - k,
    {
        let mut sub = shape_labels(&n.children[k], false);
        proof {
            assert(cs.take(k + 1).drop_last() =~= cs.take(k as int));
            assert(cs.take(k + 1).last() == cs[k as int]);
        }
        let ghost before = out@;
        let ghost more = sub@;
        out.append(&mut sub);
        assert(string_views(out@) =~= string_views(before) + string_views(more));
        k = k + 1;
    }
    assert(cs.take(cs.len() as int) =~= cs);
    out
}

/// The BLAKE3 digest of a stream, its items joined by the unit separator U+001F.
pub open spec fn stream_digest(ts: Seq<Seq<char>>) -> Seq<u8> {
    blake3_digest(encode_utf8(join_seq(ts, "\u{1f}"@)))
}

/// The lowercase hexadecimal digest of a stream.
pub open spec fn stream_hash(ts: Seq<Seq<char>>) -> Seq<char> {
    hex_seq(stream_digest(ts))
}

/// The number that the first eight digest bytes of a window encode, little-endian.
pub open spec fn window_value(w: Seq<Seq<char>>) -> nat {
    le_u64(stream_digest(w).take(8))
}

/// The number of items in a shingle.
pub const SHINGLE_SIZE: usize = 5;

/// The hashes of all windows of five consecutive items of a stream.
pub open spec fn shingle_set(ts: Seq<Seq<char>>) -> Set<u64> {
    Set::new(
        |h: u64|
            exists|i: int|
                0 <= i && i + SHINGLE_SIZE <= ts.len() && h as nat == #[trigger] window_value(
                    ts.subrange(i, i + SHINGLE_SIZE),
                ),
    )
}

/// Strictly increasing.
pub open spec fn increasing(s: Seq<u64>) -> bool {
    forall|i: int, j: int| 0 <= i < j < s.len() ==> s[i] < s[j]
}

/// The hash of a stream, as lowercase hexadecimal.
pub fn hash_stream(ts: &Vec<String>) -> (h: String)
    ensures
        h@ == stream_hash(string_views(ts@)),
{
    let joined = join_strings(ts, "\u{1f}");
    digest_hex(joined.as_str().as_bytes())
}

spec fn pow256(n: nat) -> nat
    decreases n,
{
    if n == 0 {
        1
    } else {
        256 * pow256((n - 1) as nat)
    }
}

proof fn lemma_le_bound(b: Seq<u8>)
    ensures
        le_u64(b) < pow256(b.len()),
    decreases b.len(),
{
    if b.len() > 0 {
        lemma_le_bound(b.drop_first());
        assert(le_u64(b) == b[0] as nat + 256 * le_u64(b.drop_first()));
        assert(le_u64(b) < pow256(b.len())) by (nonlinear_arith)
            requires
                le_u64(b) == b[0] as nat + 256 * le_u64(b.drop_first()),
                le_u64(b.drop_first()) < pow256(b.drop_first().len()),
                pow256(b.len()) == 256 * pow256(b.drop_first().len()),
                b[0] < 256,
        ;
    }
}

/// `u64::from_le_bytes` of the first eight bytes.
fn le_value(b: &[u8]) -> (v: u64)
    requires
        b@.len() >= 8,
    ensures
        v as nat == le_u64(b@.take(8)),
{
    let mut v: u64 = 0;
    let mut k: usize = 8;
    assert(b@.subrange(8, 8) =~= Seq::<u8>::empty());
    assert(pow256(8) == 18446744073709551616) by {
        reveal_with_fuel(pow256, 9);
    }
    while k > 0
        invariant
            k <= 8,
            b@.len() >= 8,
            pow256(8) == 18446744073709551616,
            v as nat == le_u64(b@.subrange(k as int, 8)),
        decreases k,
    {
        let ghost rest = b@.subrange(k as int, 8);
        let ghost next = b@.subrange(k - 1, 8);
        proof {
            assert(next.drop_first() =~= rest);
            assert(next[0] == b@[k - 1]);
            lemma_le_bound(next);
            lemma_pow_mono(next.len(), 8);
        }
        v = (b[k - 1] as u64) + 256 * v;
        k = k - 1;
    }
    assert(b@.subrange(0, 8) =~= b@.take(8));
    v
}

proof fn lemma_pow_mono(a: nat, b: nat)
    requires
        a <= b,
    ensures
        pow256(a) <= pow256(b),
    decreases b,
{
    if a < b {
        lemma_pow_mono(a, (b - 1) as nat);
    }
}

/// Adds `x` to a strictly increasing list, which stays strictly increasing.
fn insert_increasing(r: &mut Vec<u64>, x: u64)
    requires
        increasing(old(r)@),
    ensures
        increasing(final(r)@),
        final(r)@.to_set() == old(r)@.to_set().insert(x),
{
    let mut p: usize = 0;
    while p < r.len() && r[p] < x
        invariant
            p <= r@.len(),
            increasing(r@),
            forall|i: int| 0 <= i < p ==> r@[i] < x,
        decreases r@.len() - p,
    {
        p = p + 1;
    }
    if p < r.len() && r[p] == x {
        assert(r@.to_set() =~= r@.to_set().insert(x)) by {
            assert(r@.contains(x)) by {
                assert(r@[p as int] == x);
            }
        }
        return;
    }
    let ghost before = r@;
    r.insert(p, x);
    assert(r@.to_set() =~= before.to_set().insert(x)) by {
        assert forall|y: u64| #[trigger] r@.to_set().contains(y) <==> before.to_set().insert(x).contains(y) by {
            if r@.contains(y) {
                let k = choose|k: int| 0 <= k < r@.len() && r@[k] == y;
                if k < p {
                    assert(before[k] == y);
                } else if k > p {
                    assert(before[k - 1] == y);
                }
            }
            if before.contains(y) {
                let k = choose|k: int| 0 <= k < before.len() && before[k] == y;
                if k < p {
                    assert(r@[k] == y);
                } else {
                    assert(r@[k + 1] == y);
                }
            }
            if y == x {
                assert(r@[p as int] == x);
            }
        }
    }
    assert(increasing(r@)) by {
        assert forall|i: int, j: int| 0 <= i < j < r@.len() implies r@[i] < r@[j] by {
            if j < p {
                assert(r@[i] == before[i] && r@[j] == before[j]);
            } else if j == p {
                assert(r@[i] == before[i]);
            } else if i < p {
                assert(r@[i] == before[i] && r@[j] == before[j - 1]);
                assert(before[j - 1] >= x);
            } else if i == p {
                assert(r@[j] == before[j - 1]);
                assert(before[j - 1] >= x);
                assert(before[j - 1] != x);
            } else {
                assert(r@[i] == before[i - 1] && r@[j] == before[j - 1]);
            }
        }
    }
}

/// The sorted, distinct hashes of the five-item windows of a stream.
pub fn shingle_hashes(ts: &Vec<String>) -> (r: Vec<u64>)
    ensures
        increasing(r@),
        r@.to_set() == shingle_set(string_views(ts@)),
{
    let ghost views = string_views(ts@);
    let mut r: Vec<u64> = Vec::new();
    if ts.len() < SHINGLE_SIZE {
        assert(shingle_set(views) =~= Set::<u64>::empty());
        assert(r@.to_set() =~= Set::<u64>::empty());
        return r;
    }
    let last = ts.len() - SHINGLE_SIZE;
    let mut i: usize = 0;
    assert(r@.to_set() =~= Set::<u64>::empty());
    while i <= last
        invariant
            views == string_views(ts@),
            last + SHINGLE_SIZE == ts@.len(),
            i <= last + 1,
            increasing(r@),
            r@.to_set() == Set::new(
                |h: u64|
                    exists|j: int|
                        0 <= j < i && h as nat == #[trigger] window_value(
                            views.subrange(j, j + SHINGLE_SIZE),
                        ),
            ),
        decreases last + 1 - i,
    {
        let mut window: Vec<String> = Vec::new();
        let mut k: usize = i;
        assert(i + SHINGLE_SIZE <= ts.len());
        let stop = i + SHINGLE_SIZE;
        while k < stop
            invariant
                stop == i + SHINGLE_SIZE,
                views == string_views(ts@),
                last + SHINGLE_SIZE == ts@.len(),
                i <= last,
                i <= k <= i + SHINGLE_SIZE,
                string_views(window@) == views.subrange(i as int, k as int),
            decreases i + SHINGLE_SIZE - k,
        {
            let ghost before = window@;
            window.push(ts[k].clone());
            proof {
                assert(window@ == before.push(ts@[k as int]));
                assert(string_views(window@) =~= string_views(before).push(ts@[k as int]@));
                assert(views.subrange(i as int, k + 1) =~= views.subrange(i as int, k as int).push(
                    views[k as int],
                ));
            }
            k = k + 1;
        }
        let joined = join_strings(&window, "\u{1f}");
        let digest = blake3_hash(joined.as_str().as_bytes());
        let h = le_value(digest.as_slice());
        let ghost old_set = r@.to_set();
        insert_increasing(&mut r, h);
        proof {
            let w = views.subrange(i as int, i + SHINGLE_SIZE);
            assert(h as nat == window_value(w));
            assert(r@.to_set() =~= Set::new(
                |g: u64|
                    exists|j: int|
                        0 <= j < i + 1 && g as nat == #[trigger] window_value(
                            views.subrange(j, j + SHINGLE_SIZE),
                        ),
            )) by {
                assert forall|g: u64| r@.to_set().contains(g) implies exists|j: int|
                    0 <= j < i + 1 && g as nat == #[trigger] window_value(
                        views.subrange(j, j + SHINGLE_SIZE),
                    ) by {
                    if g == h {
                        assert(g as nat == window_value(views.subrange(i as int, i + SHINGLE_SIZE)));
                    } else {
                        assert(old_set.contains(g));
                    }
                }
                assert forall|g: u64|
                    (exists|j: int|
                        0 <= j < i + 1 && g as nat == #[trigger] window_value(
                            views.subrange(j, j + SHINGLE_SIZE),
                        )) implies r@.to_set().contains(g) by {
                    let j = choose|j: int|
                        0 <= j < i + 1 && g as nat == #[trigger] window_value(
                            views.subrange(j, j + SHINGLE_SIZE),
                        );
                    if j < i {
                        assert(old_set.contains(g));
                    } else {
                        assert(g as nat == h as nat);
                    }
                }
            }
        }
        i = i + 1;
    }
    assert(r@.to_set() =~= shingle_set(views)) by {
        assert forall|g: u64| r@.to_set().contains(g) <==> shingle_set(views).contains(g) by {
            if r@.to_set().contains(g) {
                let j = choose|j: int|
                    0 <= j < i && g as nat == #[trigger] window_value(
                        views.subrange(j, j + SHINGLE_SIZE),
                    );
                assert(0 <= j && j + SHINGLE_SIZE <= views.len());
            }
            if shingle_set(views).contains(g) {
                let j = choose|j: int|
                    0 <= j && j + SHINGLE_SIZE <= views.len() && g as nat == #[trigger] window_value(
                        views.subrange(j, j + SHINGLE_SIZE),
                    );
                assert(j < i);
            }
        }
    }
    r
}

/// Two syntax trees of the same shape and kinds whose leaves differ at most in the text of
/// names, literals and comments.
pub open spec fn alike(a: SyntaxNode, sa: Seq<u8>, b: SyntaxNode, sb: Seq<u8>) -> bool
    decreases a,
{
    &&& a.kind@ == b.kind@
    &&& (a.children@.len() == 0 ==> (names_identifier(a.kind@) || names_literal(a.kind@)
        || is_comment(a.kind@) || text_of(a, sa) == text_of(b, sb)))
    &&& alike_seq(a.children@, sa, b.children@, sb)
}

pub open spec fn alike_seq(s: Seq<SyntaxNode>, sa: Seq<u8>, t: Seq<SyntaxNode>, sb: Seq<u8>) -> bool
    decreases s,
{
    if s.len() == 0 {
        t.len() == 0
    } else {
        t.len() > 0 && alike_seq(s.drop_last(), sa, t.drop_last(), sb) && alike(
            s.last(),
            sa,
            t.last(),
            sb,
        )
    }
}

/// Renaming identifiers, changing literal values and editing comments leave the normalized
/// token stream, and so the normalized hash, unchanged; the AST-shape stream too.
pub proof fn law_renames_keep_streams(a: SyntaxNode, sa: Seq<u8>, b: SyntaxNode, sb: Seq<u8>, root: bool)
    requires
        alike(a, sa, b, sb),
    ensures
        tokens(a, sa, root) == tokens(b, sb, root),
        shape(a, root) == shape(b, root),
    decreases a,
{
    lemma_alike_seq_len(a.children@, sa, b.children@, sb);
    lemma_renames_keep_streams_seq(a.children@, sa, b.children@, sb);
}

proof fn lemma_alike_seq_len(s: Seq<SyntaxNode>, sa: Seq<u8>, t: Seq<SyntaxNode>, sb: Seq<u8>)
    requires
        alike_seq(s, sa, t, sb),
    ensures
        s.len() == t.len(),
    decreases s.len(),
{
    if s.len() > 0 {
        lemma_alike_seq_len(s.drop_last(), sa, t.drop_last(), sb);
    }
}

proof fn lemma_renames_keep_streams_seq(s: Seq<SyntaxNode>, sa: Seq<u8>, t: Seq<SyntaxNode>, sb: Seq<u8>)
    requires
        alike_seq(s, sa, t, sb),
    ensures
        tokens_seq(s, sa) == tokens_seq(t, sb),
        shape_seq(s) == shape_seq(t),
    decreases s,
{
    if s.len() > 0 {
        lemma_renames_keep_streams_seq(s.drop_last(), sa, t.drop_last(), sb);
        law_renames_keep_streams(s.last(), sa, t.last(), sb, false);
    }
}

// ---------------------------------------------------------------- physical lines of code

/// The byte ranges of the comments of a node, in source order, without those of functions
/// nested below the root.
pub open spec fn comment_ranges(n: SyntaxNode, root: bool) -> Seq<(usize, usize)>
    decreases n,
{
    if !root && n.kind@ == "function_item"@ {
        Seq::empty()
    } else if is_comment(n.kind@) {
        seq![(n.start_byte, n.end_byte)]
    } else {
        comment_ranges_seq(n.children@)
    }
}

pub open spec fn comment_ranges_seq(s: Seq<SyntaxNode>) -> Seq<(usize, usize)>
    decreases s,
{
    if s.len() == 0 {
        Seq::empty()
    } else {
        comment_ranges_seq(s.drop_last()) + comment_ranges(s.last(), false)
    }
}

/// An ASCII whitespace byte, as `u8::is_ascii_whitespace` judges it.
pub open spec fn ascii_space(b: u8) -> bool {
    b == 32 || b == 9 || b == 10 || b == 12 || b == 13
}

/// Byte position `p` lies inside one of the ranges.
pub open spec fn in_ranges(p: int, ranges: Seq<(usize, usize)>) -> bool {
    exists|k: int| 0 <= k < ranges.len() && #[trigger] ranges[k].0 <= p && p < ranges[k].1
}

/// A line has code when one of its bytes is neither ASCII whitespace nor inside a comment;
/// `start` is the position of its first byte.
pub open spec fn has_code(line: Seq<u8>, start: int, comments: Seq<(usize, usize)>) -> bool {
    exists|o: int| 0 <= o < line.len() && !ascii_space(#[trigger] line[o]) && !in_ranges(start + o, comments)
}

fn in_comment(p: usize, comments: &[(usize, usize)]) -> (b: bool)
    ensures
        b == in_ranges(p as int, comments@),
{
    let mut k: usize = 0;
    while k < comments.len()
        invariant
            k <= comments@.len(),
            forall|j: int| 0 <= j < k ==> !(comments@[j].0 <= p && p < comments@[j].1),
        decreases comments@.len() - k,
    {
        let (s, e) = comments[k];
        if s <= p && p < e {
            return true;
        }
        k = k + 1;
    }
    false
}

/// Whether a line holds a byte that is neither ASCII whitespace nor inside a comment.
pub fn line_has_code(line: &[u8], absolute_start: usize, comments: &[(usize, usize)]) -> (b: bool)
    requires
        absolute_start + line@.len() <= usize::MAX,
    ensures
        b == has_code(line@, absolute_start as int, comments@),
{
    let mut o: usize = 0;
    while o < line.len()
        invariant
            o <= line@.len(),
            absolute_start + line@.len() <= usize::MAX,
            forall|j: int| 0 <= j < o ==> !(!ascii_space(#[trigger] line@[j]) && !in_ranges(absolute_start + j, comments@)),
        decreases line@.len() - o,
    {
        let byte = line[o];
        let space = byte == 32 || byte == 9 || byte == 10 || byte == 12 || byte == 13;
        if !space && !in_comment(absolute_start + o, comments) {
            return true;
        }
        o = o + 1;
    }
    false
}

/// The first newline at or after `from` and before `end`, or `end`.
pub open spec fn line_end(src: Seq<u8>, from: int, end: int) -> int
    decreases end - from,
{
    if from >= end {
        end
    } else if src[from] == 10 {
        from
    } else {
        line_end(src, from + 1, end)
    }
}

/// The lines of `src[from..end]` that have code.
pub open spec fn code_lines(src: Seq<u8>, from: int, end: int, comments: Seq<(usize, usize)>) -> nat
    decreases end - from,
{
    if from >= end {
        0
    } else {
        let e = line_end(src, from, end);
        (if has_code(src.subrange(from, e), from, comments) {
            1nat
        } else {
            0nat
        }) + if e + 1 < end {
            proof {
                lemma_line_end_bounds(src, from, end);
            }
            code_lines(src, e + 1, end, comments)
        } else {
            0
        }
    }
}

pub proof fn lemma_line_end_bounds(src: Seq<u8>, from: int, end: int)
    requires
        from <= end,
    ensures
        from <= line_end(src, from, end) <= end,
    decreases end - from,
{
    if from < end && src[from] != 10 {
        lemma_line_end_bounds(src, from + 1, end);
    }
}

/// The comment ranges of a node.
pub fn collect_comment_ranges(n: &SyntaxNode, root: bool, out: &mut Vec<(usize, usize)>)
    ensures
        final(out)@ == old(out)@ + comment_ranges(*n, root),
    decreases n,
{
    if !root && str_eq(n.kind.as_str(), "function_item") {
        assert(old(out)@ + comment_ranges(*n, root) =~= old(out)@);
        return;
    }
    if is_comment_kind(n.kind.as_str()) {
        out.push((n.start_byte, n.end_byte));
        return;
    }
    let ghost cs = n.children@;
    let ghost start = out@;
    let mut k: usize = 0;
    assert(cs.take(0) =~= Seq::<SyntaxNode>::empty());
    assert(start + comment_ranges_seq(cs.take(0)) =~= start);
    while k < n.children.len()
        invariant
            cs == n.children@,
            k <= cs.len(),
            out@ == start + comment_ranges_seq(cs.take(k as int)),
        decreases cs.len() - k,
    {
        collect_comment_ranges(&n.children[k], false, out);
        proof {
            assert(cs.take(k + 1).drop_last() =~= cs.take(k as int));
            assert(cs.take(k + 1).last() == cs[k as int]);
        }
        k = k + 1;
        assert(out@ =~= start + comment_ranges_seq(cs.take(k as int)));
    }
    assert(cs.take(cs.len() as int) =~= cs);
}

/// The non-blank lines of a node that are not comment-only.
pub open spec fn sloc_of(n: SyntaxNode, src: Seq<u8>) -> nat {
    code_lines(src, n.start_byte as int, n.end_byte as int, comment_ranges(n, true))
}

/// Counts the physical lines of a node that hold code.
pub fn physical_sloc(n: &SyntaxNode, src: &[u8]) -> (count: usize)
    requires
        well_formed(*n, src@),
    ensures
        count == sloc_of(*n, src@),
{
    let mut comments: Vec<(usize, usize)> = Vec::new();
    collect_comment_ranges(n, true, &mut comments);
    assert(comments@ =~= comment_ranges(*n, true));
    let start = n.start_byte;
    let end = n.end_byte;
    let mut count: usize = 0;
    let mut line_start = start;
    while line_start < end
        invariant
            start <= end <= src@.len(),
            start <= line_start,
            count <= line_start - start,
            count + code_lines(src@, line_start as int, end as int, comments@) == code_lines(
                src@,
                start as int,
                end as int,
                comments@,
            ),
        decreases end - line_start,
    {
        let mut line_end_at = line_start;
        while line_end_at < end && src[line_end_at] != 10
            invariant
                line_start <= line_end_at <= end,
                end <= src@.len(),
                line_end(src@, line_start as int, end as int) == line_end(
                    src@,
                    line_end_at as int,
                    end as int,
                ),
            decreases end - line_end_at,
        {
            line_end_at = line_end_at + 1;
        }
        proof {
            lemma_line_end_bounds(src@, line_start as int, end as int);
            assert(line_end(src@, line_end_at as int, end as int) == line_end_at);
        }
        let line = crate::syntax::slice_bytes(src, line_start, line_end_at);
        if line_has_code(line.as_slice(), line_start, comments.as_slice()) {
            count = count + 1;
        }
        line_start = if line_end_at < end {
            line_end_at + 1
        } else {
            end
        };
    }
    count
}

// ---------------------------------------------------------------- cyclomatic complexity

/// The first child held under the field `name`.
pub open spec fn field_child(s: Seq<SyntaxNode>, name: Seq<char>) -> Option<SyntaxNode>
    decreases s.len(),
{
    if s.len() == 0 {
        None
    } else if s[0].field matches Some(f) && f@ == name {
        Some(s[0])
    } else {
        field_child(s.drop_first(), name)
    }
}

/// The first child held under `name`, with its position.
pub fn child_by_field_name<'a>(n: &'a SyntaxNode, name: &str) -> (r: Option<&'a SyntaxNode>)
    ensures
        match r {
            Some(c) => field_child(n.children@, name@) == Some(*c) && n.children@.contains(*c),
            None => field_child(n.children@, name@) is None,
        },
{
    let ghost cs = n.children@;
    let mut k: usize = 0;
    assert(cs.skip(0) =~= cs);
    while k < n.children.len()
        invariant
            cs == n.children@,
            k <= cs.len(),
            field_child(cs, name@) == field_child(cs.skip(k as int), name@),
        decreases cs.len() - k,
    {
        let c = &n.children[k];
        proof {
            assert(cs.skip(k as int)[0] == cs[k as int]);
            assert(cs.skip(k as int).drop_first() =~= cs.skip(k + 1));
        }
        match &c.field {
            Some(f) => {
                if str_eq(f.as_str(), name) {
                    return Some(c);
                }
            },
            None => {},
        }
        k = k + 1;
    }
    None
}

/// A match arm whose pattern is `_`.
pub open spec fn wildcard_arm(n: SyntaxNode, src: Seq<u8>) -> bool {
    match field_child(n.children@, "pattern"@) {
        Some(p) => trim_seq(text_of(p, src)) == "_"@,
        None => false,
    }
}

/// Kinds that are each one decision.
pub open spec fn branching_kind(kind: Seq<char>) -> bool {
    ||| kind == "if_expression"@
    ||| kind == "for_expression"@
    ||| kind == "while_expression"@
    ||| kind == "loop_expression"@
    ||| kind == "try_expression"@
    ||| kind == "&&"@
    ||| kind == "||"@
}

/// The decisions that a node itself adds.
pub open spec fn own_decision(n: SyntaxNode, src: Seq<u8>) -> nat {
    if branching_kind(n.kind@) {
        1
    } else if n.kind@ == "match_arm"@ && !wildcard_arm(n, src) {
        1
    } else {
        0
    }
}

/// The decisions of a node, without those of functions nested below the root.
pub open spec fn decisions(n: SyntaxNode, src: Seq<u8>, root: bool) -> nat
    decreases n,
{
    if !root && n.kind@ == "function_item"@ {
        0
    } else {
        own_decision(n, src) + decisions_seq(n.children@, src)
    }
}

pub open spec fn decisions_seq(s: Seq<SyntaxNode>, src: Seq<u8>) -> nat
    decreases s,
{
    if s.len() == 0 {
        0
    } else {
        decisions_seq(s.drop_last(), src) + decisions(s.last(), src, false)
    }
}

/// Each `if`, `for`, `while` and `loop` expression, each `?` and each `&&` or `||` operator
/// adds exactly one decision to those of the nodes below it; a node of another kind, other
/// than a match arm or a function nested below the root, adds none; and a function nested
/// below the root brings none of its own decisions.
pub proof fn law_decision_nodes_add_one(n: SyntaxNode, src: Seq<u8>, root: bool)
    ensures
        n.kind@ == "if_expression"@ || n.kind@ == "for_expression"@ || n.kind@ == "while_expression"@
            || n.kind@ == "loop_expression"@ || n.kind@ == "try_expression"@ || n.kind@ == "&&"@
            || n.kind@ == "||"@ ==> decisions(n, src, root) == 1 + decisions_seq(n.children@, src),
        !(n.kind@ == "if_expression"@ || n.kind@ == "for_expression"@ || n.kind@
            == "while_expression"@ || n.kind@ == "loop_expression"@ || n.kind@ == "try_expression"@
            || n.kind@ == "&&"@ || n.kind@ == "||"@ || n.kind@ == "match_arm"@ || n.kind@
            == "function_item"@) ==> decisions(n, src, root) == decisions_seq(n.children@, src),
        !root && n.kind@ == "function_item"@ ==> decisions(n, src, root) == 0,
{
    reveal_strlit("if_expression");
    reveal_strlit("for_expression");
    reveal_strlit("while_expression");
    reveal_strlit("loop_expression");
    reveal_strlit("try_expression");
    reveal_strlit("&&");
    reveal_strlit("||");
    reveal_strlit("function_item");
    assert("if_expression"@[0] != "function_item"@[0]);
    if branching_kind(n.kind@) {
        assert(n.kind@.len() != 13 || n.kind@[0] != 'f');
        assert(n.kind@ != "function_item"@);
        assert(own_decision(n, src) == 1);
        assert(decisions(n, src, root) == own_decision(n, src) + decisions_seq(n.children@, src));
    }
}

/// `n`, or the largest `u32` where `n` does not fit.
pub open spec fn capped32(n: int) -> u32 {
    if n < u32::MAX {
        n as u32
    } else {
        u32::MAX
    }
}

proof fn lemma_capped32(x: int, y: int)
    requires
        x >= 0,
        y >= 0,
    ensures
        capped32(capped32(x) + y) == capped32(x + y),
{
}

fn is_wildcard_match_arm(n: &SyntaxNode, src: &[u8]) -> (b: bool)
    requires
        well_formed(*n, src@),
    ensures
        b == wildcard_arm(*n, src@),
{
    match child_by_field_name(n, "pattern") {
        Some(p) => {
            proof {
                lemma_all_well_formed(n.children@, src@);
                let k = choose|k: int| 0 <= k < n.children@.len() && n.children@[k] == *p;
                assert(well_formed(n.children@[k], src@));
            }
            let text = node_text(p, src);
            let chars = chars_of(text.as_str());
            let trimmed = trim_chars(chars.as_slice());
            proof {
                reveal_strlit("_");
                if trimmed@.len() == 1 && trimmed@[0] == '_' {
                    assert(trimmed@ =~= "_"@);
                }
            }
            trimmed.len() == 1 && trimmed[0] == '_'
        },
        None => false,
    }
}

fn collect_complexity(n: &SyntaxNode, src: &[u8], root: bool, complexity: &mut u32)
    requires
        well_formed(*n, src@),
    ensures
        *final(complexity) == capped32(*old(complexity) + decisions(*n, src@, root)),
    decreases n,
{
    if !root && str_eq(n.kind.as_str(), "function_item") {
        return;
    }
    let k = n.kind.as_str();
    let own = str_eq(k, "if_expression") || str_eq(k, "for_expression") || str_eq(
        k,
        "while_expression",
    ) || str_eq(k, "loop_expression") || str_eq(k, "try_expression") || str_eq(k, "&&")
        || str_eq(k, "||") || (str_eq(k, "match_arm") && !is_wildcard_match_arm(n, src));
    if own {
        *complexity = complexity.saturating_add(1);
    }
    assert(*complexity == capped32(*old(complexity) + own_decision(*n, src@)));
    let ghost cs = n.children@;
    let ghost base = *old(complexity) + own_decision(*n, src@);
    proof {
        lemma_all_well_formed(cs, src@);
    }
    let mut i: usize = 0;
    assert(cs.take(0) =~= Seq::<SyntaxNode>::empty());
    while i < n.children.len()
        invariant
            cs == n.children@,
            i <= cs.len(),
            forall|j: int| 0 <= j < cs.len() ==> #[trigger] well_formed(cs[j], src@),
            base >= 0,
            *complexity == capped32(base + decisions_seq(cs.take(i as int), src@)),
        decreases cs.len() - i,
    {
        let ghost before = *complexity;
        collect_complexity(&n.children[i], src, false, complexity);
        proof {
            assert(cs.take(i + 1).drop_last() =~= cs.take(i as int));
            assert(cs.take(i + 1).last() == cs[i as int]);
            lemma_capped32(
                base + decisions_seq(cs.take(i as int), src@),
                decisions(cs[i as int], src@, false) as int,
            );
        }
        i = i + 1;
    }
    assert(cs.take(cs.len() as int) =~= cs);
}

/// Cyclomatic complexity: one plus the decisions of the function's own body.
pub fn cyclomatic_complexity(n: &SyntaxNode, src: &[u8]) -> (cc: u32)
    requires
        well_formed(*n, src@),
    ensures
        cc == capped32(1 + decisions(*n, src@, true) as int),
{
    let mut complexity: u32 = 1;
    collect_complexity(n, src, true, &mut complexity);
    complexity
}

// ---------------------------------------------------------------- functions

/// The one strictly increasing list of a finite set of hashes.
pub open spec fn increasing_list(s: Set<u64>) -> Seq<u64> {
    choose|q: Seq<u64>| increasing(q) && q.to_set() == s
}

proof fn lemma_increasing_unique(a: Seq<u64>, b: Seq<u64>)
    requires
        increasing(a),
        increasing(b),
        a.to_set() == b.to_set(),
    ensures
        a == b,
    decreases a.len(),
{
    if a.len() == 0 {
        if b.len() > 0 {
            assert(b.to_set().contains(b[0]));
        }
        assert(a =~= b);
    } else {
        assert(a.to_set().contains(a[0]));
        assert(b.len() > 0);
        assert(b.to_set().contains(b[0]));
        let ka = choose|k: int| 0 <= k < a.len() && a[k] == b[0];
        let kb = choose|k: int| 0 <= k < b.len() && b[k] == a[0];
        if ka > 0 {
            assert(a[0] < a[ka]);
        }
        if kb > 0 {
            assert(b[0] < b[kb]);
        }
        assert(a[0] == b[0]);
        let da = a.drop_first();
        let db = b.drop_first();
        assert(increasing(da)) by {
            assert forall|i: int, j: int| 0 <= i < j < da.len() implies da[i] < da[j] by {
                assert(da[i] == a[i + 1] && da[j] == a[j + 1]);
            }
        }
        assert(increasing(db)) by {
            assert forall|i: int, j: int| 0 <= i < j < db.len() implies db[i] < db[j] by {
                assert(db[i] == b[i + 1] && db[j] == b[j + 1]);
            }
        }
        assert(da.to_set() =~= db.to_set()) by {
            assert forall|x: u64| da.to_set().contains(x) implies db.to_set().contains(x) by {
                let k = choose|k: int| 0 <= k < da.len() && da[k] == x;
                assert(a[k + 1] == x);
                assert(a.to_set().contains(x));
                let m = choose|m: int| 0 <= m < b.len() && b[m] == x;
                assert(a[0] < a[k + 1]);
                assert(m != 0);
                assert(db[m - 1] == x);
            }
            assert forall|x: u64| db.to_set().contains(x) implies da.to_set().contains(x) by {
                let k = choose|k: int| 0 <= k < db.len() && db[k] == x;
                assert(b[k + 1] == x);
                assert(b.to_set().contains(x));
                let m = choose|m: int| 0 <= m < a.len() && a[m] == x;
                assert(b[0] < b[k + 1]);
                assert(m != 0);
                assert(da[m - 1] == x);
            }
        }
        lemma_increasing_unique(da, db);
        assert(da == db);
        assert(a.len() == b.len());
        assert forall|i: int| 0 <= i < a.len() implies a[i] == b[i] by {
            if i > 0 {
                assert(a[i] == da[i - 1]);
                assert(b[i] == db[i - 1]);
            }
        }
        assert(a =~= b);
    }
}

proof fn lemma_is_increasing_list(q: Seq<u64>)
    requires
        increasing(q),
    ensures
        increasing_list(q.to_set()) == q,
{
    let c = increasing_list(q.to_set());
    assert(increasing(c) && c.to_set() == q.to_set());
    lemma_increasing_unique(c, q);
}

/// The name of the scope that a module, trait or implementation opens.
pub open spec fn scope_name(n: SyntaxNode, src: Seq<u8>) -> Option<Seq<char>> {
    let c = if n.kind@ == "mod_item"@ || n.kind@ == "trait_item"@ {
        field_child(n.children@, "name"@)
    } else if n.kind@ == "impl_item"@ {
        field_child(n.children@, "type"@)
    } else {
        None
    };
    match c {
        Some(c) => Some(text_of(c, src)),
        None => None,
    }
}

/// The record of a function item; none when it has no name.
pub open spec fn function_record(
    n: SyntaxNode,
    src: Seq<u8>,
    path: Seq<char>,
    scopes: Seq<Seq<char>>,
) -> Option<RecordView> {
    match field_child(n.children@, "name"@) {
        None => None,
        Some(name_node) => {
            let name = text_of(name_node, src);
            let ts = tokens(n, src, true);
            let labels = shape(n, true);
            Some(
                RecordView {
                    identity: IdentityView {
                        language: "rust"@,
                        path,
                        qualified_name: join_seq(scopes.push(name), "::"@),
                        kind: FunctionKind::Function,
                    },
                    name,
                    start_line: (n.start_row + 1) as usize,
                    end_line: (n.end_row + 1) as usize,
                    normalized_hash: stream_hash(ts),
                    ast_hash: stream_hash(labels),
                    ast_node_count: labels.len() as usize,
                    token_count: ts.len() as usize,
                    sloc: sloc_of(n, src) as usize,
                    cc: capped32(1 + decisions(n, src, true) as int),
                    shingle_hashes: increasing_list(shingle_set(ts)),
                    ast_shingle_hashes: increasing_list(shingle_set(labels)),
                },
            )
        },
    }
}

/// The records of the functions under a node, in source order: a function item's own record,
/// else those under its named children, inside the scope that it opens. None when a
/// function has no name.
pub open spec fn functions_in(n: SyntaxNode, src: Seq<u8>, path: Seq<char>, scopes: Seq<Seq<char>>) -> Option<
    Seq<RecordView>,
>
    decreases n,
{
    if n.kind@ == "function_item"@ {
        match function_record(n, src, path, scopes) {
            Some(r) => Some(seq![r]),
            None => None,
        }
    } else {
        functions_in_seq(
            n.children@,
            src,
            path,
            match scope_name(n, src) {
                Some(s) => scopes.push(s),
                None => scopes,
            },
        )
    }
}

pub open spec fn functions_in_seq(
    s: Seq<SyntaxNode>,
    src: Seq<u8>,
    path: Seq<char>,
    scopes: Seq<Seq<char>>,
) -> Option<Seq<RecordView>>
    decreases s,
{
    if s.len() == 0 {
        Some(Seq::empty())
    } else {
        match functions_in_seq(s.drop_last(), src, path, scopes) {
            None => None,
            Some(a) => if !s.last().named {
                Some(a)
            } else {
                match functions_in(s.last(), src, path, scopes) {
                    None => None,
                    Some(b) => Some(a + b),
                }
            },
        }
    }
}

/// Each record ends no later than every later record starts: the records are in source order.
pub open spec fn lines_in_order(fs: Seq<RecordView>) -> bool {
    forall|i: int, j: int| 0 <= i < j < fs.len() ==> #[trigger] fs[i].end_line <= #[trigger] fs[j].start_line
}

/// Every record starts no earlier than line `lo`, ends no later than line `hi`, and starts no
/// later than it ends.
pub open spec fn lines_within(fs: Seq<RecordView>, lo: int, hi: int) -> bool {
    forall|i: int| 0 <= i < fs.len() ==> lo <= #[trigger] fs[i].start_line <= fs[i].end_line <= hi
}

/// The functions of a tree whose rows run forward come in source order, within the tree's
/// lines.
pub proof fn lemma_functions_in_source_order(
    n: SyntaxNode,
    src: Seq<u8>,
    path: Seq<char>,
    scopes: Seq<Seq<char>>,
)
    requires
        well_formed(n, src),
        rows_nested(n),
        functions_in(n, src, path, scopes) is Some,
    ensures
        lines_within(functions_in(n, src, path, scopes)->0, n.start_row + 1, n.end_row + 1),
        lines_in_order(functions_in(n, src, path, scopes)->0),
    decreases n, 1int,
{
    if n.kind@ == "function_item"@ {
    } else {
        let inner = match scope_name(n, src) {
            Some(s) => scopes.push(s),
            None => scopes,
        };
        lemma_functions_in_seq_source_order(n.children@, src, path, inner, n.start_row, n.end_row);
    }
}

/// The functions of a sequence of trees whose rows run forward within rows `lo` to `hi` come
/// in source order, within those lines.
pub proof fn lemma_functions_in_seq_source_order(
    s: Seq<SyntaxNode>,
    src: Seq<u8>,
    path: Seq<char>,
    scopes: Seq<Seq<char>>,
    lo: usize,
    hi: usize,
)
    requires
        all_well_formed(s, src),
        rows_between(s, lo, hi),
        functions_in_seq(s, src, path, scopes) is Some,
    ensures
        lines_within(functions_in_seq(s, src, path, scopes)->0, lo + 1, hi + 1),
        lines_in_order(functions_in_seq(s, src, path, scopes)->0),
    decreases s, 0int,
{
    if s.len() > 0 {
        let x = s.last();
        assert(lo <= x.start_row && x.end_row <= hi && rows_nested(x));
        assert(x.start_row <= x.end_row);
        lemma_functions_in_seq_source_order(s.drop_last(), src, path, scopes, lo, x.start_row);
        let a = functions_in_seq(s.drop_last(), src, path, scopes)->0;
        assert(lines_within(a, lo + 1, x.start_row + 1));
        if x.named {
            lemma_functions_in_source_order(x, src, path, scopes);
            let b = functions_in(x, src, path, scopes)->0;
            let fs = a + b;
            assert(fs == functions_in_seq(s, src, path, scopes)->0);
            assert forall|i: int| 0 <= i < fs.len() implies lo + 1 <= #[trigger] fs[i].start_line
                <= fs[i].end_line <= hi + 1 by {
                if i < a.len() {
                    assert(fs[i] == a[i]);
                    assert(lo + 1 <= a[i].start_line <= a[i].end_line <= x.start_row + 1);
                } else {
                    assert(fs[i] == b[i - a.len()]);
                    assert(x.start_row + 1 <= b[i - a.len()].start_line <= b[i - a.len()].end_line
                        <= x.end_row + 1);
                }
            }
            assert forall|i: int, j: int| 0 <= i < j < fs.len() implies #[trigger] fs[i].end_line
                <= #[trigger] fs[j].start_line by {
                if j < a.len() {
                    assert(fs[i] == a[i] && fs[j] == a[j]);
                } else if i >= a.len() {
                    assert(fs[i] == b[i - a.len()] && fs[j] == b[j - a.len()]);
                } else {
                    assert(fs[i] == a[i] && fs[j] == b[j - a.len()]);
                    assert(a[i].start_line <= a[i].end_line);
                    assert(b[j - a.len()].start_line <= b[j - a.len()].end_line);
                }
            }
        }
    }
}

fn child_text(n: &SyntaxNode, c: &SyntaxNode, src: &[u8]) -> (t: String)
    requires
        well_formed(*n, src@),
        n.children@.contains(*c),
    ensures
        t@ == text_of(*c, src@),
{
    proof {
        lemma_all_well_formed(n.children@, src@);
        let k = choose|k: int| 0 <= k < n.children@.len() && n.children@[k] == *c;
        assert(well_formed(n.children@[k], src@));
    }
    node_text(c, src)
}

fn find_scope_name(n: &SyntaxNode, src: &[u8]) -> (r: Option<String>)
    requires
        well_formed(*n, src@),
    ensures
        match r {
            Some(t) => scope_name(*n, src@) == Some(t@),
            None => scope_name(*n, src@) is None,
        },
{
    let k = n.kind.as_str();
    let c = if str_eq(k, "mod_item") || str_eq(k, "trait_item") {
        child_by_field_name(n, "name")
    } else if str_eq(k, "impl_item") {
        child_by_field_name(n, "type")
    } else {
        None
    };
    match c {
        Some(c) => Some(child_text(n, c, src)),
        None => None,
    }
}

/// The error for a function item without a name.
pub open spec fn is_unnamed_error(e: AppError) -> bool {
    is_invalid(e, "Rust function"@, "is missing a name"@)
}

fn copy_strings(v: &Vec<String>) -> (r: Vec<String>)
    ensures
        string_views(r@) == string_views(v@),
{
    let mut r: Vec<String> = Vec::new();
    let mut k: usize = 0;
    while k < v.len()
        invariant
            k <= v@.len(),
            string_views(r@) == string_views(v@).take(k as int),
        decreases v@.len() - k,
    {
        let ghost before = r@;
        let c = v[k].clone();
        assert(c@ == v@[k as int]@);
        r.push(c);
        assert(string_views(r@) =~= string_views(before).push(c@));
        assert(string_views(v@).take(k + 1) =~= string_views(v@).take(k as int).push(v@[k as int]@));
        k = k + 1;
    }
    assert(string_views(v@).take(v@.len() as int) =~= string_views(v@));
    r
}

/// The record of a function item.
pub fn record_function(n: &SyntaxNode, src: &[u8], path: &str, scopes: &Vec<String>) -> (r:
    AppResult<FunctionRecord>)
    requires
        well_formed(*n, src@),
    ensures
        match function_record(*n, src@, path@, string_views(scopes@)) {
            Some(v) => r matches Ok(f) && f@ == v,
            None => r matches Err(e) && is_unnamed_error(e),
        },
{
    let name_node = match child_by_field_name(n, "name") {
        Some(c) => c,
        None => {
            return Err(AppError::invalid("Rust function", "is missing a name".to_owned()));
        },
    };
    let name = child_text(n, name_node, src);
    let mut parts = copy_strings(scopes);
    parts.push(name.clone());
    assert(string_views(parts@) =~= string_views(scopes@).push(name@));
    let qualified_name = join_strings(&parts, "::");
    let tokens = normalized_tokens(n, src, true);
    let labels = shape_labels(n, true);
    let shingles = shingle_hashes(&tokens);
    let ast_shingles = shingle_hashes(&labels);
    proof {
        lemma_is_increasing_list(shingles@);
        lemma_is_increasing_list(ast_shingles@);
    }
    let f = FunctionRecord {
        identity: FunctionIdentity {
            language: "rust".to_owned(),
            path: path.to_owned(),
            qualified_name,
            kind: FunctionKind::Function,
        },
        name,
        start_line: n.start_row + 1,
        end_line: n.end_row + 1,
        normalized_hash: hash_stream(&tokens),
        ast_hash: hash_stream(&labels),
        ast_node_count: labels.len(),
        token_count: tokens.len(),
        sloc: physical_sloc(n, src),
        cc: cyclomatic_complexity(n, src),
        shingle_hashes: shingles,
        ast_shingle_hashes: ast_shingles,
    };
    proof {
        reveal_strlit("rust");
    }
    Ok(f)
}

proof fn lemma_functions_none_persists(
    s: Seq<SyntaxNode>,
    k: int,
    src: Seq<u8>,
    path: Seq<char>,
    scopes: Seq<Seq<char>>,
)
    requires
        0 <= k <= s.len(),
        functions_in_seq(s.take(k), src, path, scopes) is None,
    ensures
        functions_in_seq(s, src, path, scopes) is None,
    decreases s.len() - k,
{
    if k < s.len() {
        assert(s.take(k + 1).drop_last() =~= s.take(k));
        lemma_functions_none_persists(s, k + 1, src, path, scopes);
    } else {
        assert(s.take(k) =~= s);
    }
}

/// Appends the records of the functions under `n`.
#[verifier::loop_isolation(false)]
pub fn collect_functions(
    n: &SyntaxNode,
    src: &[u8],
    path: &str,
    scopes: &Vec<String>,
    out: &mut Vec<FunctionRecord>,
) -> (r: AppResult<()>)
    requires
        well_formed(*n, src@),
    ensures
        match functions_in(*n, src@, path@, string_views(scopes@)) {
            Some(fs) => r is Ok && record_views(final(out)@) == record_views(old(out)@) + fs,
            None => r matches Err(e) && is_unnamed_error(e),
        },
    decreases n,
{
    if str_eq(n.kind.as_str(), "function_item") {
        let f = record_function(n, src, path, scopes)?;
        out.push(f);
        assert(record_views(out@) =~= record_views(old(out)@) + seq![f@]);
        return Ok(());
    }
    let mut inner = copy_strings(scopes);
    match find_scope_name(n, src) {
        Some(s) => {
            inner.push(s);
        },
        None => {},
    }
    let ghost sv = match scope_name(*n, src@) {
        Some(s) => string_views(scopes@).push(s),
        None => string_views(scopes@),
    };
    assert(string_views(inner@) =~= sv);
    let ghost cs = n.children@;
    let ghost start = record_views(out@);
    proof {
        lemma_all_well_formed(cs, src@);
    }
    let mut k: usize = 0;
    assert(cs.take(0) =~= Seq::<SyntaxNode>::empty());
    assert(start + Seq::<RecordView>::empty() =~= start);
    while k < n.children.len()
        invariant
            cs == n.children@,
            k <= cs.len(),
            forall|j: int| 0 <= j < cs.len() ==> #[trigger] well_formed(cs[j], src@),
            string_views(inner@) == sv,
            functions_in_seq(cs.take(k as int), src@, path@, sv) matches Some(a) && record_views(
                out@,
            ) == start + a,
        decreases cs.len() - k,
    {
        proof {
            assert(cs.take(k + 1).drop_last() =~= cs.take(k as int));
            assert(cs.take(k + 1).last() == cs[k as int]);
        }
        if n.children[k].named {
            let ghost before = record_views(out@);
            let r = collect_functions(&n.children[k], src, path, &inner, out);
            match r {
                Ok(()) => {
                    assert(record_views(out@) =~= start + functions_in_seq(cs.take(k + 1), src@, path@, sv)->0);
                },
                Err(e) => {
                    proof {
                        assert(functions_in_seq(cs.take(k + 1), src@, path@, sv) is None);
                        lemma_functions_none_persists(cs, k + 1, src@, path@, sv);
                        assert(functions_in(*n, src@, path@, string_views(scopes@)) == functions_in_seq(
                            cs,
                            src@,
                            path@,
                            sv,
                        ));
                        assert(is_unnamed_error(e));
                    }
                    return Err(e);
                },
            }
        }
        k = k + 1;
    }
    assert(cs.take(cs.len() as int) =~= cs);
    Ok(())
}

/// The file record of a source whose syntax tree is `tree`: its functions, the BLAKE3 hash
/// of the whole source, and the language `rust`.
pub fn analyze_syntax(path: &str, source: &str, tree: &SyntaxNode) -> (r: AppResult<AnalyzedFile>)
    requires
        well_formed(*tree, source.spec_bytes()),
    ensures
        match functions_in(*tree, source.spec_bytes(), path@, Seq::empty()) {
            Some(fs) => r matches Ok(f) && f.path@ == path@ && f.language@ == "rust"@
                && f.content_hash@ == blake3_hex(source.spec_bytes()) && record_views(f.functions@)
                == fs,
            None => r matches Err(e) && is_unnamed_error(e),
        },
{
    let src = source.as_bytes();
    let scopes: Vec<String> = Vec::new();
    let mut functions: Vec<FunctionRecord> = Vec::new();
    assert(string_views(scopes@) =~= Seq::<Seq<char>>::empty());
    collect_functions(tree, src, path, &scopes, &mut functions)?;
    assert(record_views(functions@) =~= Seq::<RecordView>::empty() + record_views(functions@));
    proof {
        reveal_strlit("rust");
    }
    Ok(
        AnalyzedFile {
            path: path.to_owned(),
            language: "rust".to_owned(),
            content_hash: digest_hex(src),
            functions,
        },
    )
}

/// The error for a path that is not repository-relative.
pub open spec fn is_path_error(e: AppError, path: Seq<char>) -> bool {
    is_invalid(e, "repository-relative path"@, debug_str(path))
}

/// Analyzes all named Rust functions in one repository-relative source file. A path that is
/// not repository-relative is refused first; then a source that [`parse_rust`] refuses;
/// otherwise the result is that of [`analyze_syntax`] on the source's syntax tree.
pub fn analyze_rust_file(path: &str, source: &str) -> (r: AppResult<AnalyzedFile>)
    ensures
        !relative_path(path@) ==> (r matches Err(e) && is_path_error(e, path@)),
        relative_path(path@) ==> match rust_tree(source@, source.spec_bytes()) {
            None => r matches Err(e) && parse_refusal(e, source@, source.spec_bytes()),
            Some(t) => match functions_in(t, source.spec_bytes(), path@, Seq::empty()) {
                Some(fs) => r matches Ok(f) && record_views(f.functions@) == fs && f.path@ == path@
                    && f.language@ == "rust"@ && f.content_hash@ == blake3_hex(source.spec_bytes())
                    && lines_in_order(fs),
                None => r matches Err(e) && is_unnamed_error(e),
            },
        },
{
    if !is_relative_path(path) {
        return Err(AppError::invalid("repository-relative path", debug_quoted(path)));
    }
    let tree = match parse_rust(source) {
        Ok(t) => t,
        Err(e) => {
            return Err(e);
        },
    };
    proof {
        if functions_in(tree, source.spec_bytes(), path@, Seq::empty()) is Some {
            lemma_functions_in_source_order(tree, source.spec_bytes(), path@, Seq::empty());
        }
    }
    analyze_syntax(path, source, &tree)
}

// ---------------------------------------------------------------- lint suppressions

/// The first named node of `s` at or after `j`.
pub open spec fn next_named_from(s: Seq<SyntaxNode>, j: int) -> Option<SyntaxNode>
    decreases s.len() - j,
{
    if j < 0 || j >= s.len() {
        None
    } else if s[j].named {
        Some(s[j])
    } else {
        next_named_from(s, j + 1)
    }
}

/// The fingerprint of a suppression's target: the hash of its normalized tokens, or `file`
/// for a suppression of the whole file.
pub open spec fn target_fingerprint(t: Option<SyntaxNode>, src: Seq<u8>) -> Seq<char> {
    match t {
        Some(x) => stream_hash(tokens(x, src, true)),
        None => "file"@,
    }
}

/// The suppression that an attribute node states; an outer attribute applies to `target`, the
/// next named node after it.
pub open spec fn own_lint(n: SyntaxNode, src: Seq<u8>, target: Option<SyntaxNode>) -> Seq<
    LintSuppressionView,
> {
    if n.kind@ == "attribute_item"@ || n.kind@ == "inner_attribute_item"@ {
        match suppression_of(text_of(n, src)) {
            Some((kind, paths)) => {
                let t = if n.kind@ == "inner_attribute_item"@ {
                    None
                } else {
                    target
                };
                seq![
                    LintSuppressionView {
                        kind,
                        lint_paths: paths,
                        target_fingerprint: target_fingerprint(t, src),
                        target_kind: match t {
                            Some(x) => x.kind@,
                            None => "file"@,
                        },
                        line: (n.start_row + 1) as usize,
                    },
                ]
            },
            None => Seq::empty(),
        }
    } else {
        Seq::empty()
    }
}

/// The suppressions of a node and of its named descendants, in preorder.
pub open spec fn lint_facts(n: SyntaxNode, src: Seq<u8>, target: Option<SyntaxNode>) -> Seq<
    LintSuppressionView,
>
    decreases n, 0int,
{
    own_lint(n, src, target) + lint_facts_seq(n.children@, src, n.children@.len() as int)
}

/// The suppressions under the first `k` of the siblings `s`.
pub open spec fn lint_facts_seq(s: Seq<SyntaxNode>, src: Seq<u8>, k: int) -> Seq<LintSuppressionView>
    decreases s, k,
{
    if k <= 0 || k > s.len() {
        Seq::empty()
    } else {
        lint_facts_seq(s, src, k - 1) + if s[k - 1].named {
            lint_facts(s[k - 1], src, next_named_from(s, k))
        } else {
            Seq::empty()
        }
    }
}

/// Line, then kind, then the lint list: the order of reported suppressions.
pub open spec fn list_lt(a: Seq<Seq<char>>, b: Seq<Seq<char>>) -> bool
    decreases a.len(),
{
    if a.len() == 0 {
        b.len() > 0
    } else if b.len() == 0 {
        false
    } else if a[0] != b[0] {
        seq_lt(a[0], b[0])
    } else {
        list_lt(a.drop_first(), b.drop_first())
    }
}

pub open spec fn lint_lt(a: LintSuppressionView, b: LintSuppressionView) -> bool {
    if a.line != b.line {
        a.line < b.line
    } else if a.kind != b.kind {
        seq_lt(a.kind, b.kind)
    } else {
        list_lt(a.lint_paths, b.lint_paths)
    }
}

pub open spec fn lint_view_order() -> spec_fn(LintSuppressionView, LintSuppressionView) -> bool {
    |a: LintSuppressionView, b: LintSuppressionView| lint_lt(a, b)
}

pub open spec fn lint_order() -> spec_fn(LintSuppression, LintSuppression) -> bool {
    |a: LintSuppression, b: LintSuppression| lint_lt(a@, b@)
}

pub open spec fn lint_views(s: Seq<LintSuppression>) -> Seq<LintSuppressionView> {
    s.map_values(|f: LintSuppression| f@)
}

fn strings_lt(a: &Vec<String>, b: &Vec<String>) -> (r: bool)
    ensures
        r == list_lt(string_views(a@), string_views(b@)),
{
    let ghost x = string_views(a@);
    let ghost y = string_views(b@);
    let mut i: usize = 0;
    assert(x.skip(0) =~= x && y.skip(0) =~= y);
    while i < a.len() && i < b.len() && str_eq(a[i].as_str(), b[i].as_str())
        invariant
            x == string_views(a@),
            y == string_views(b@),
            i <= a@.len(),
            i <= b@.len(),
            list_lt(x, y) == list_lt(x.skip(i as int), y.skip(i as int)),
        decreases a@.len() - i,
    {
        proof {
            assert(x.skip(i as int).drop_first() =~= x.skip(i + 1));
            assert(y.skip(i as int).drop_first() =~= y.skip(i + 1));
            assert(x.skip(i as int)[0] == a@[i as int]@);
            assert(y.skip(i as int)[0] == b@[i as int]@);
        }
        i = i + 1;
    }
    if i == a.len() {
        i < b.len()
    } else if i == b.len() {
        false
    } else {
        assert(x.skip(i as int)[0] == a@[i as int]@);
        assert(y.skip(i as int)[0] == b@[i as int]@);
        crate::text::str_lt(a[i].as_str(), b[i].as_str())
    }
}

fn lint_less(a: &LintSuppression, b: &LintSuppression) -> (r: bool)
    ensures
        r == lint_lt(a@, b@),
{
    if a.line != b.line {
        return a.line < b.line;
    }
    if !str_eq(a.kind.as_str(), b.kind.as_str()) {
        return crate::text::str_lt(a.kind.as_str(), b.kind.as_str());
    }
    strings_lt(&a.lint_paths, &b.lint_paths)
}

fn next_named<'a>(s: &'a Vec<SyntaxNode>, j: usize) -> (r: Option<&'a SyntaxNode>)
    ensures
        match r {
            Some(x) => next_named_from(s@, j as int) == Some(*x) && s@.contains(*x),
            None => next_named_from(s@, j as int) is None,
        },
{
    let mut k = j;
    while k < s.len() && !s[k].named
        invariant
            j <= k,
            next_named_from(s@, j as int) == next_named_from(s@, k as int),
        decreases s@.len() - k,
    {
        k = k + 1;
    }
    if k < s.len() {
        Some(&s[k])
    } else {
        None
    }
}

fn target_hash(t: Option<&SyntaxNode>, src: &[u8]) -> (h: String)
    requires
        t matches Some(x) ==> well_formed(*x, src@),
    ensures
        h@ == target_fingerprint(
            match t {
                Some(x) => Some(*x),
                None => None,
            },
            src@,
        ),
{
    match t {
        Some(x) => {
            let ts = normalized_tokens(x, src, true);
            hash_stream(&ts)
        },
        None => "file".to_owned(),
    }
}

spec fn opt_node(t: Option<&SyntaxNode>) -> Option<SyntaxNode> {
    match t {
        Some(x) => Some(*x),
        None => None,
    }
}

/// Appends the suppressions of `n` and its named descendants.
#[verifier::loop_isolation(false)]
fn collect_lint_suppressions(
    n: &SyntaxNode,
    src: &[u8],
    target: Option<&SyntaxNode>,
    out: &mut Vec<LintSuppression>,
)
    requires
        well_formed(*n, src@),
        target matches Some(x) ==> well_formed(*x, src@),
    ensures
        lint_views(final(out)@) == lint_views(old(out)@) + lint_facts(*n, src@, opt_node(target)),
    decreases n,
{
    let kind = n.kind.as_str();
    let inner = str_eq(kind, "inner_attribute_item");
    if inner || str_eq(kind, "attribute_item") {
        let text = node_text(n, src);
        match parse_suppression(text.as_str()) {
            Some((k, lint_paths)) => {
                let t = if inner {
                    None
                } else {
                    target
                };
                let fact = LintSuppression {
                    kind: k,
                    lint_paths,
                    target_fingerprint: target_hash(t, src),
                    target_kind: match t {
                        Some(x) => x.kind.clone(),
                        None => "file".to_owned(),
                    },
                    line: n.start_row + 1,
                };
                let ghost before = out@;
                out.push(fact);
                assert(lint_views(out@) =~= lint_views(before).push(fact@));
                proof {
                    reveal_strlit("file");
                }
                assert(own_lint(*n, src@, opt_node(target)) =~= seq![fact@]);
            },
            None => {},
        }
    }
    let ghost own = own_lint(*n, src@, opt_node(target));
    assert(lint_views(out@) == lint_views(old(out)@) + own);
    let ghost cs = n.children@;
    proof {
        lemma_all_well_formed(cs, src@);
    }
    let mut k: usize = 0;
    assert(lint_views(out@) =~= lint_views(old(out)@) + own + lint_facts_seq(cs, src@, 0));
    while k < n.children.len()
        invariant
            cs == n.children@,
            k <= cs.len(),
            lint_views(out@) == lint_views(old(out)@) + own + lint_facts_seq(cs, src@, k as int),
        decreases cs.len() - k,
    {
        let c = &n.children[k];
        if c.named {
            let t = next_named(&n.children, k + 1);
            proof {
                if t is Some {
                    let x = t->0;
                    let m = choose|m: int| 0 <= m < cs.len() && cs[m] == *x;
                    assert(well_formed(cs[m], src@));
                }
                assert(well_formed(cs[k as int], src@));
            }
            let ghost before = lint_views(out@);
            collect_lint_suppressions(c, src, t, out);
            assert(lint_views(out@) =~= lint_views(old(out)@) + own + lint_facts_seq(
                cs,
                src@,
                k + 1,
            ));
        } else {
            assert(lint_views(out@) =~= lint_views(old(out)@) + own + lint_facts_seq(
                cs,
                src@,
                k + 1,
            ));
        }
        k = k + 1;
    }
    assert(lint_facts(*n, src@, opt_node(target)) == own + lint_facts_seq(cs, src@, cs.len() as int));
    assert(lint_views(out@) =~= lint_views(old(out)@) + lint_facts(*n, src@, opt_node(target)));
}

/// The suppressions of a source whose syntax tree is `tree`, in the order of line, kind and
/// lint list; suppressions that compare equal keep their source order.
pub fn lint_suppressions_of(source: &str, tree: &SyntaxNode) -> (r: Vec<LintSuppression>)
    requires
        well_formed(*tree, source.spec_bytes()),
    ensures
        lint_views(r@) == stable_sort(lint_facts(*tree, source.spec_bytes(), None), lint_view_order()),
{
    let src = source.as_bytes();
    let mut facts: Vec<LintSuppression> = Vec::new();
    collect_lint_suppressions(tree, src, None, &mut facts);
    assert(lint_views(facts@) =~= lint_facts(*tree, src@, None));
    let ghost unsorted = facts@;
    let sorted = insertion_sort(facts, lint_less, Ghost(lint_order()));
    proof {
        lemma_sort_map(unsorted, lint_order(), |f: LintSuppression| f@, lint_view_order());
    }
    sorted
}

/// Extracts normalized `allow`, `expect`, and conditional allow attributes of one source
/// file, refusing a path that is not repository-relative and a source that [`parse_rust`]
/// refuses.
pub fn lint_suppressions(path: &str, source: &str) -> (r: AppResult<Vec<LintSuppression>>)
    ensures
        !relative_path(path@) ==> (r matches Err(e) && is_path_error(e, path@)),
        relative_path(path@) ==> match rust_tree(source@, source.spec_bytes()) {
            None => r matches Err(e) && parse_refusal(e, source@, source.spec_bytes()),
            Some(t) => r matches Ok(v) && lint_views(v@) == stable_sort(
                lint_facts(t, source.spec_bytes(), None),
                lint_view_order(),
            ),
        },
{
    if !is_relative_path(path) {
        return Err(AppError::invalid("repository-relative path", debug_quoted(path)));
    }
    let tree = match parse_rust(source) {
        Ok(t) => t,
        Err(e) => {
            return Err(e);
        },
    };
    Ok(lint_suppressions_of(source, &tree))
}

// ---------------------------------------------------------------- unsafe surface

/// A declaration whose text has the whole word `unsafe` before its keyword.
#[verifier::opaque]
pub open spec fn declares_unsafe(n: SyntaxNode, src: Seq<u8>, keyword: Seq<char>) -> bool {
    unsafe_before(text_of(n, src), keyword)
}

/// The unsafe-surface pattern of a node, if it is one.
pub open spec fn unsafe_pattern(n: SyntaxNode, src: Seq<u8>) -> Option<Seq<char>> {
    let k = n.kind@;
    if k == "unsafe_block"@ {
        Some("unsafe-block"@)
    } else if k == "function_item"@ && declares_unsafe(n, src, "fn"@) {
        Some("unsafe-function"@)
    } else if k == "trait_item"@ && declares_unsafe(n, src, "trait"@) {
        Some("unsafe-trait"@)
    } else if k == "impl_item"@ && declares_unsafe(n, src, "impl"@) {
        Some("unsafe-impl"@)
    } else if k == "foreign_mod_item"@ && declares_unsafe(n, src, "extern"@) {
        Some("unsafe-extern-block"@)
    } else {
        None
    }
}

/// The tokens that fingerprint an unsafe construct: leaves in source order, literals as
/// `LIT`, without comments.
pub open spec fn surface(n: SyntaxNode, src: Seq<u8>) -> Seq<Seq<char>>
    decreases n,
{
    if is_comment(n.kind@) {
        Seq::empty()
    } else if n.children@.len() == 0 {
        if names_literal(n.kind@) {
            seq!["LIT"@]
        } else {
            seq![text_of(n, src)]
        }
    } else {
        surface_seq(n.children@, src)
    }
}

pub open spec fn surface_seq(s: Seq<SyntaxNode>, src: Seq<u8>) -> Seq<Seq<char>>
    decreases s,
{
    if s.len() == 0 {
        Seq::empty()
    } else {
        surface_seq(s.drop_last(), src) + surface(s.last(), src)
    }
}

/// The number of line feeds in a text.
pub open spec fn newlines(t: Seq<char>) -> nat
    decreases t.len(),
{
    if t.len() == 0 {
        0
    } else {
        newlines(t.drop_last()) + if t.last() == '\n' {
            1nat
        } else {
            0nat
        }
    }
}

/// The one-based line of a node's first whole-word `unsafe`.
#[verifier::opaque]
pub open spec fn unsafe_line(n: SyntaxNode, src: Seq<u8>) -> Option<usize> {
    line_of_unsafe(text_of(n, src), n.start_row)
}

/// The unsafe constructs of a node and its named descendants, in preorder; none when an
/// unsafe construct has no `unsafe` word.
pub open spec fn unsafe_facts(n: SyntaxNode, src: Seq<u8>) -> Option<Seq<UnsafeSurfaceView>>
    decreases n,
{
    let own = match unsafe_pattern(n, src) {
        None => Some(Seq::empty()),
        Some(p) => match unsafe_line(n, src) {
            None => None,
            Some(l) => Some(
                seq![UnsafeSurfaceView { pattern_id: p, fingerprint: stream_hash(surface(n, src)), line: l }],
            ),
        },
    };
    match own {
        None => None,
        Some(a) => match unsafe_facts_seq(n.children@, src) {
            None => None,
            Some(b) => Some(a + b),
        },
    }
}

pub open spec fn unsafe_facts_seq(s: Seq<SyntaxNode>, src: Seq<u8>) -> Option<Seq<UnsafeSurfaceView>>
    decreases s,
{
    if s.len() == 0 {
        Some(Seq::empty())
    } else {
        match unsafe_facts_seq(s.drop_last(), src) {
            None => None,
            Some(a) => if !s.last().named {
                Some(a)
            } else {
                match unsafe_facts(s.last(), src) {
                    None => None,
                    Some(b) => Some(a + b),
                }
            },
        }
    }
}

/// The error for an unsafe construct without an `unsafe` word.
pub open spec fn is_unsafe_token_error(e: AppError) -> bool {
    is_invalid(e, "Rust unsafe surface"@, "missing primary unsafe token"@)
}

pub open spec fn unsafe_views(s: Seq<UnsafeSurface>) -> Seq<UnsafeSurfaceView> {
    s.map_values(|f: UnsafeSurface| f@)
}

/// Line, then pattern: the order of reported unsafe constructs.
pub open spec fn unsafe_lt(a: UnsafeSurfaceView, b: UnsafeSurfaceView) -> bool {
    a.line < b.line || (a.line == b.line && seq_lt(a.pattern_id, b.pattern_id))
}

pub open spec fn unsafe_view_order() -> spec_fn(UnsafeSurfaceView, UnsafeSurfaceView) -> bool {
    |a: UnsafeSurfaceView, b: UnsafeSurfaceView| unsafe_lt(a, b)
}

pub open spec fn unsafe_order() -> spec_fn(UnsafeSurface, UnsafeSurface) -> bool {
    |a: UnsafeSurface, b: UnsafeSurface| unsafe_lt(a@, b@)
}

fn unsafe_less(a: &UnsafeSurface, b: &UnsafeSurface) -> (r: bool)
    ensures
        r == unsafe_lt(a@, b@),
{
    a.line < b.line || (a.line == b.line && crate::text::str_lt(
        a.pattern_id.as_str(),
        b.pattern_id.as_str(),
    ))
}

fn surface_tokens(n: &SyntaxNode, src: &[u8]) -> (r: Vec<String>)
    requires
        well_formed(*n, src@),
    ensures
        string_views(r@) == surface(*n, src@),
    decreases n,
{
    if is_comment_kind(n.kind.as_str()) {
        return Vec::new();
    }
    if n.children.len() == 0 {
        let t = if is_literal_kind(n.kind.as_str()) {
            "LIT".to_owned()
        } else {
            node_text(n, src)
        };
        let r = vec![t];
        assert(string_views(r@) =~= surface(*n, src@));
        return r;
    }
    let ghost cs = n.children@;
    proof {
        lemma_all_well_formed(cs, src@);
    }
    let mut out: Vec<String> = Vec::new();
    let mut k: usize = 0;
    assert(cs.take(0) =~= Seq::<SyntaxNode>::empty());
    while k < n.children.len()
        invariant
            cs == n.children@,
            k <= cs.len(),
            forall|i: int| 0 <= i < cs.len() ==> #[trigger] well_formed(cs[i], src@),
            string_views(out@) == surface_seq(cs.take(k as int), src@),
        decreases cs.len() - k,
    {
        let mut sub = surface_tokens(&n.children[k], src);
        proof {
            assert(cs.take(k + 1).drop_last() =~= cs.take(k as int));
            assert(cs.take(k + 1).last() == cs[k as int]);
        }
        let ghost before = out@;
        let ghost more = sub@;
        out.append(&mut sub);
        assert(string_views(out@) =~= string_views(before) + string_views(more));
        k = k + 1;
    }
    assert(cs.take(cs.len() as int) =~= cs);
    out
}

/// Whether the whole word `unsafe` occurs before the first whole-word `keyword`.
pub open spec fn unsafe_before(t: Seq<char>, keyword: Seq<char>) -> bool {
    match first_word(t, keyword) {
        Some(p) => first_word(t.take(p), "unsafe"@) is Some,
        None => false,
    }
}

fn has_unsafe_before(chars: &[char], keyword: &str) -> (b: bool)
    ensures
        b == unsafe_before(chars@, keyword@),
{
    let word = chars_of(keyword);
    match find_word(chars, word.as_slice()) {
        Some(p) => {
            let before = crate::text::slice_range(chars, 0, p);
            let unsafe_word = chars_of("unsafe");
            assert(before@ =~= chars@.take(p as int));
            find_word(before.as_slice(), unsafe_word.as_slice()).is_some()
        },
        None => false,
    }
}

fn declaration_has_unsafe(n: &SyntaxNode, src: &[u8], keyword: &str) -> (b: bool)
    requires
        well_formed(*n, src@),
    ensures
        b == declares_unsafe(*n, src@, keyword@),
{
    let text = node_text(n, src);
    let chars = chars_of(text.as_str());
    let r = has_unsafe_before(chars.as_slice(), keyword);
    proof {
        reveal(declares_unsafe);
    }
    r
}

/// The one-based line of the first whole-word `unsafe` of a text that starts at `row`.
pub open spec fn line_of_unsafe(t: Seq<char>, row: usize) -> Option<usize> {
    match first_word(t, "unsafe"@) {
        Some(p) => Some(capped((row + newlines(t.take(p)) + 1) as nat)),
        None => None,
    }
}

fn find_unsafe_line(chars: &[char], row: usize) -> (r: Option<usize>)
    ensures
        r == line_of_unsafe(chars@, row),
{
    let unsafe_word = chars_of("unsafe");
    match find_word(chars, unsafe_word.as_slice()) {
        None => None,
        Some(p) => {
            let mut count: usize = 0;
            let mut i: usize = 0;
            assert(chars@.take(0) =~= Seq::<char>::empty());
            while i < p
                invariant
                    i <= p,
                    p <= chars@.len(),
                    count == newlines(chars@.take(i as int)),
                    count <= i,
                decreases p - i,
            {
                if chars[i] == '\n' {
                    count = count + 1;
                }
                proof {
                    assert(chars@.take(i + 1).drop_last() =~= chars@.take(i as int));
                    assert(chars@.take(i + 1).last() == chars@[i as int]);
                }
                i = i + 1;
            }
            Some(row.saturating_add(count).saturating_add(1))
        },
    }
}

fn unsafe_token_line(n: &SyntaxNode, src: &[u8]) -> (r: Option<usize>)
    requires
        well_formed(*n, src@),
    ensures
        r == unsafe_line(*n, src@),
{
    let text = node_text(n, src);
    let chars = chars_of(text.as_str());
    let r = find_unsafe_line(chars.as_slice(), n.start_row);
    proof {
        reveal(unsafe_line);
    }
    r
}

fn own_unsafe_fact(n: &SyntaxNode, src: &[u8]) -> (r: Option<&'static str>)
    requires
        well_formed(*n, src@),
    ensures
        match r {
            Some(p) => unsafe_pattern(*n, src@) == Some(p@),
            None => unsafe_pattern(*n, src@) is None,
        },
{
    let k = n.kind.as_str();
    if str_eq(k, "unsafe_block") {
        Some("unsafe-block")
    } else if str_eq(k, "function_item") && declaration_has_unsafe(n, src, "fn") {
        Some("unsafe-function")
    } else if str_eq(k, "trait_item") && declaration_has_unsafe(n, src, "trait") {
        Some("unsafe-trait")
    } else if str_eq(k, "impl_item") && declaration_has_unsafe(n, src, "impl") {
        Some("unsafe-impl")
    } else if str_eq(k, "foreign_mod_item") && declaration_has_unsafe(n, src, "extern") {
        Some("unsafe-extern-block")
    } else {
        None
    }
}

proof fn lemma_unsafe_none_persists(s: Seq<SyntaxNode>, k: int, src: Seq<u8>)
    requires
        0 <= k <= s.len(),
        unsafe_facts_seq(s.take(k), src) is None,
    ensures
        unsafe_facts_seq(s, src) is None,
    decreases s.len() - k,
{
    if k < s.len() {
        assert(s.take(k + 1).drop_last() =~= s.take(k));
        lemma_unsafe_none_persists(s, k + 1, src);
    } else {
        assert(s.take(k) =~= s);
    }
}

/// Appends the unsafe constructs of `n` and its named descendants.
#[verifier::loop_isolation(false)]
fn collect_unsafe_surface(n: &SyntaxNode, src: &[u8], out: &mut Vec<UnsafeSurface>) -> (r: AppResult<
    (),
>)
    requires
        well_formed(*n, src@),
    ensures
        match unsafe_facts(*n, src@) {
            Some(fs) => r is Ok && unsafe_views(final(out)@) == unsafe_views(old(out)@) + fs,
            None => r matches Err(e) && is_unsafe_token_error(e),
        },
    decreases n,
{
    let ghost own: Seq<UnsafeSurfaceView>;
    match own_unsafe_fact(n, src) {
        Some(pattern_id) => {
            let tokens = surface_tokens(n, src);
            let fingerprint = hash_stream(&tokens);
            let line = match unsafe_token_line(n, src) {
                Some(l) => l,
                None => {
                    return Err(
                        AppError::invalid(
                            "Rust unsafe surface",
                            "missing primary unsafe token".to_owned(),
                        ),
                    );
                },
            };
            let fact = UnsafeSurface { pattern_id: pattern_id.to_owned(), fingerprint, line };
            let ghost before = out@;
            out.push(fact);
            proof {
                own = seq![fact@];
                assert(unsafe_views(out@) =~= unsafe_views(before) + own);
            }
        },
        None => {
            proof {
                own = Seq::empty();
                assert(unsafe_views(out@) =~= unsafe_views(old(out)@) + own);
            }
        },
    }
    let ghost cs = n.children@;
    proof {
        lemma_all_well_formed(cs, src@);
    }
    let mut k: usize = 0;
    assert(cs.take(0) =~= Seq::<SyntaxNode>::empty());
    assert(unsafe_views(out@) =~= unsafe_views(old(out)@) + own + Seq::<UnsafeSurfaceView>::empty());
    while k < n.children.len()
        invariant
            cs == n.children@,
            k <= cs.len(),
            unsafe_facts_seq(cs.take(k as int), src@) matches Some(a) && unsafe_views(out@)
                == unsafe_views(old(out)@) + own + a,
        decreases cs.len() - k,
    {
        proof {
            assert(cs.take(k + 1).drop_last() =~= cs.take(k as int));
            assert(cs.take(k + 1).last() == cs[k as int]);
        }
        if n.children[k].named {
            match collect_unsafe_surface(&n.children[k], src, out) {
                Ok(()) => {
                    assert(unsafe_views(out@) =~= unsafe_views(old(out)@) + own + unsafe_facts_seq(
                        cs.take(k + 1),
                        src@,
                    )->0);
                },
                Err(e) => {
                    proof {
                        lemma_unsafe_none_persists(cs, k + 1, src@);
                    }
                    return Err(e);
                },
            }
        }
        k = k + 1;
    }
    assert(cs.take(cs.len() as int) =~= cs);
    Ok(())
}

/// The unsafe constructs of a source whose syntax tree is `tree`, in the order of line and
/// pattern; constructs that compare equal keep their source order.
pub fn unsafe_surface_of(source: &str, tree: &SyntaxNode) -> (r: AppResult<Vec<UnsafeSurface>>)
    requires
        well_formed(*tree, source.spec_bytes()),
    ensures
        match unsafe_facts(*tree, source.spec_bytes()) {
            Some(fs) => r matches Ok(v) && unsafe_views(v@) == stable_sort(fs, unsafe_view_order()),
            None => r matches Err(e) && is_unsafe_token_error(e),
        },
{
    let src = source.as_bytes();
    let mut facts: Vec<UnsafeSurface> = Vec::new();
    collect_unsafe_surface(tree, src, &mut facts)?;
    assert(unsafe_views(facts@) =~= unsafe_facts(*tree, src@)->0);
    let ghost unsorted = facts@;
    let sorted = insertion_sort(facts, unsafe_less, Ghost(unsafe_order()));
    proof {
        lemma_sort_map(unsorted, unsafe_order(), |f: UnsafeSurface| f@, unsafe_view_order());
    }
    Ok(sorted)
}

/// Extracts the five versioned Rust unsafe-surface syntax forms of one source file, refusing
/// a path that is not repository-relative and a source that [`parse_rust`] refuses.
pub fn unsafe_surface(path: &str, source: &str) -> (r: AppResult<Vec<UnsafeSurface>>)
    ensures
        !relative_path(path@) ==> (r matches Err(e) && is_path_error(e, path@)),
        relative_path(path@) ==> match rust_tree(source@, source.spec_bytes()) {
            None => r matches Err(e) && parse_refusal(e, source@, source.spec_bytes()),
            Some(t) => match unsafe_facts(t, source.spec_bytes()) {
                Some(fs) => r matches Ok(v) && unsafe_views(v@) == stable_sort(fs, unsafe_view_order()),
                None => r matches Err(e) && is_unsafe_token_error(e),
            },
        },
{
    if !is_relative_path(path) {
        return Err(AppError::invalid("repository-relative path", debug_quoted(path)));
    }
    let tree = match parse_rust(source) {
        Ok(t) => t,
        Err(e) => {
            return Err(e);
        },
    };
    unsafe_surface_of(source, &tree)
}

} // verus!
