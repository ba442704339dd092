//! Rust syntax trees from Tree-sitter, held as plain values.
use vstd::prelude::*;
use tree_sitter::{Node, Parser};
use crate::encoding::utf8_text;
use crate::text::str_eq;
use crate::error::{is_invalid, AppError, AppResult};
use vstd::string::StringSliceAdditionalSpecFns;
use vstd::utf8::{decode_utf8, valid_utf8};

verus! {

#[verifier::external_type_specification]
#[verifier::external_body]
pub struct ExNode<'tree>(Node<'tree>);

/// One node of a syntax tree over a source text, with its children in source order.
pub struct SyntaxNode {
    /// The grammar's name for the node's kind; for punctuation and keywords, their text.
    pub kind: String,
    /// Whether the grammar names the node, as opposed to punctuation and keywords.
    pub named: bool,
    /// The field under which the parent holds the node.
    pub field: Option<String>,
    /// Byte range of the node in the UTF-8 source, end exclusive.
    pub start_byte: usize,
    pub end_byte: usize,
    /// Zero-based rows of the node's start and end.
    pub start_row: usize,
    pub end_row: usize,
    /// Whether the node is an `ERROR` node.
    pub error: bool,
    /// Whether the parser inserted the node as missing.
    pub missing: bool,
    pub children: Vec<SyntaxNode>,
}

/// Every node's byte range lies within `src` and holds whole UTF-8 characters, and every
/// row fits a one-based line number.
pub open spec fn well_formed(n: SyntaxNode, src: Seq<u8>) -> bool
    decreases n,
{
    &&& n.start_byte <= n.end_byte <= src.len()
    &&& valid_utf8(src.subrange(n.start_byte as int, n.end_byte as int))
    &&& n.start_row < usize::MAX
    &&& n.end_row < usize::MAX
    &&& all_well_formed(n.children@, src)
}

/// Every node of the sequence is well formed.
pub open spec fn all_well_formed(s: Seq<SyntaxNode>, src: Seq<u8>) -> bool
    decreases s,
{
    if s.len() == 0 {
        true
    } else {
        all_well_formed(s.drop_last(), src) && well_formed(s.last(), src)
    }
}

/// A sequence of nodes is well formed exactly when each of its nodes is.
pub proof fn lemma_all_well_formed(s: Seq<SyntaxNode>, src: Seq<u8>)
    ensures
        all_well_formed(s, src) <==> forall|i: int| 0 <= i < s.len() ==> #[trigger] well_formed(s[i], src),
    decreases s.len(),
{
    if s.len() > 0 {
        lemma_all_well_formed(s.drop_last(), src);
        assert forall|i: int| 0 <= i < s.len() - 1 implies #[trigger] s.drop_last()[i] == s[i] by {}
        if forall|i: int| 0 <= i < s.len() ==> #[trigger] well_formed(s[i], src) {
            assert forall|i: int| 0 <= i < s.len() - 1 implies #[trigger] well_formed(s.drop_last()[i], src) by {
                assert(well_formed(s[i], src));
            }
            assert(well_formed(s[s.len() - 1], src));
        }
        if all_well_formed(s, src) {
            assert forall|i: int| 0 <= i < s.len() implies #[trigger] well_formed(s[i], src) by {
                if i < s.len() - 1 {
                    assert(well_formed(s.drop_last()[i], src));
                }
            }
        }
    }
}

/// The text of a node.
pub open spec fn text_of(n: SyntaxNode, src: Seq<u8>) -> Seq<char> {
    decode_utf8(src.subrange(n.start_byte as int, n.end_byte as int))
}

/// The text of a well-formed node.
pub fn node_text(n: &SyntaxNode, src: &[u8]) -> (t: String)
    requires
        n.start_byte <= n.end_byte <= src@.len(),
        valid_utf8(src@.subrange(n.start_byte as int, n.end_byte as int)),
    ensures
        t@ == text_of(*n, src@),
{
    let bytes = slice_bytes(src, n.start_byte, n.end_byte);
    match utf8_text(bytes.as_slice()) {
        Ok(t) => t,
        Err(_) => {
            proof {
                assert(false);
            }
            String::new()
        },
    }
}

pub fn slice_bytes(src: &[u8], a: usize, b: usize) -> (r: Vec<u8>)
    requires
        a <= b <= src@.len(),
    ensures
        r@ == src@.subrange(a as int, b as int),
{
    let mut r: Vec<u8> = Vec::new();
    let mut i = a;
    while i < b
        invariant
            a <= i <= b,
            b <= src@.len(),
            r@ == src@.subrange(a as int, i as int),
        decreases b - i,
    {
        r.push(src[i]);
        i = i + 1;
        assert(r@ =~= src@.subrange(a as int, i as int));
    }
    r
}

/// The kinds of the nodes that hold macro token trees: `macro_rules!` definitions and macro
/// invocations.
pub open spec fn is_macro_kind(kind: Seq<char>) -> bool {
    kind == "macro_definition"@ || kind == "macro_invocation"@
}

/// Every error or missing node of `n` lies inside a macro definition or invocation; `in_macro`
/// says whether `n` itself does.
pub open spec fn errors_in_macros(n: SyntaxNode, in_macro: bool) -> bool
    decreases n, 1int,
{
    &&& (n.error || n.missing ==> in_macro)
    &&& errors_in_macros_seq(n.children@, in_macro || is_macro_kind(n.kind@))
}

/// Every node of the sequence passes [`errors_in_macros`].
pub open spec fn errors_in_macros_seq(s: Seq<SyntaxNode>, in_macro: bool) -> bool
    decreases s, 0int,
{
    if s.len() == 0 {
        true
    } else {
        errors_in_macros_seq(s.drop_last(), in_macro) && errors_in_macros(s.last(), in_macro)
    }
}

/// The syntax tree that Tree-sitter's Rust grammar gives a source text, or the text of the
/// error with which the parser could not be set up or produced no tree.
pub uninterp spec fn rust_syntax(source: Seq<char>) -> Result<SyntaxNode, Seq<char>>;

/// A Tree-sitter node and its subtree as plain values: `Node::kind`, `Node::is_named`,
/// `Node::start_byte`, `Node::end_byte`, the rows of `Node::start_position` and
/// `Node::end_position`, `Node::is_error`, `Node::is_missing`, and the nodes of
/// `Node::children`, each under its `Node::field_name_for_child`.
#[verifier::external_body]
fn syntax_node_of(node: &Node, field: Option<String>) -> (n: SyntaxNode) {
    let mut cursor = node.walk();
    SyntaxNode {
        kind: node.kind().to_string(),
        named: node.is_named(),
        field,
        start_byte: node.start_byte(),
        end_byte: node.end_byte(),
        start_row: node.start_position().row,
        end_row: node.end_position().row,
        error: node.is_error(),
        missing: node.is_missing(),
        children: node.children(&mut cursor).enumerate().map(|(i, c)| syntax_node_of(&c, node.field_name_for_child(i as u32).map(str::to_string))).collect(),
    }
}

/// `Parser::parse` of the whole text, with the Rust grammar set by `Parser::set_language`, no
/// earlier tree and no progress callback, read into plain values by [`syntax_node_of`]. The
/// tree is a function of the text alone; an error is the grammar's `LanguageError` as it
/// displays, or a fixed text when `parse` yields no tree.
#[verifier::external_body]
fn parse_syntax(source: &str) -> (r: Result<SyntaxNode, String>)
    ensures
        match r {
            Ok(n) => rust_syntax(source@) == Ok::<SyntaxNode, Seq<char>>(n),
            Err(m) => rust_syntax(source@) == Err::<SyntaxNode, Seq<char>>(m@),
        },
{
    let mut parser = Parser::new();
    parser.set_language(&tree_sitter_rust::LANGUAGE.into()).map_err(|error| error.to_string())?;
    let tree = parser.parse(source, None).ok_or_else(|| "did not produce a syntax tree".to_string())?;
    Ok(syntax_node_of(&tree.root_node(), None))
}

/// The error for a node whose range is not whole UTF-8 text of the source.
pub open spec fn is_range_error(e: AppError) -> bool {
    e matches AppError::Utf8 { subject: s, .. } && s@ == "Tree-sitter node range"@
}

/// Whether every error or missing node of `n` lies inside a macro definition or invocation.
fn errors_tolerated(n: &SyntaxNode, in_macro: bool) -> (b: bool)
    ensures
        b == errors_in_macros(*n, in_macro),
    decreases n,
{
    if (n.error || n.missing) && !in_macro {
        return false;
    }
    let inner = in_macro || str_eq(n.kind.as_str(), "macro_definition") || str_eq(
        n.kind.as_str(),
        "macro_invocation",
    );
    proof {
        reveal_strlit("macro_definition");
        reveal_strlit("macro_invocation");
    }
    let ghost cs = n.children@;
    let mut k: usize = 0;
    assert(cs.take(0) =~= Seq::<SyntaxNode>::empty());
    while k < n.children.len()
        invariant
            cs == n.children@,
            k <= cs.len(),
            errors_in_macros_seq(cs.take(k as int), inner),
            inner == (in_macro || is_macro_kind(n.kind@)),
            !(n.error || n.missing) || in_macro,
        decreases cs.len() - k,
    {
        let ok = errors_tolerated(&n.children[k], inner);
        proof {
            assert(cs.take(k + 1).drop_last() =~= cs.take(k as int));
            assert(cs.take(k + 1).last() == cs[k as int]);
        }
        if !ok {
            proof {
                if errors_in_macros_seq(cs, inner) {
                    lemma_errors_prefix(cs, (k + 1) as int, inner);
                }
            }
            return false;
        }
        k = k + 1;
    }
    assert(cs.take(cs.len() as int) =~= cs);
    true
}

/// A sequence passes [`errors_in_macros_seq`] only if each of its prefixes does.
proof fn lemma_errors_prefix(s: Seq<SyntaxNode>, k: int, in_macro: bool)
    requires
        0 <= k <= s.len(),
        errors_in_macros_seq(s, in_macro),
    ensures
        errors_in_macros_seq(s.take(k), in_macro),
    decreases s.len(),
{
    if k < s.len() {
        assert(s.drop_last().take(k) =~= s.take(k));
        lemma_errors_prefix(s.drop_last(), k, in_macro);
    } else {
        assert(s.take(k) =~= s);
    }
}

/// Whether every node of `n` has a range that lies within `src` and holds whole UTF-8 text,
/// and rows that fit one-based line numbers; the error names the first node, in preorder,
/// that does not.
fn check_ranges(n: &SyntaxNode, src: &[u8]) -> (r: AppResult<()>)
    ensures
        r is Ok <==> well_formed(*n, src@),
        r matches Err(e) ==> is_range_error(e),
    decreases n,
{
    if !(n.start_byte <= n.end_byte && n.end_byte <= src.len()) || n.start_row == usize::MAX
        || n.end_row == usize::MAX {
        return Err(
            AppError::Utf8 {
                subject: "Tree-sitter node range",
                detail: "lies outside the source".to_owned(),
            },
        );
    }
    let text = slice_bytes(src, n.start_byte, n.end_byte);
    match utf8_text(text.as_slice()) {
        Ok(_) => {},
        Err(detail) => {
            return Err(AppError::Utf8 { subject: "Tree-sitter node range", detail });
        },
    }
    let ghost cs = n.children@;
    let mut k: usize = 0;
    assert(cs.take(0) =~= Seq::<SyntaxNode>::empty());
    while k < n.children.len()
        invariant
            cs == n.children@,
            k <= cs.len(),
            all_well_formed(cs.take(k as int), src@),
        decreases cs.len() - k,
    {
        let r = check_ranges(&n.children[k], src);
        proof {
            assert(cs.take(k + 1).drop_last() =~= cs.take(k as int));
            assert(cs.take(k + 1).last() == cs[k as int]);
        }
        if let Err(e) = r {
            proof {
                lemma_all_well_formed(cs, src@);
            }
            return Err(e);
        }
        k = k + 1;
    }
    assert(cs.take(cs.len() as int) =~= cs);
    Ok(())
}

/// The rows of `n` run forward: it starts no later than it ends, and its children lie within
/// its rows, each ending no later than the next one starts.
pub open spec fn rows_nested(n: SyntaxNode) -> bool
    decreases n, 1int,
{
    n.start_row <= n.end_row && rows_between(n.children@, n.start_row, n.end_row)
}

/// Each node of `s` has rows that run forward and lie within rows `lo` to `hi`, and ends no
/// later than the next node starts.
pub open spec fn rows_between(s: Seq<SyntaxNode>, lo: usize, hi: usize) -> bool
    decreases s, 0int,
{
    if s.len() == 0 {
        true
    } else {
        &&& rows_between(s.drop_last(), lo, s.last().start_row)
        &&& lo <= s.last().start_row
        &&& s.last().end_row <= hi
        &&& rows_nested(s.last())
    }
}

/// Whether the rows of `n` run forward, as [`rows_nested`] says.
fn check_rows(n: &SyntaxNode) -> (b: bool)
    ensures
        b == rows_nested(*n),
    decreases n,
{
    if n.start_row > n.end_row {
        return false;
    }
    let ghost cs = n.children@;
    let mut k: usize = n.children.len();
    let mut hi: usize = n.end_row;
    assert(cs.take(k as int) =~= cs);
    while k > 0
        invariant
            cs == n.children@,
            k <= cs.len(),
            n.start_row <= n.end_row,
            rows_nested(*n) == rows_between(cs.take(k as int), n.start_row, hi),
        decreases k,
    {
        let c = &n.children[k - 1];
        proof {
            assert(cs.take(k as int).drop_last() =~= cs.take(k - 1));
            assert(cs.take(k as int).last() == cs[k - 1]);
        }
        if !(n.start_row <= c.start_row && c.end_row <= hi && check_rows(c)) {
            return false;
        }
        hi = c.start_row;
        k = k - 1;
    }
    true
}

/// The tree of a source that Tree-sitter parses, whose errors all lie inside macros, whose
/// every node is a whole UTF-8 range of the source, and whose rows run forward; `None` for any
/// other source.
pub open spec fn rust_tree(source: Seq<char>, bytes: Seq<u8>) -> Option<SyntaxNode> {
    match rust_syntax(source) {
        Ok(t) => if errors_in_macros(t, false) && well_formed(t, bytes) && rows_nested(t) {
            Some(t)
        } else {
            None
        },
        Err(_) => None,
    }
}

/// The error with which a source that has no [`rust_tree`] is refused: the parser's own
/// error, then errors outside macros, then node ranges and rows.
pub open spec fn parse_refusal(e: AppError, source: Seq<char>, bytes: Seq<u8>) -> bool {
    match rust_syntax(source) {
        Err(m) => is_invalid(e, "Rust parser"@, m),
        Ok(t) => if !errors_in_macros(t, false) {
            is_invalid(e, "Rust source"@, "contains syntax errors"@)
        } else {
            is_range_error(e)
        },
    }
}

/// Parses Rust source into a syntax tree. Errors that Tree-sitter reports inside macro
/// definitions and invocations are tolerated, since their token trees need not follow the
/// grammar; any other error or missing node refuses the source, as does a node whose range
/// is not whole UTF-8 text of the source or whose rows do not lie in order within its parent.
pub fn parse_rust(source: &str) -> (r: AppResult<SyntaxNode>)
    ensures
        match rust_tree(source@, source.spec_bytes()) {
            Some(t) => r matches Ok(n) && n == t,
            None => r matches Err(e) && parse_refusal(e, source@, source.spec_bytes()),
        },
{
    let tree = match parse_syntax(source) {
        Ok(t) => t,
        Err(detail) => {
            return Err(AppError::invalid("Rust parser", detail));
        },
    };
    if !errors_tolerated(&tree, false) {
        return Err(AppError::invalid("Rust source", "contains syntax errors".to_owned()));
    }
    check_ranges(&tree, source.as_bytes())?;
    if !check_rows(&tree) {
        return Err(
            AppError::Utf8 {
                subject: "Tree-sitter node range",
                detail: "has rows out of order".to_owned(),
            },
        );
    }
    Ok(tree)
}

} // verus!
