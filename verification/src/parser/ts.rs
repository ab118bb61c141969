//! The tree-sitter calls that parsing makes, each behind a trusted item.
//!
//! A tree-sitter parse depends on the grammar and the source alone, so what
//! each node accessor returns is named over the language, the source and the
//! node's path: the child indices that lead to it from the root. Trees and
//! nodes travel in the types of this module, whose language, source and path
//! only the items here set: [`set_grammar`], [`parse_text`], [`root_of`] and
//! [`child_of`].

use vstd::prelude::*;
use crate::parser::Language;

verus! {

/// A tree-sitter parser.
#[verifier::external_type_specification]
#[verifier::external_body]
pub struct ExParser(tree_sitter::Parser);

/// A tree-sitter syntax tree.
#[verifier::external_type_specification]
#[verifier::external_body]
pub struct ExTree(tree_sitter::Tree);

/// A node of a tree-sitter syntax tree.
#[verifier::external_type_specification]
#[verifier::external_body]
pub struct ExNode<'tree>(tree_sitter::Node<'tree>);

// ─── Names for what tree-sitter computes ────────────────────────────

/// Whether tree-sitter accepts the grammar of `lang` (`Parser::set_language`).
pub uninterp spec fn grammar_accepted(lang: Language) -> bool;

/// Whether tree-sitter, with the grammar of `lang`, gives a tree for
/// `source` (`Parser::parse`).
pub uninterp spec fn parses(lang: Language, source: Seq<u8>) -> bool;

/// Grammar kind of the node at `path` (`Node::kind`).
pub uninterp spec fn node_kind(lang: Language, source: Seq<u8>, path: Seq<usize>) -> Seq<char>;

/// Number of children of the node at `path` (`Node::child_count`).
pub uninterp spec fn node_child_count(lang: Language, source: Seq<u8>, path: Seq<usize>) -> usize;

/// Whether the node at `path` has a child at index `i` (`Node::child`).
pub uninterp spec fn node_has_child(lang: Language, source: Seq<u8>, path: Seq<usize>, i: usize) -> bool;

/// Field name of the child at index `i` of the node at `path`
/// (`Node::field_name_for_child`).
pub uninterp spec fn node_field(lang: Language, source: Seq<u8>, path: Seq<usize>, i: usize) -> Option<Seq<char>>;

/// Row of the first character of the node at `path` (`Node::start_position`).
pub uninterp spec fn node_start_row(lang: Language, source: Seq<u8>, path: Seq<usize>) -> usize;

/// Row of the last character of the node at `path` (`Node::end_position`).
pub uninterp spec fn node_end_row(lang: Language, source: Seq<u8>, path: Seq<usize>) -> usize;

/// Whether the node at `path` is named (`Node::is_named`).
pub uninterp spec fn node_named(lang: Language, source: Seq<u8>, path: Seq<usize>) -> bool;

/// Whether the node at `path` is an extra (`Node::is_extra`).
pub uninterp spec fn node_extra(lang: Language, source: Seq<u8>, path: Seq<usize>) -> bool;

/// Byte offset where the node at `path` begins (`Node::start_byte`).
pub uninterp spec fn node_start_byte(lang: Language, source: Seq<u8>, path: Seq<usize>) -> usize;

/// Byte offset where the node at `path` ends (`Node::end_byte`).
pub uninterp spec fn node_end_byte(lang: Language, source: Seq<u8>, path: Seq<usize>) -> usize;

// ─── Carriers ───────────────────────────────────────────────────────

/// A parser holding the grammar of a language.
pub struct GrammarParser {
    parser: tree_sitter::Parser,
    lang: Ghost<Language>,
}

impl GrammarParser {
    /// The language whose grammar the parser holds.
    pub closed spec fn language(&self) -> Language {
        self.lang@
    }
}

/// A tree that tree-sitter parsed, with the grammar and source it came from.
pub struct ParsedTree {
    tree: tree_sitter::Tree,
    lang: Ghost<Language>,
    source: Ghost<Seq<u8>>,
}

impl ParsedTree {
    /// The language of the grammar the tree was parsed with.
    pub closed spec fn language(&self) -> Language {
        self.lang@
    }

    /// The source the tree was parsed from.
    pub closed spec fn source(&self) -> Seq<u8> {
        self.source@
    }
}

/// A node of a parsed tree, with its path from the root.
pub struct TsNode<'a> {
    node: tree_sitter::Node<'a>,
    lang: Ghost<Language>,
    source: Ghost<Seq<u8>>,
    path: Ghost<Seq<usize>>,
}

impl<'a> TsNode<'a> {
    /// The language of the tree the node belongs to.
    pub closed spec fn language(&self) -> Language {
        self.lang@
    }

    /// The source of the tree the node belongs to.
    pub closed spec fn source(&self) -> Seq<u8> {
        self.source@
    }

    /// The child indices that lead from the root to the node.
    pub closed spec fn path(&self) -> Seq<usize> {
        self.path@
    }
}

// ─── Wrappers ───────────────────────────────────────────────────────

/// `tree_sitter::Parser::new`: a parser with no grammar yet.
#[verifier::external_body]
pub fn new_parser() -> tree_sitter::Parser {
    tree_sitter::Parser::new()
}

/// `tree_sitter::Parser::set_language` with the grammar of `lang`; the parser
/// back, holding that grammar, when tree-sitter accepts it.
#[verifier::external_body]
pub fn set_grammar(p: tree_sitter::Parser, lang: Language) -> (r: Option<GrammarParser>)
    ensures
        r is Some == grammar_accepted(lang),
        r matches Some(g) ==> g.language() == lang,
{
    let mut p = p;
    let grammar: tree_sitter::Language = match lang {
        Language::Ruby => tree_sitter_ruby::LANGUAGE.into(),
        Language::Go => tree_sitter_go::LANGUAGE.into(),
        Language::TypeScript => tree_sitter_typescript::LANGUAGE_TYPESCRIPT.into(),
    };
    match p.set_language(&grammar) {
        Ok(()) => Some(GrammarParser { parser: p, lang: Ghost(lang) }),
        Err(_) => None,
    }
}

/// `tree_sitter::Parser::parse` of `source` from scratch.
#[verifier::external_body]
pub fn parse_text(p: &mut GrammarParser, source: &[u8]) -> (r: Option<ParsedTree>)
    ensures
        final(p).language() == old(p).language(),
        r is Some == parses(old(p).language(), source@),
        r matches Some(t) ==> t.language() == old(p).language() && t.source() == source@,
{
    match p.parser.parse(source, None) {
        Some(t) => Some(ParsedTree { tree: t, lang: Ghost(p.lang@), source: Ghost(source@) }),
        None => None,
    }
}

/// `tree_sitter::Tree::root_node`: the node at the empty path.
#[verifier::external_body]
pub fn root_of<'a>(t: &'a ParsedTree) -> (r: TsNode<'a>)
    ensures
        r.language() == t.language(),
        r.source() == t.source(),
        r.path() == Seq::<usize>::empty(),
{
    TsNode { node: t.tree.root_node(), lang: Ghost(t.lang@), source: Ghost(t.source@), path: Ghost(Seq::empty()) }
}

/// `tree_sitter::Node::kind`, copied into a string.
#[verifier::external_body]
pub fn kind_of(n: &TsNode) -> (r: String)
    ensures
        r@ == node_kind(n.language(), n.source(), n.path()),
{
    n.node.kind().to_string()
}

/// `tree_sitter::Node::child_count`, which is a `u32`.
#[verifier::external_body]
pub fn child_count_of(n: &TsNode) -> (r: usize)
    ensures
        r == node_child_count(n.language(), n.source(), n.path()),
        r <= u32::MAX,
{
    n.node.child_count() as usize
}

/// `tree_sitter::Node::child` at index `i`: the node at the path one step
/// further.
#[verifier::external_body]
pub fn child_of<'a>(n: &TsNode<'a>, i: usize) -> (r: Option<TsNode<'a>>)
    requires
        i <= u32::MAX,
    ensures
        r is Some == node_has_child(n.language(), n.source(), n.path(), i),
        r matches Some(c) ==> c.language() == n.language() && c.source() == n.source() && c.path() == n.path().push(i),
{
    match n.node.child(i as u32) {
        Some(c) => Some(TsNode { node: c, lang: Ghost(n.lang@), source: Ghost(n.source@), path: Ghost(n.path@.push(i)) }),
        None => None,
    }
}

/// `tree_sitter::Node::field_name_for_child` at index `i`, copied into a
/// string.
#[verifier::external_body]
pub fn field_name_of(n: &TsNode, i: usize) -> (r: Option<String>)
    requires
        i <= u32::MAX,
    ensures
        r.deep_view() == node_field(n.language(), n.source(), n.path(), i),
{
    match n.node.field_name_for_child(i as u32) {
        Some(f) => Some(f.to_string()),
        None => None,
    }
}

/// The row of `tree_sitter::Node::start_position`.
#[verifier::external_body]
pub fn start_row_of(n: &TsNode) -> (r: usize)
    ensures
        r == node_start_row(n.language(), n.source(), n.path()),
{
    n.node.start_position().row
}

/// The row of `tree_sitter::Node::end_position`.
#[verifier::external_body]
pub fn end_row_of(n: &TsNode) -> (r: usize)
    ensures
        r == node_end_row(n.language(), n.source(), n.path()),
{
    n.node.end_position().row
}

/// `tree_sitter::Node::is_named`.
#[verifier::external_body]
pub fn is_named_of(n: &TsNode) -> (r: bool)
    ensures
        r == node_named(n.language(), n.source(), n.path()),
{
    n.node.is_named()
}

/// `tree_sitter::Node::is_extra`.
#[verifier::external_body]
pub fn is_extra_of(n: &TsNode) -> (r: bool)
    ensures
        r == node_extra(n.language(), n.source(), n.path()),
{
    n.node.is_extra()
}

/// `tree_sitter::Node::start_byte`.
#[verifier::external_body]
pub fn start_byte_of(n: &TsNode) -> (r: usize)
    ensures
        r == node_start_byte(n.language(), n.source(), n.path()),
{
    n.node.start_byte()
}

/// `tree_sitter::Node::end_byte`.
#[verifier::external_body]
pub fn end_byte_of(n: &TsNode) -> (r: usize)
    ensures
        r == node_end_byte(n.language(), n.source(), n.path()),
{
    n.node.end_byte()
}

/// `std::str::from_utf8`, copied into a string: the characters that the
/// bytes encode when they are valid UTF-8, the empty string when not.
#[verifier::external_body]
pub fn utf8_or_empty(bytes: &[u8]) -> (r: String)
    ensures
        r@ == utf8_text(bytes@),
{
    match std::str::from_utf8(bytes) {
        Ok(s) => s.to_string(),
        Err(_) => String::new(),
    }
}

/// The characters that `bytes` encode in UTF-8; nothing when they are not
/// valid UTF-8.
pub open spec fn utf8_text(bytes: Seq<u8>) -> Seq<char> {
    if vstd::utf8::valid_utf8(bytes) {
        vstd::utf8::decode_utf8(bytes)
    } else {
        Seq::empty()
    }
}

} // verus!
