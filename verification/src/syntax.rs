//! Syntax trees: what tree-sitter makes of a source text, as plain values.
//!
//! A tree is read out of tree-sitter as the list of its nodes in preorder. [`Node`] is
//! the tree that such a list describes; everything else in the library works on it.

use std::collections::HashMap;
use vstd::prelude::*;
use vstd::slice::slice_subrange;
use streaming_iterator::StreamingIterator;
use crate::text;
use crate::text::str_eq;

verus! {

broadcast use vstd::string::group_string_axioms;

/// The grammars that the library knows.
#[derive(Debug, Clone, Copy, PartialEq, Eq, Structural)]
pub enum Grammar {
    C,
    Cpp,
    JavaScript,
    Python,
    Rust,
    Go,
}

// ---------------------------------------------------------------------------
// What tree-sitter computes
// ---------------------------------------------------------------------------

/// A node of a tree of tree-sitter, without its place among the others.
#[derive(Debug)]
pub struct Record {
    /// How many nodes there are above it.
    pub depth: usize,
    pub kind: String,
    pub named: bool,
    /// The field of its parent that it stands in.
    pub label: Option<String>,
    pub start_row: u32,
    pub end_row: u32,
    pub start_byte: usize,
    pub end_byte: usize,
}

/// View of a [`Record`].
#[verifier::ext_equal]
pub struct RecordV {
    pub depth: usize,
    pub kind: Seq<char>,
    pub named: bool,
    pub label: Option<Seq<char>>,
    pub start_row: u32,
    pub end_row: u32,
    pub start_byte: usize,
    pub end_byte: usize,
}

impl View for Record {
    type V = RecordV;

    open spec fn view(&self) -> RecordV {
        RecordV {
            depth: self.depth,
            kind: self.kind@,
            named: self.named,
            label: text::opt_view(self.label),
            start_row: self.start_row,
            end_row: self.end_row,
            start_byte: self.start_byte,
            end_byte: self.end_byte,
        }
    }
}

/// A capture of a match: its name, and the position of the node in the preorder list.
#[derive(Debug)]
pub struct Capture {
    pub name: String,
    pub node: usize,
}

/// View of a [`Capture`].
#[verifier::ext_equal]
pub struct CaptureV {
    pub name: Seq<char>,
    pub node: usize,
}

impl View for Capture {
    type V = CaptureV;

    open spec fn view(&self) -> CaptureV {
        CaptureV { name: self.name@, node: self.node }
    }
}

/// The fields of a node: the name of each, and the position of the child in it.
pub type Fields = Vec<(String, usize)>;

pub open spec fn fields_view(f: Seq<(String, usize)>) -> Seq<(Seq<char>, usize)> {
    f.map_values(|p: (String, usize)| (p.0@, p.1))
}

pub open spec fn fields_views(f: Seq<Fields>) -> Seq<Seq<(Seq<char>, usize)>> {
    f.map_values(|p: Fields| fields_view(p@))
}

pub open spec fn matches_view(m: Seq<Vec<Capture>>) -> Seq<Seq<CaptureV>> {
    m.map_values(|c: Vec<Capture>| text::views(c@))
}

/// A tree of tree-sitter.
#[verifier::external_type_specification]
#[verifier::external_body]
pub struct ExTree(tree_sitter::Tree);

/// The text that a tree was parsed from.
pub uninterp spec fn tree_bytes(tree: tree_sitter::Tree) -> Seq<u8>;

/// The grammar that a tree was parsed with.
pub uninterp spec fn tree_grammar(tree: tree_sitter::Tree) -> Grammar;

/// The nodes of the tree of a text, in preorder, as `TreeCursor` walks them.
pub uninterp spec fn ts_nodes(grammar: Grammar, source: Seq<u8>) -> Seq<RecordV>;

/// For each node of the tree of a text, in preorder, what `Node::child_by_field_id` finds
/// for each field of the grammar: the name of the field and the position of the child.
pub uninterp spec fn ts_fields(grammar: Grammar, source: Seq<u8>) -> Seq<Seq<(Seq<char>, usize)>>;

/// The message with which `Query::new` refuses a pattern.
pub uninterp spec fn ts_query_error(grammar: Grammar, pattern: Seq<char>) -> Option<Seq<char>>;

/// The matches that `QueryCursor::matches` finds for a pattern in the subtree of a node.
pub uninterp spec fn ts_matches(
    grammar: Grammar,
    source: Seq<u8>,
    pattern: Seq<char>,
    scope: usize,
) -> Seq<Seq<CaptureV>>;

/// `Parser::set_language` and `Parser::parse`. The first accepts the languages of the ABI
/// versions 13 to 15, and all six grammars are of one of these; the second gives a tree
/// wherever a language is set. The names of the tree say what it was made from.
#[verifier::external_body]
pub(crate) fn parse_tree(grammar: Grammar, source: &[u8]) -> (r: Result<
    Option<tree_sitter::Tree>,
    String,
>)
    ensures
        r is Ok && r->Ok_0 is Some,
        tree_bytes(r->Ok_0->Some_0) == source@,
        tree_grammar(r->Ok_0->Some_0) == grammar,
{
    let mut parser = tree_sitter::Parser::new();
    let language: tree_sitter::Language = match grammar {
        Grammar::C => tree_sitter_c::LANGUAGE.into(),
        Grammar::Cpp => tree_sitter_cpp::LANGUAGE.into(),
        Grammar::JavaScript => tree_sitter_javascript::LANGUAGE.into(),
        Grammar::Python => tree_sitter_python::LANGUAGE.into(),
        Grammar::Rust => tree_sitter_rust::LANGUAGE.into(),
        Grammar::Go => tree_sitter_go::LANGUAGE.into(),
    };
    parser.set_language(&language).map_err(|e| e.to_string())?;
    Ok(parser.parse(source, None))
}

/// `TreeCursor::goto_descendant` for each descendant of the root, which counts as one
/// itself, and what `TreeCursor` and `Node` say of the node there. The list depends on the
/// grammar and the text alone.
#[verifier::external_body]
pub(crate) fn tree_records(tree: &tree_sitter::Tree) -> (r: Vec<Record>)
    ensures
        r@.len() > 0,
        text::views(r@) == ts_nodes(tree_grammar(*tree), tree_bytes(*tree)),
{
    let mut c = tree.walk();
    (0..tree.root_node().descendant_count()).map(|i| {
        c.goto_descendant(i);
        Record {
            depth: c.depth() as usize,
            kind: c.node().kind().to_string(),
            named: c.node().is_named(),
            label: c.field_name().map(str::to_string),
            start_row: c.node().start_position().row as u32,
            end_row: c.node().end_position().row as u32,
            start_byte: c.node().start_byte(),
            end_byte: c.node().end_byte(),
        }
    }).collect()
}

/// `Node::child_by_field_id` for each node of the tree and each field of its language. A
/// child is given by its position among the children of the node. The lists depend on the
/// grammar and the text alone.
#[verifier::external_body]
pub(crate) fn tree_fields(tree: &tree_sitter::Tree) -> (r: Vec<Fields>)
    ensures
        fields_views(r@) == ts_fields(tree_grammar(*tree), tree_bytes(*tree)),
{
    let mut c = tree.walk();
    let lang = tree.language();
    (0..tree.root_node().descendant_count()).map(|i| {
        c.goto_descendant(i);
        let n = c.node();
        let kids: Vec<_> = n.children(&mut n.walk()).collect();
        (1..=lang.field_count() as u16).filter_map(|f| {
            let child = n.child_by_field_id(f)?;
            Some((lang.field_name_for_id(f)?.to_string(), kids.iter().position(|k| *k == child)?))
        }).collect()
    }).collect()
}

/// `Query::new`: whether the grammar of the tree takes the pattern, and with what message
/// it does not. The answer depends on the grammar and the pattern alone.
#[verifier::external_body]
pub(crate) fn query_error(tree: &tree_sitter::Tree, pattern: &str) -> (r: Option<String>)
    ensures
        text::opt_view(r) == ts_query_error(tree_grammar(*tree), pattern@),
{
    tree_sitter::Query::new(&tree.language(), pattern).err().map(|e| e.to_string())
}

/// `QueryCursor::matches` for a pattern that `Query::new` takes, from the node at the
/// position `scope` on. The matches depend on the grammar, the text, the pattern and the
/// node alone, and a node that is captured is one of the tree.
#[verifier::external_body]
pub(crate) fn query_matches(
    tree: &tree_sitter::Tree,
    source: &[u8],
    pattern: &str,
    scope: usize,
) -> (r: Vec<Vec<Capture>>)
    requires
        tree_bytes(*tree) == source@,
        ts_query_error(tree_grammar(*tree), pattern@) is None,
        scope < ts_nodes(tree_grammar(*tree), source@).len(),
    ensures
        matches_view(r@) == ts_matches(tree_grammar(*tree), source@, pattern@, scope),
        forall|i: int, j: int|
            0 <= i < r@.len() && 0 <= j < r@[i]@.len() ==> (#[trigger] r@[i]@[j]).node < ts_nodes(
                tree_grammar(*tree),
                source@,
            ).len(),
{
    let query = tree_sitter::Query::new(&tree.language(), pattern).unwrap();
    let mut at = tree.walk();
    let ids: HashMap<usize, usize> = (0..tree.root_node().descendant_count()).map(|i| {
        at.goto_descendant(i);
        (at.node().id(), i)
    }).collect();
    at.goto_descendant(scope);
    let mut cursor = tree_sitter::QueryCursor::new();
    cursor.matches(&query, at.node(), source).map_deref(|m| m.captures.iter().map(|c| Capture {
        name: query.capture_names()[c.index as usize].to_string(),
        node: ids[&c.node.id()],
    }).collect()).collect()
}

/// `str::from_utf8`: the text that the bytes are the encoding of, if they are one.
#[verifier::external_body]
pub(crate) fn utf8_text(bytes: &[u8]) -> (r: Option<String>)
    ensures
        r is Some <==> vstd::utf8::valid_utf8(bytes@),
        r matches Some(s) ==> s@ == vstd::utf8::decode_utf8(bytes@),
{
    std::str::from_utf8(bytes).ok().map(str::to_string)
}

// ---------------------------------------------------------------------------
// Nodes
// ---------------------------------------------------------------------------

/// A node of a syntax tree, with everything below it.
#[derive(Debug)]
pub struct Node {
    /// The position in preorder.
    pub index: usize,
    pub kind: String,
    pub named: bool,
    /// The field of the parent that the node stands in.
    pub label: Option<String>,
    pub start_row: u32,
    pub end_row: u32,
    /// The text of the node, if it is UTF-8.
    pub text: Option<String>,
    /// The name of each field, and the position of the child in it.
    pub fields: Vec<(String, usize)>,
    pub children: Vec<Node>,
}

/// View of a [`Node`].
#[verifier::ext_equal]
pub struct NodeV {
    pub index: usize,
    pub kind: Seq<char>,
    pub named: bool,
    pub label: Option<Seq<char>>,
    pub start_row: u32,
    pub end_row: u32,
    pub text: Option<Seq<char>>,
    pub fields: Seq<(Seq<char>, usize)>,
    pub children: Seq<NodeV>,
}

pub open spec fn node_view(n: Node) -> NodeV
    decreases n,
{
    NodeV {
        index: n.index,
        kind: n.kind@,
        named: n.named,
        label: text::opt_view(n.label),
        start_row: n.start_row,
        end_row: n.end_row,
        text: text::opt_view(n.text),
        fields: fields_view(n.fields@),
        children: Seq::new(
            n.children@.len(),
            |i: int|
                if 0 <= i < n.children@.len() {
                    node_view(n.children@[i])
                } else {
                    arbitrary()
                },
        ),
    }
}

impl View for Node {
    type V = NodeV;

    open spec fn view(&self) -> NodeV {
        node_view(*self)
    }
}

/// The text of a range of bytes, if it is UTF-8.
pub open spec fn text_of(source: Seq<u8>, start: usize, end: usize) -> Option<Seq<char>> {
    if start <= end <= source.len() && vstd::utf8::valid_utf8(
        source.subrange(start as int, end as int),
    ) {
        Some(vstd::utf8::decode_utf8(source.subrange(start as int, end as int)))
    } else {
        None
    }
}

/// What a list of nodes in preorder was read from.
pub struct Listing {
    pub records: Seq<RecordV>,
    pub fields: Seq<Seq<(Seq<char>, usize)>>,
    pub source: Seq<u8>,
}

/// The nodes of a tree in preorder.
pub struct Listed<'a> {
    pub records: Vec<Record>,
    pub fields: Vec<Fields>,
    pub source: &'a [u8],
}

impl<'a> View for Listed<'a> {
    type V = Listing;

    open spec fn view(&self) -> Listing {
        Listing {
            records: text::views(self.records@),
            fields: fields_views(self.fields@),
            source: self.source@,
        }
    }
}

/// The node at position `i` of a list in preorder, with those below it: the nodes after it
/// that lie deeper, up to the first that does not.
pub open spec fn node_at(l: Listing, i: nat) -> NodeV
    decreases l.records.len() - i, 0int,
{
    let r = l.records[i as int];
    NodeV {
        index: i as usize,
        kind: r.kind,
        named: r.named,
        label: r.label,
        start_row: r.start_row,
        end_row: r.end_row,
        text: text_of(l.source, r.start_byte, r.end_byte),
        fields: if i < l.fields.len() {
            l.fields[i as int]
        } else {
            Seq::empty()
        },
        children: if i < l.records.len() {
            forest_at(l, r.depth, i + 1)
        } else {
            Seq::empty()
        },
    }
}

/// The nodes right below the depth `depth` from position `j` on, up to the first node that
/// does not lie below it.
pub open spec fn forest_at(l: Listing, depth: usize, j: nat) -> Seq<NodeV>
    decreases l.records.len() - j, 1int,
{
    if j >= l.records.len() || l.records[j as int].depth <= depth {
        Seq::empty()
    } else if l.records[j as int].depth == depth + 1 {
        seq![node_at(l, j)] + forest_at(l, depth, j + 1)
    } else {
        forest_at(l, depth, j + 1)
    }
}

/// The nodes below a node are nodes of the list.
pub proof fn lemma_forest_index(l: Listing, depth: usize, j: nat, k: int)
    requires
        l.records.len() <= usize::MAX,
        0 <= k < forest_at(l, depth, j).len(),
    ensures
        forest_at(l, depth, j)[k].index < l.records.len(),
    decreases l.records.len() - j,
{
    if l.records[j as int].depth == depth + 1 {
        assert(node_at(l, j).index == j);
        if k > 0 {
            lemma_forest_index(l, depth, j + 1, k - 1);
        }
    } else {
        lemma_forest_index(l, depth, j + 1, k);
    }
}

/// What tree-sitter says of a source text.
pub open spec fn listing(grammar: Grammar, source: Seq<u8>) -> Listing {
    Listing {
        records: ts_nodes(grammar, source),
        fields: ts_fields(grammar, source),
        source,
    }
}

/// The syntax tree of a source text.
pub open spec fn syntax_tree(grammar: Grammar, source: Seq<u8>) -> NodeV {
    node_at(listing(grammar, source), 0)
}

fn copy_fields(v: &Vec<(String, usize)>) -> (r: Vec<(String, usize)>)
    ensures
        fields_view(r@) == fields_view(v@),
{
    let mut out: Vec<(String, usize)> = Vec::new();
    let mut i: usize = 0;
    while i < v.len()
        invariant
            i <= v@.len(),
            fields_view(out@) =~= fields_view(v@).take(i as int),
        decreases v@.len() - i,
    {
        let ghost before = fields_view(out@);
        out.push((v[i].0.clone(), v[i].1));
        assert(fields_view(out@) =~= before.push(fields_view(v@)[i as int]));
        i += 1;
    }
    out
}

/// The text of a range of bytes, if it is UTF-8.
pub(crate) fn text_at(source: &[u8], start: usize, end: usize) -> (r: Option<String>)
    ensures
        text::opt_view(r) == text_of(source@, start, end),
{
    if start <= end && end <= source.len() {
        utf8_text(slice_subrange(source, start, end))
    } else {
        None
    }
}

/// The node at position `i` of a list in preorder, with those below it.
pub fn node_from(list: &Listed, i: usize) -> (r: Node)
    requires
        i < list@.records.len(),
    ensures
        r@ == node_at(list@, i as nat),
    decreases list@.records.len() - i,
{
    let ghost l = list@;
    let records: &Vec<Record> = &list.records;
    let depth: usize = records[i].depth;
    let mut children: Vec<Node> = Vec::new();
    assert(i < records.len());
    let mut j: usize = i + 1;
    assert(text::views(children@) + forest_at(l, depth, j as nat) =~= forest_at(
        l,
        depth,
        i as nat + 1,
    ));
    while j < records.len() && records[j].depth > depth
        invariant
            i < j <= records@.len(),
            l == list@,
            records@ == list.records@,
            text::views(children@) + forest_at(l, depth, j as nat) == forest_at(
                l,
                depth,
                i as nat + 1,
            ),
        decreases records@.len() - j,
    {
        let ghost rest = forest_at(l, depth, j as nat + 1);
        let ghost before = text::views(children@);
        if records[j].depth - 1 == depth {
            let child: Node = node_from(list, j);
            let ghost view = child@;
            children.push(child);
            assert(text::views(children@) =~= before.push(view));
            assert(before.push(view) + rest =~= before + (seq![view] + rest));
        }
        j += 1;
    }
    let record: &Record = &records[i];
    let node = Node {
        index: i,
        kind: record.kind.clone(),
        named: record.named,
        label: text::clone_opt(&record.label),
        start_row: record.start_row,
        end_row: record.end_row,
        text: text_at(list.source, record.start_byte, record.end_byte),
        fields: if i < list.fields.len() {
            copy_fields(&list.fields[i])
        } else {
            Vec::new()
        },
        children,
    };
    proof {
        assert(text::views(children@) + Seq::<NodeV>::empty() =~= text::views(children@));
        assert(node@.children =~= text::views(children@));
        assert(node@.fields =~= node_at(l, i as nat).fields);
    }
    node
}

/// The nodes of a tree in preorder.
pub(crate) fn list_tree<'a>(tree: &tree_sitter::Tree, source: &'a [u8]) -> (r: Listed<'a>)
    requires
        tree_bytes(*tree) == source@,
    ensures
        r@ == listing(tree_grammar(*tree), source@),
        r@.records.len() > 0,
{
    Listed { records: tree_records(tree), fields: tree_fields(tree), source }
}

/// The syntax tree of a source text.
pub fn parse_source(grammar: Grammar, source: &[u8]) -> (r: Result<Node, String>)
    ensures
        r is Ok,
        r->Ok_0@ == syntax_tree(grammar, source@),
{
    match parse_tree(grammar, source)? {
        Some(tree) => {
            let list: Listed = list_tree(&tree, source);
            Ok(node_from(&list, 0))
        },
        None => Err("failed to parse source".to_string()),
    }
}

// ---------------------------------------------------------------------------
// Reading nodes
// ---------------------------------------------------------------------------

/// The position that a list of fields gives for a name.
pub open spec fn field_position(fields: Seq<(Seq<char>, usize)>, name: Seq<char>) -> Option<usize>
    decreases fields.len(),
{
    if fields.len() == 0 {
        None
    } else if fields[0].0 == name {
        Some(fields[0].1)
    } else {
        field_position(fields.drop_first(), name)
    }
}

/// The child in the field of the given name.
pub open spec fn field_child(n: NodeV, name: Seq<char>) -> Option<NodeV> {
    match field_position(n.fields, name) {
        Some(p) => if p < n.children.len() {
            Some(n.children[p as int])
        } else {
            None
        },
        None => None,
    }
}

/// The line of a row. Rows count from 0, lines from 1.
pub open spec fn line_of(row: u32) -> usize {
    if row < usize::MAX {
        (row + 1) as usize
    } else {
        usize::MAX
    }
}

impl Record {
    /// The line that the node starts in.
    pub fn line(&self) -> (r: usize)
        ensures
            r == line_of(self@.start_row),
    {
        (self.start_row as usize).saturating_add(1)
    }

    /// The line that the node ends in.
    pub fn end_line(&self) -> (r: usize)
        ensures
            r == line_of(self@.end_row),
    {
        (self.end_row as usize).saturating_add(1)
    }
}

impl Node {
    /// The line that the node starts in.
    pub fn line(&self) -> (r: usize)
        ensures
            r == line_of(self@.start_row),
    {
        (self.start_row as usize).saturating_add(1)
    }

    /// Whether the node is of the given kind.
    pub fn is(&self, kind: &str) -> (r: bool)
        ensures
            r == (self@.kind == kind@),
    {
        str_eq(self.kind.as_str(), kind)
    }

    /// The child in the field of the given name.
    pub fn child_by_field_name(&self, name: &str) -> (r: Option<&Node>)
        ensures
            text::opt_view(r) == field_child(self@, name@),
    {
        let ghost all = self@.fields;
        let mut i: usize = 0;
        assert(all.skip(0) =~= all);
        while i < self.fields.len()
            invariant
                i <= self.fields@.len(),
                all == self@.fields,
                field_position(all, name@) == field_position(all.skip(i as int), name@),
            decreases self.fields@.len() - i,
        {
            assert(all.skip(i as int)[0] == all[i as int]);
            assert(all.skip(i as int).drop_first() =~= all.skip(i + 1));
            if str_eq(self.fields[i].0.as_str(), name) {
                let p: usize = self.fields[i].1;
                return if p < self.children.len() {
                    Some(&self.children[p])
                } else {
                    None
                };
            }
            i += 1;
        }
        None
    }
}

/// The text of a node; none, if it is not UTF-8.
pub open spec fn content(n: NodeV) -> Seq<char> {
    match n.text {
        Some(t) => t,
        None => Seq::empty(),
    }
}

/// Holds of the named nodes.
pub open spec fn is_named() -> spec_fn(NodeV) -> bool {
    |c: NodeV| c.named
}

/// The named children of a node.
pub open spec fn named(n: NodeV) -> Seq<NodeV> {
    n.children.filter(is_named())
}

/// The children of a node that stand in the field of the given name.
pub open spec fn labeled(n: NodeV, name: Seq<char>) -> Seq<NodeV> {
    n.children.filter(|c: NodeV| c.label == Some(name))
}

/// The first named child of a node.
pub open spec fn first_named(n: NodeV) -> Option<NodeV> {
    if named(n).len() > 0 {
        Some(named(n)[0])
    } else {
        None
    }
}

/// The child in a field is below the node.
pub proof fn lemma_field_child(n: NodeV, name: Seq<char>)
    ensures
        field_child(n, name) matches Some(c) ==> decreases_to!(n => c),
{
    if let Some(p) = field_position(n.fields, name) {
        if p < n.children.len() {
            assert(decreases_to!(n => n.children[p as int]));
        }
    }
}

/// The first named child is below the node.
pub proof fn lemma_first_named(n: NodeV)
    ensures
        first_named(n) matches Some(c) ==> decreases_to!(n => c),
{
    let p = is_named();
    if named(n).len() > 0 {
        assert(named(n).contains(named(n)[0]));
        n.children.lemma_filter_contains_rev(p, named(n)[0]);
        let i = n.children.index_of(named(n)[0]);
        assert(decreases_to!(n => n.children[i]));
    }
}

impl Node {
    /// The text of the node; none, if it is not UTF-8.
    pub fn content(&self) -> (r: String)
        ensures
            r@ == content(self@),
    {
        match &self.text {
            Some(t) => t.clone(),
            None => {
                let none: String = String::new();
                assert(none@ =~= Seq::empty());
                none
            },
        }
    }

    /// The named children of the node.
    pub fn named_children(&self) -> (r: Vec<&Node>)
        ensures
            text::views(r@) == named(self@),
    {
        let ghost all = self@.children;
        let ghost p = is_named();
        let mut out: Vec<&Node> = Vec::new();
        let mut i: usize = 0;
        proof {
            reveal(Seq::filter);
            assert(text::views(out@) =~= all.take(0).filter(p));
        }
        while i < self.children.len()
            invariant
                i <= self.children@.len(),
                all == self@.children,
                p == is_named(),
                text::views(out@) == all.take(i as int).filter(p),
            decreases self.children@.len() - i,
        {
            let ghost before = text::views(out@);
            proof {
                reveal(Seq::filter);
                assert(all.take(i + 1).drop_last() =~= all.take(i as int));
                assert(all.take(i + 1).last() == self.children@[i as int]@);
            }
            if self.children[i].named {
                out.push(&self.children[i]);
                assert(text::views(out@) =~= before.push(self.children@[i as int]@));
            }
            i += 1;
        }
        assert(all.take(i as int) =~= all);
        out
    }

    /// The first named child of the node.
    pub fn first_named_child(&self) -> (r: Option<&Node>)
        ensures
            text::opt_view(r) == first_named(self@),
    {
        let named: Vec<&Node> = self.named_children();
        if named.len() > 0 {
            Some(named[0])
        } else {
            None
        }
    }

    /// The children of the node that stand in the field of the given name.
    pub fn children_by_field_name(&self, name: &str) -> (r: Vec<&Node>)
        ensures
            text::views(r@) == labeled(self@, name@),
    {
        let ghost all = self@.children;
        let ghost p = |c: NodeV| c.label == Some(name@);
        let mut out: Vec<&Node> = Vec::new();
        let mut i: usize = 0;
        proof {
            reveal(Seq::filter);
            assert(text::views(out@) =~= all.take(0).filter(p));
        }
        while i < self.children.len()
            invariant
                i <= self.children@.len(),
                all == self@.children,
                p == (|c: NodeV| c.label == Some(name@)),
                text::views(out@) == all.take(i as int).filter(p),
            decreases self.children@.len() - i,
        {
            let ghost before = text::views(out@);
            proof {
                reveal(Seq::filter);
                assert(all.take(i + 1).drop_last() =~= all.take(i as int));
                assert(all.take(i + 1).last() == self.children@[i as int]@);
            }
            let matches: bool = match &self.children[i].label {
                Some(l) => str_eq(l.as_str(), name),
                None => false,
            };
            if matches {
                out.push(&self.children[i]);
                assert(text::views(out@) =~= before.push(self.children@[i as int]@));
            }
            i += 1;
        }
        assert(all.take(i as int) =~= all);
        out
    }
}

/// The first named one among the nodes that is of a kind.
pub open spec fn first_of_kind(nodes: Seq<NodeV>, kind: Seq<char>) -> Option<NodeV>
    decreases nodes.len(),
{
    if nodes.len() == 0 {
        None
    } else if nodes[0].named && nodes[0].kind == kind {
        Some(nodes[0])
    } else {
        first_of_kind(nodes.drop_first(), kind)
    }
}

impl Node {
    /// The first named child of a kind.
    pub fn first_child_of_kind(&self, kind: &str) -> (r: Option<&Node>)
        ensures
            text::opt_view(r) == first_of_kind(self@.children, kind@),
    {
        let ghost all = self@.children;
        let mut i: usize = 0;
        assert(all.skip(0) =~= all);
        while i < self.children.len()
            invariant
                i <= self.children@.len(),
                all == self@.children,
                first_of_kind(all, kind@) == first_of_kind(all.skip(i as int), kind@),
            decreases self.children@.len() - i,
        {
            assert(all.skip(i as int)[0] == self.children@[i as int]@);
            assert(all.skip(i as int).drop_first() =~= all.skip(i + 1));
            if self.children[i].named && self.children[i].is(kind) {
                return Some(&self.children[i]);
            }
            i += 1;
        }
        None
    }
}

// ---------------------------------------------------------------------------
// Trees and lists
// ---------------------------------------------------------------------------

/// Whether the node at position `j` is a child of what lies at a depth and comes before `from`: it
/// lies one deeper, and nothing from there up to it lies as high.
pub open spec fn is_child_at(l: Listing, depth: usize, from: nat, j: nat) -> bool {
    &&& from <= j < l.records.len()
    &&& l.records[j as int].depth == depth + 1
    &&& forall|k: int| from <= k < j ==> (#[trigger] l.records[k]).depth > depth
}

/// Whether nodes are those at positions of a list.
pub open spec fn are_nodes_at(l: Listing, nodes: Seq<NodeV>, at: Seq<nat>) -> bool {
    &&& nodes.len() == at.len()
    &&& forall|i: int| 0 <= i < at.len() ==> #[trigger] nodes[i] == node_at(l, at[i])
}

/// The children of a node are the nodes one deeper, from the next one up to the first that lies
/// as high as the node: all of them, in their order, and no others.
pub proof fn law_children(l: Listing, depth: usize, from: nat) -> (at: Seq<nat>)
    ensures
        are_nodes_at(l, forest_at(l, depth, from), at),
        forall|i: int, j: int| 0 <= i < j < at.len() ==> #[trigger] at[i] < #[trigger] at[j],
        forall|j: nat| #[trigger] at.contains(j) <==> is_child_at(l, depth, from, j),
    decreases l.records.len() - from,
{
    if from >= l.records.len() || l.records[from as int].depth <= depth {
        let at = Seq::<nat>::empty();
        assert forall|j: nat| #[trigger] at.contains(j) <==> is_child_at(l, depth, from, j) by {
            if is_child_at(l, depth, from, j) && from < j {
                assert(l.records[from as int].depth > depth);
            }
        }
        at
    } else {
        let rest = law_children(l, depth, from + 1);
        let own = if l.records[from as int].depth == depth + 1 {
            seq![from]
        } else {
            Seq::empty()
        };
        let at = own + rest;
        assert forall|i: int, j: int| 0 <= i < j < at.len() implies #[trigger] at[i]
            < #[trigger] at[j] by {
            if i < own.len() {
                assert(rest.contains(rest[j - own.len()]));
                assert(is_child_at(l, depth, from + 1, rest[j - own.len()]));
            } else {
                assert(rest[i - own.len()] < rest[j - own.len()]);
            }
        }
        assert forall|j: nat| #[trigger] at.contains(j) <==> is_child_at(l, depth, from, j) by {
            if at.contains(j) {
                let k = at.index_of(j);
                if k < own.len() {
                    assert(j == from);
                } else {
                    assert(rest[k - own.len()] == j);
                    assert(rest.contains(j));
                    assert(is_child_at(l, depth, from + 1, j));
                    assert forall|m: int| from <= m < j implies (#[trigger] l.records[m]).depth
                        > depth by {
                        if m > from {
                            assert(from + 1 <= m);
                        }
                    }
                }
            }
            if is_child_at(l, depth, from, j) {
                if j == from {
                    assert(at[0] == j);
                } else {
                    assert(is_child_at(l, depth, from + 1, j));
                    assert(rest.contains(j));
                    let k = rest.index_of(j);
                    assert(at[own.len() + k] == j);
                }
            }
        }
        assert forall|i: int| 0 <= i < at.len() implies #[trigger] forest_at(l, depth, from)[i]
            == node_at(l, at[i]) by {
            if i >= own.len() {
                assert(forest_at(l, depth, from + 1)[i - own.len()] == node_at(
                    l,
                    rest[i - own.len()],
                ));
            }
        }
        at
    }
}

/// A node of a tree is as the list says: its kind, its rows, its text and its fields, and below it
/// what lies deeper.
pub proof fn law_node_of_list(l: Listing, i: nat)
    requires
        i < l.records.len() <= usize::MAX,
        l.fields.len() == l.records.len(),
    ensures
        ({
            let n = node_at(l, i);
            let r = l.records[i as int];
            &&& n.index == i && n.kind == r.kind && n.named == r.named && n.label == r.label
            &&& n.start_row == r.start_row && n.end_row == r.end_row
            &&& n.text == text_of(l.source, r.start_byte, r.end_byte)
            &&& n.fields == l.fields[i as int]
            &&& n.children == forest_at(l, r.depth, i + 1)
        }),
{
}

/// The child in a field is the one that the first entry for the field gives.
pub proof fn law_field_child(n: NodeV, name: Seq<char>, i: int)
    requires
        0 <= i < n.fields.len(),
        n.fields[i].0 == name,
        forall|j: int| 0 <= j < i ==> (#[trigger] n.fields[j]).0 != name,
    ensures
        n.fields[i].1 < n.children.len() ==> field_child(n, name) == Some(
            n.children[n.fields[i].1 as int],
        ),
{
    lemma_field_position(n.fields, name, i);
}

proof fn lemma_field_position(fields: Seq<(Seq<char>, usize)>, name: Seq<char>, i: int)
    requires
        0 <= i < fields.len(),
        fields[i].0 == name,
        forall|j: int| 0 <= j < i ==> (#[trigger] fields[j]).0 != name,
    ensures
        field_position(fields, name) == Some(fields[i].1),
    decreases i,
{
    if i > 0 {
        let rest = fields.drop_first();
        assert(fields[0].0 != name);
        assert forall|j: int| 0 <= j < i - 1 implies (#[trigger] rest[j]).0 != name by {
            assert(fields[j + 1].0 != name);
        }
        assert(rest[i - 1] == fields[i]);
        lemma_field_position(rest, name, i - 1);
    }
}

/// Lines count from 1, rows from 0.
pub proof fn law_line(row: u32)
    ensures
        row < usize::MAX ==> line_of(row) == row + 1,
{
}

} // verus!
