//! The syntax tree of a query, and its mathematical view.

use vstd::prelude::*;
use crate::text;

verus! {

#[derive(Debug, Clone, Copy, PartialEq, Eq, Structural)]
pub enum Sigil {
    /// `*`
    Def,
    /// `&`
    Ref,
}

#[derive(Debug, PartialEq)]
pub enum NameMatch {
    /// `#word` or `#"text"`
    Exact(String),
    /// `#/regex/`
    Regex(String),
}

impl Clone for NameMatch {
    fn clone(&self) -> (r: Self)
        ensures
            r@ == self@,
    {
        match self {
            NameMatch::Exact(s) => NameMatch::Exact(s.clone()),
            NameMatch::Regex(s) => NameMatch::Regex(s.clone()),
        }
    }
}

#[derive(Debug, PartialEq)]
pub struct Atom {
    pub sigil: Option<Sigil>,
    pub node_type: Option<String>,
    pub name_match: Option<NameMatch>,
}

#[derive(Debug, PartialEq)]
pub struct FieldAccess {
    pub field: String,
    pub inner: Option<Box<Query>>,
}

#[derive(Debug, PartialEq)]
pub enum SelectorNode {
    Bare(Atom),
    Group { query: Box<Query>, capture: Option<String> },
}

#[derive(Debug, PartialEq)]
pub struct Selector {
    pub node: SelectorNode,
    pub fields: Vec<FieldAccess>,
}

#[derive(Debug, Clone, Copy, PartialEq, Eq, Structural)]
pub enum Combinator {
    /// white space
    Descendant,
    /// `>`
    Child,
    /// `+`
    Adjacent,
    /// `~`
    Sibling,
}

#[derive(Debug, PartialEq)]
pub struct Query {
    pub head: Selector,
    pub tail: Vec<(Combinator, Selector)>,
}

/// View of a [`NameMatch`].
#[verifier::ext_equal]
pub enum NameMatchV {
    Exact(Seq<char>),
    Regex(Seq<char>),
}

/// View of an [`Atom`].
#[verifier::ext_equal]
pub struct AtomV {
    pub sigil: Option<Sigil>,
    pub node_type: Option<Seq<char>>,
    pub name_match: Option<NameMatchV>,
}

/// View of a [`FieldAccess`].
#[verifier::ext_equal]
pub struct FieldAccessV {
    pub field: Seq<char>,
    pub inner: Option<Box<QueryV>>,
}

/// View of a [`SelectorNode`].
#[verifier::ext_equal]
pub enum SelectorNodeV {
    Bare(AtomV),
    Group { query: Box<QueryV>, capture: Option<Seq<char>> },
}

/// View of a [`Selector`].
#[verifier::ext_equal]
pub struct SelectorV {
    pub node: SelectorNodeV,
    pub fields: Seq<FieldAccessV>,
}

/// View of a [`Query`].
#[verifier::ext_equal]
pub struct QueryV {
    pub head: SelectorV,
    pub tail: Seq<(Combinator, SelectorV)>,
}

impl View for NameMatch {
    type V = NameMatchV;

    open spec fn view(&self) -> NameMatchV {
        match *self {
            NameMatch::Exact(s) => NameMatchV::Exact(s@),
            NameMatch::Regex(s) => NameMatchV::Regex(s@),
        }
    }
}

impl View for Atom {
    type V = AtomV;

    open spec fn view(&self) -> AtomV {
        AtomV {
            sigil: self.sigil,
            node_type: text::opt_view(self.node_type),
            name_match: text::opt_view(self.name_match),
        }
    }
}

pub open spec fn field_access_view(f: FieldAccess) -> FieldAccessV
    decreases f,
{
    FieldAccessV {
        field: f.field@,
        inner: match f.inner {
            Some(q) => Some(Box::new(query_view(*q))),
            None => None,
        },
    }
}

pub open spec fn selector_node_view(n: SelectorNode) -> SelectorNodeV
    decreases n,
{
    match n {
        SelectorNode::Bare(a) => SelectorNodeV::Bare(a@),
        SelectorNode::Group { query, capture } => SelectorNodeV::Group {
            query: Box::new(query_view(*query)),
            capture: text::opt_view(capture),
        },
    }
}

pub open spec fn selector_view(s: Selector) -> SelectorV
    decreases s,
{
    SelectorV {
        node: selector_node_view(s.node),
        fields: Seq::new(
            s.fields@.len(),
            |i: int|
                if 0 <= i < s.fields@.len() {
                    field_access_view(s.fields@[i])
                } else {
                    arbitrary()
                },
        ),
    }
}

pub open spec fn query_view(q: Query) -> QueryV
    decreases q,
{
    QueryV {
        head: selector_view(q.head),
        tail: Seq::new(
            q.tail@.len(),
            |i: int|
                if 0 <= i < q.tail@.len() {
                    (q.tail@[i].0, selector_view(q.tail@[i].1))
                } else {
                    arbitrary()
                },
        ),
    }
}

impl View for FieldAccess {
    type V = FieldAccessV;

    open spec fn view(&self) -> FieldAccessV {
        field_access_view(*self)
    }
}

impl View for SelectorNode {
    type V = SelectorNodeV;

    open spec fn view(&self) -> SelectorNodeV {
        selector_node_view(*self)
    }
}

impl View for Selector {
    type V = SelectorV;

    open spec fn view(&self) -> SelectorV {
        selector_view(*self)
    }
}

impl View for Query {
    type V = QueryV;

    open spec fn view(&self) -> QueryV {
        query_view(*self)
    }
}

} // verus!
