//! The selector language.

use ctsq::query::{parse, Atom, Combinator, NameMatch, SelectorNode, Sigil};

#[test]
fn test_bare_function() {
    let q = parse("function").unwrap();
    assert_eq!(q.head.node, SelectorNode::Bare(Atom {
        sigil: None,
        node_type: Some("function".into()),
        name_match: None,
    }));
}

#[test]
fn test_def_sigil() {
    let q = parse("*function").unwrap();
    assert!(matches!(q.head.node, SelectorNode::Bare(Atom { sigil: Some(Sigil::Def), .. })));
}

#[test]
fn test_ref_sigil() {
    let q = parse("&function").unwrap();
    assert!(matches!(q.head.node, SelectorNode::Bare(Atom { sigil: Some(Sigil::Ref), .. })));
}

#[test]
fn test_name_match_bare() {
    let q = parse("&function#sizeof").unwrap();
    let atom = match &q.head.node {
        SelectorNode::Bare(a) => a,
        _ => panic!(),
    };
    assert_eq!(atom.name_match, Some(NameMatch::Exact("sizeof".into())));
}

#[test]
fn test_group_with_capture() {
    let q = parse("(&function#sizeof @f)").unwrap();
    match &q.head.node {
        SelectorNode::Group { query, capture } => {
            assert_eq!(capture.as_deref(), Some("f"));
            let inner_atom = match &query.head.node {
                SelectorNode::Bare(a) => a,
                _ => panic!(),
            };
            assert_eq!(inner_atom.sigil, Some(Sigil::Ref));
            assert_eq!(inner_atom.name_match, Some(NameMatch::Exact("sizeof".into())));
        }
        _ => panic!("expected Group"),
    }
}

#[test]
fn test_field_access() {
    // Captures require () grouping per grammar; use explicit parens for @v
    let q = parse("(&function#malloc @f).params((var#ARRAY_SIZE @v))").unwrap();
    assert_eq!(q.head.fields.len(), 1);
    assert_eq!(q.head.fields[0].field, "params");
}

#[test]
fn test_descendant_combinator() {
    let q = parse("(*function#main @def).body((&function#malloc @call))").unwrap();
    assert!(q.tail.is_empty()); // all encoded in field access
    assert_eq!(q.head.fields[0].field, "body");
}

#[test]
fn test_passthrough() {
    let q = parse("arrow_function").unwrap();
    let atom = match &q.head.node {
        SelectorNode::Bare(a) => a,
        _ => panic!(),
    };
    assert_eq!(atom.node_type.as_deref(), Some("arrow_function"));
    assert_eq!(atom.sigil, None);
}

#[test]
fn test_regex_match() {
    let q = parse("(&function#/GFILE|gfile|GFile/ @f)").unwrap();
    let inner = match &q.head.node {
        SelectorNode::Group { query, .. } => query,
        _ => panic!(),
    };
    let atom = match &inner.head.node {
        SelectorNode::Bare(a) => a,
        _ => panic!(),
    };
    assert_eq!(atom.name_match, Some(NameMatch::Regex("GFILE|gfile|GFile".into())));
}

#[test]
fn whole_queries_are_read_back() {
    let text = "(*function#\"main\" @def).body((&function#/m|c/ @call)).params() a>b+#\"x y\"~((c) d)";
    let q = parse(text).unwrap();
    assert_eq!(q.head.fields.len(), 2);
    assert_eq!(q.head.fields[0].field, "body");
    assert!(q.head.fields[1].inner.is_none());
    let combinators: Vec<_> = q.tail.iter().map(|(c, _)| *c).collect();
    assert_eq!(
        combinators,
        vec![
            Combinator::Descendant,
            Combinator::Child,
            Combinator::Adjacent,
            Combinator::Sibling,
        ]
    );
    match &q.tail[3].1.node {
        SelectorNode::Group { query, capture } => {
            assert_eq!(capture, &None);
            assert_eq!(query.tail.len(), 1);
            assert!(matches!(query.head.node, SelectorNode::Group { .. }));
        }
        _ => panic!(),
    }
}
