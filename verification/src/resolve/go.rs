//! Go resolver: definition indexing, file scope model, and call resolution.
//!
//! Resolution is heuristic, not full type inference. Call returns are
//! followed through indexed return types (`x := makeServer(); x.Run()`, and
//! `x, err := f()` binds the first result), falling back to the `NewType()`
//! naming convention. Interface dispatch goes by method sets: a call through an
//! interface-typed receiver expands to one edge per project type whose
//! method set covers the interface. Out of scope (calls fall back to ranked
//! name matching): embedded interfaces/structs, struct-field receivers
//! (`s.client.Do()` is an opaque receiver), and plain reassignment
//! (`x = ...` after the declaration).
//!
//! Go-specific shape: `pkg.Fn()` and `x.Method()` are the same syntax
//! (`selector_expression`), so call sites are classified as `Method` with a
//! `Var` receiver and disambiguated at resolve time — local bindings and
//! params first (they shadow package names), then the import map.

use vstd::prelude::*;
use crate::order;
use crate::path;
use crate::path::{dir_names, same_parent};
use crate::resolve;
use crate::resolve::{
    CallV, Callee, CalleeV, Confidence, Def, DefId, DefIdV, DefIndex, DefKind, DefKindV, DefV,
    IndexV, Receiver, ReceiverV, ResolvedCall, Resolver, find_at, find_in_file, grade, push_site,
    sort_by_place,
};
use crate::resolve::rust::{name_of, push_def};
use crate::resolve::scope;
use crate::resolve::scope::{
    Binding, BindingV, FileScope, FnScope, FnScopeV, NameMap, Reach, ScopeV, last_binding,
    methods_of, one, param_type, rank, select, signatures_of,
};
use crate::syntax;
use crate::syntax::{Grammar, Node, NodeV, parse_source};
use crate::text;
use crate::text::{
    clone_strings, is_capitalized, push_string, split, str_eq, strip_prefix, trim_char,
};

verus! {

broadcast use vstd::string::group_string_axioms;

// ── Definition indexing ───────────────────────────────────────────────────────

/// The base name of a type: pointers, type arguments and packages are stripped.
pub open spec fn base_type_spec(n: NodeV) -> Option<Seq<char>>
    decreases n,
{
    proof {
        syntax::lemma_first_named(n);
        syntax::lemma_field_child(n, "type"@);
    }
    if n.kind == "type_identifier"@ {
        Some(syntax::content(n))
    } else if n.kind == "pointer_type"@ {
        match syntax::first_named(n) {
            Some(t) => base_type_spec(t),
            None => None,
        }
    } else if n.kind == "generic_type"@ {
        match syntax::field_child(n, "type"@) {
            Some(t) => base_type_spec(t),
            None => None,
        }
    } else if n.kind == "qualified_type"@ {
        match syntax::field_child(n, "name"@) {
            Some(m) => Some(syntax::content(m)),
            None => None,
        }
    } else {
        None
    }
}

/// The base name of the type in a field.
pub open spec fn field_type(n: NodeV, field: Seq<char>) -> Option<Seq<char>> {
    match syntax::field_child(n, field) {
        Some(t) => base_type_spec(t),
        None => None,
    }
}

/// The base name of the type of the first parameter in a list.
pub open spec fn first_param_type(list: NodeV) -> Option<Seq<char>> {
    match syntax::first_of_kind(list.children, "parameter_declaration"@) {
        Some(p) => field_type(p, "type"@),
        None => None,
    }
}

/// The receiver type of a method: `(s *Server)` and `(s *Server[T])` give `Server`.
pub open spec fn receiver_type_spec(n: NodeV) -> Option<Seq<char>> {
    match syntax::field_child(n, "receiver"@) {
        Some(recv) => first_param_type(recv),
        None => None,
    }
}

/// The first return type of a function or method.
pub open spec fn return_type_spec(n: NodeV) -> Option<Seq<char>> {
    match syntax::field_child(n, "result"@) {
        Some(result) => if result.kind == "parameter_list"@ {
            first_param_type(result)
        } else {
            base_type_spec(result)
        },
        None => None,
    }
}

/// The text of the node in the field `name`.
pub open spec fn name_field(n: NodeV) -> Option<Seq<char>> {
    match syntax::field_child(n, "name"@) {
        Some(m) => Some(syntax::content(m)),
        None => None,
    }
}

/// The signatures of an interface among the elements of its body.
pub open spec fn signatures(
    elems: Seq<NodeV>,
    iface: Seq<char>,
    file: Seq<char>,
    pkg: Seq<Seq<char>>,
) -> Seq<DefV>
    decreases elems.len(),
{
    if elems.len() == 0 {
        Seq::empty()
    } else {
        let init = signatures(elems.drop_last(), iface, file, pkg);
        let elem = elems.last();
        match name_field(elem) {
            Some(name) => if elem.named && elem.kind == "method_elem"@ {
                init.push(
                    DefV {
                        name,
                        qualified: pkg.push(iface).push(name),
                        kind: DefKindV::InterfaceMethod { interface: iface },
                        ret: return_type_spec(elem),
                        id: DefIdV { file, line: syntax::line_of(elem.start_row) },
                    },
                )
            } else {
                init
            },
            None => init,
        }
    }
}

/// The signatures of the interfaces among the specs of a type declaration.
pub open spec fn interface_defs(
    specs: Seq<NodeV>,
    file: Seq<char>,
    pkg: Seq<Seq<char>>,
) -> Seq<DefV>
    decreases specs.len(),
{
    if specs.len() == 0 {
        Seq::empty()
    } else {
        let init = interface_defs(specs.drop_last(), file, pkg);
        let spec_node = specs.last();
        match (name_field(spec_node), syntax::field_child(spec_node, "type"@)) {
            (Some(iface), Some(body)) => if spec_node.named && spec_node.kind == "type_spec"@
                && body.kind == "interface_type"@ {
                init + signatures(body.children, iface, file, pkg)
            } else {
                init
            },
            _ => init,
        }
    }
}

/// The definitions in a declaration.
pub open spec fn defs_of(n: NodeV, file: Seq<char>, pkg: Seq<Seq<char>>) -> Seq<DefV> {
    let id = DefIdV { file, line: syntax::line_of(n.start_row) };
    if n.kind == "function_declaration"@ {
        match name_field(n) {
            Some(name) => seq![
                DefV {
                    name,
                    qualified: pkg.push(name),
                    kind: DefKindV::Function,
                    ret: return_type_spec(n),
                    id,
                },
            ],
            None => Seq::empty(),
        }
    } else if n.kind == "method_declaration"@ {
        match (name_field(n), receiver_type_spec(n)) {
            (Some(name), Some(recv)) => seq![
                DefV {
                    name,
                    qualified: pkg.push(recv).push(name),
                    kind: DefKindV::Method { receiver: recv, via_trait: None },
                    ret: return_type_spec(n),
                    id,
                },
            ],
            _ => Seq::empty(),
        }
    } else if n.kind == "type_declaration"@ {
        interface_defs(n.children, file, pkg)
    } else {
        Seq::empty()
    }
}

/// The definitions in a list of declarations.
pub open spec fn defs_below(nodes: Seq<NodeV>, file: Seq<char>, pkg: Seq<Seq<char>>) -> Seq<DefV>
    decreases nodes.len(),
{
    if nodes.len() == 0 {
        Seq::empty()
    } else {
        defs_below(nodes.drop_last(), file, pkg) + defs_of(nodes.last(), file, pkg)
    }
}

/// The definitions in a syntax tree. The package path is that of the file's directory.
pub open spec fn tree_defs(root: NodeV, file: Seq<char>) -> Seq<DefV> {
    defs_below(root.children, file, path::dir_names_spec(file))
}

/// Package path implied by the file's location: its directory components.
/// Import paths are matched against this by suffix overlap, so leading
/// components outside the module root are harmless. Heuristic — no go.mod
/// awareness.
pub fn file_package_path(file: &str) -> (r: Vec<String>)
    ensures
        text::views(r@) == path::dir_names_spec(file@),
{
    dir_names(file)
}

/// Strip pointers and type arguments down to the base type name:
/// `*Server[T]` → `Server`, `pkg.Foo` → `Foo`.
fn base_type(node: &Node) -> (r: Option<String>)
    ensures
        text::opt_view(r) == base_type_spec(node@),
    decreases node@,
{
    proof {
        syntax::lemma_first_named(node@);
        syntax::lemma_field_child(node@, "type"@);
    }
    if node.is("type_identifier") {
        Some(node.content())
    } else if node.is("pointer_type") {
        match node.first_named_child() {
            Some(t) => base_type(t),
            None => None,
        }
    } else if node.is("generic_type") {
        match node.child_by_field_name("type") {
            Some(t) => base_type(t),
            None => None,
        }
    } else if node.is("qualified_type") {
        name_of(node)
    } else {
        None
    }
}

/// The base name of the type in a field.
fn type_in_field(node: &Node, field: &str) -> (r: Option<String>)
    ensures
        text::opt_view(r) == field_type(node@, field@),
{
    match node.child_by_field_name(field) {
        Some(t) => base_type(t),
        None => None,
    }
}

fn type_of_first_param(list: &Node) -> (r: Option<String>)
    ensures
        text::opt_view(r) == first_param_type(list@),
{
    match list.first_child_of_kind("parameter_declaration") {
        Some(p) => type_in_field(p, "type"),
        None => None,
    }
}

/// Receiver type of a method_declaration: `(s *Server)` → "Server",
/// `(s *Server[T])` → "Server".
fn receiver_type(method: &Node) -> (r: Option<String>)
    ensures
        text::opt_view(r) == receiver_type_spec(method@),
{
    match method.child_by_field_name("receiver") {
        Some(recv) => type_of_first_param(recv),
        None => None,
    }
}

/// First return type of a function/method: `func f() *Server` → "Server",
/// `func f() (*Server, error)` → "Server" (multi-results are positional and
/// only the first is bound by `x, err := f()`).
fn return_type(decl: &Node) -> (r: Option<String>)
    ensures
        text::opt_view(r) == return_type_spec(decl@),
{
    match decl.child_by_field_name("result") {
        Some(result) => if result.is("parameter_list") {
            type_of_first_param(result)
        } else {
            base_type(result)
        },
        None => None,
    }
}

/// Appends the signatures of an interface.
fn collect_signatures(
    body: &Node,
    iface: &str,
    file: &str,
    pkg: &Vec<String>,
    out: &mut Vec<Def>,
)
    ensures
        text::views(final(out)@) == text::views(old(out)@) + signatures(
            body@.children,
            iface@,
            file@,
            text::views(pkg@),
        ),
{
    let ghost before = text::views(out@);
    let ghost all = body@.children;
    let mut i: usize = 0;
    assert(text::views(out@) =~= before + signatures(
        all.take(0),
        iface@,
        file@,
        text::views(pkg@),
    ));
    while i < body.children.len()
        invariant
            i <= body.children@.len(),
            all == body@.children,
            text::views(out@) == before + signatures(
                all.take(i as int),
                iface@,
                file@,
                text::views(pkg@),
            ),
        decreases body.children@.len() - i,
    {
        let elem: &Node = &body.children[i];
        assert(all.take(i + 1).drop_last() =~= all.take(i as int));
        assert(all.take(i + 1).last() == elem@);
        if elem.named && elem.is("method_elem") {
            if let Some(name) = name_of(elem) {
                let mut qualified: Vec<String> = clone_strings(pkg);
                push_string(&mut qualified, iface.to_string());
                push_string(&mut qualified, name.clone());
                push_def(
                    out,
                    Def {
                        name,
                        qualified,
                        kind: DefKind::InterfaceMethod { interface: iface.to_string() },
                        ret: return_type(elem),
                        id: DefId { file: file.to_string(), line: elem.line() },
                    },
                );
            }
        }
        i += 1;
        assert(text::views(out@) =~= before + signatures(
            all.take(i as int),
            iface@,
            file@,
            text::views(pkg@),
        ));
    }
    assert(all.take(i as int) =~= all);
}

/// Index each method signature of `type I interface { ... }` as an
/// `InterfaceMethod` def. Embedded interfaces (`io.Reader` inside the body)
/// are not expanded.
fn collect_interfaces(decl: &Node, file: &str, pkg: &Vec<String>, out: &mut Vec<Def>)
    ensures
        text::views(final(out)@) == text::views(old(out)@) + interface_defs(
            decl@.children,
            file@,
            text::views(pkg@),
        ),
{
    let ghost before = text::views(out@);
    let ghost all = decl@.children;
    let mut i: usize = 0;
    assert(text::views(out@) =~= before + interface_defs(all.take(0), file@, text::views(pkg@)));
    while i < decl.children.len()
        invariant
            i <= decl.children@.len(),
            all == decl@.children,
            text::views(out@) == before + interface_defs(
                all.take(i as int),
                file@,
                text::views(pkg@),
            ),
        decreases decl.children@.len() - i,
    {
        let child: &Node = &decl.children[i];
        assert(all.take(i + 1).drop_last() =~= all.take(i as int));
        assert(all.take(i + 1).last() == child@);
        if child.named && child.is("type_spec") {
            if let (Some(iface), Some(body)) = (name_of(child), child.child_by_field_name("type")) {
                if body.is("interface_type") {
                    collect_signatures(body, iface.as_str(), file, pkg, out);
                }
            }
        }
        i += 1;
        assert(text::views(out@) =~= before + interface_defs(
            all.take(i as int),
            file@,
            text::views(pkg@),
        ));
    }
    assert(all.take(i as int) =~= all);
}

/// Appends the definitions in a declaration.
fn collect_decl(child: &Node, file: &str, pkg: &Vec<String>, out: &mut Vec<Def>)
    ensures
        text::views(final(out)@) == text::views(old(out)@) + defs_of(
            child@,
            file@,
            text::views(pkg@),
        ),
{
    let ghost before = text::views(out@);
    if child.is("function_declaration") {
        if let Some(name) = name_of(child) {
            let mut qualified: Vec<String> = clone_strings(pkg);
            push_string(&mut qualified, name.clone());
            push_def(
                out,
                Def {
                    name,
                    qualified,
                    kind: DefKind::Function,
                    ret: return_type(child),
                    id: DefId { file: file.to_string(), line: child.line() },
                },
            );
        }
    } else if child.is("method_declaration") {
        if let (Some(name), Some(recv)) = (name_of(child), receiver_type(child)) {
            let mut qualified: Vec<String> = clone_strings(pkg);
            push_string(&mut qualified, recv.clone());
            push_string(&mut qualified, name.clone());
            push_def(
                out,
                Def {
                    name,
                    qualified,
                    kind: DefKind::Method { receiver: recv, via_trait: None },
                    ret: return_type(child),
                    id: DefId { file: file.to_string(), line: child.line() },
                },
            );
        }
    } else if child.is("type_declaration") {
        collect_interfaces(child, file, pkg, out);
    }
    assert(text::views(out@) =~= before + defs_of(child@, file@, text::views(pkg@)));
}

/// The definitions in a syntax tree.
pub fn collect_tree_defs(root: &Node, file: &str) -> (r: Vec<Def>)
    ensures
        text::views(r@) == tree_defs(root@, file@),
{
    let pkg: Vec<String> = file_package_path(file);
    let mut out: Vec<Def> = Vec::new();
    let ghost all = root@.children;
    let mut i: usize = 0;
    assert(text::views(out@) =~= defs_below(all.take(0), file@, text::views(pkg@)));
    while i < root.children.len()
        invariant
            i <= root.children@.len(),
            all == root@.children,
            text::views(out@) == defs_below(all.take(i as int), file@, text::views(pkg@)),
        decreases root.children@.len() - i,
    {
        assert(all.take(i + 1).drop_last() =~= all.take(i as int));
        assert(all.take(i + 1).last() == root.children@[i as int]@);
        collect_decl(&root.children[i], file, &pkg, &mut out);
        i += 1;
    }
    assert(all.take(i as int) =~= all);
    out
}

// ── File scope model ──────────────────────────────────────────────────────────

/// The segments of an import path in quotes.
pub open spec fn import_path(quoted: Seq<char>) -> Seq<Seq<char>> {
    text::split_spec(text::trim_back(text::trim_front(quoted, '"'), '"'), "/"@).filter(
        |s: Seq<char>| s.len() > 0,
    )
}

/// A scope with what an import brings into it: under the alias, or the last segment of the
/// path; all of it for `.`; nothing for `_`.
pub open spec fn with_import_spec(n: NodeV, s: ScopeV) -> ScopeV {
    match syntax::field_child(n, "path"@) {
        Some(p) => {
            let path = import_path(syntax::content(p));
            if path.len() == 0 {
                s
            } else {
                match syntax::field_child(n, "name"@) {
                    Some(name) => if name.kind == "dot"@ {
                        ScopeV { globs: s.globs.push(path), ..s }
                    } else if name.kind == "blank_identifier"@ {
                        s
                    } else {
                        ScopeV { imports: s.imports.insert(syntax::content(name), path), ..s }
                    },
                    None => ScopeV { imports: s.imports.insert(path.last(), path), ..s },
                }
            }
        },
        None => s,
    }
}

/// A scope with the imports in a node.
pub open spec fn with_import(n: NodeV, s: ScopeV) -> ScopeV
    decreases n, 1int,
{
    if n.kind == "import_spec_list"@ {
        with_imports(n.children, s)
    } else if n.kind == "import_spec"@ {
        with_import_spec(n, s)
    } else {
        s
    }
}

/// A scope with the imports in the named ones among the nodes, from the last to the first:
/// of two imports under one name the first one stays.
pub open spec fn with_imports(nodes: Seq<NodeV>, s: ScopeV) -> ScopeV
    decreases nodes, 0int,
{
    if nodes.len() == 0 {
        s
    } else if nodes.last().named {
        with_imports(nodes.drop_last(), with_import(nodes.last(), s))
    } else {
        with_imports(nodes.drop_last(), s)
    }
}

/// The names among the nodes, each with a type.
pub open spec fn names_typed(names: Seq<NodeV>, ty: Seq<char>) -> Seq<(Seq<char>, Seq<char>)>
    decreases names.len(),
{
    if names.len() == 0 {
        Seq::empty()
    } else {
        let init = names_typed(names.drop_last(), ty);
        if names.last().kind == "identifier"@ {
            init.push((syntax::content(names.last()), ty))
        } else {
            init
        }
    }
}

/// The (name, type) pairs of a list of parameters. `a, b int` are two of them; parameters
/// that are variadic or unnamed are none.
pub open spec fn params_of(nodes: Seq<NodeV>) -> Seq<(Seq<char>, Seq<char>)>
    decreases nodes.len(),
{
    if nodes.len() == 0 {
        Seq::empty()
    } else {
        let init = params_of(nodes.drop_last());
        let p = nodes.last();
        match field_type(p, "type"@) {
            Some(ty) => if p.named && p.kind == "parameter_declaration"@ {
                init + names_typed(syntax::labeled(p, "name"@), ty)
            } else {
                init
            },
            None => init,
        }
    }
}

/// The pairs of the list of parameters in a field.
pub open spec fn field_params(n: NodeV, field: Seq<char>) -> Seq<(Seq<char>, Seq<char>)> {
    match syntax::field_child(n, field) {
        Some(list) => params_of(list.children),
        None => Seq::empty(),
    }
}

/// The callee that an expression is.
pub open spec fn callee_of(f: NodeV) -> Option<CalleeV>
    decreases f,
{
    proof {
        syntax::lemma_field_child(f, "operand"@);
        syntax::lemma_field_child(f, "function"@);
        syntax::lemma_first_named(f);
    }
    if f.kind == "identifier"@ {
        Some(CalleeV::Bare(syntax::content(f)))
    } else if f.kind == "selector_expression"@ {
        match (syntax::field_child(f, "field"@), syntax::field_child(f, "operand"@)) {
            (Some(field), Some(operand)) => Some(
                CalleeV::Method {
                    receiver: if operand.kind == "identifier"@ {
                        ReceiverV::Var(syntax::content(operand))
                    } else {
                        ReceiverV::Opaque(text::first_line_spec(syntax::content(operand)))
                    },
                    name: syntax::content(field),
                },
            ),
            _ => None,
        }
    } else if f.kind == "index_expression"@ || f.kind == "generic_function"@ {
        match syntax::field_child(f, "operand"@) {
            Some(inner) => callee_of(inner),
            None => match syntax::field_child(f, "function"@) {
                Some(inner) => callee_of(inner),
                None => None,
            },
        }
    } else if f.kind == "parenthesized_expression"@ {
        match syntax::first_named(f) {
            Some(inner) => callee_of(inner),
            None => None,
        }
    } else {
        None
    }
}

/// The callee of a call.
pub open spec fn call_of(n: NodeV) -> Option<CalleeV> {
    match syntax::field_child(n, "function"@) {
        Some(f) => callee_of(f),
        None => None,
    }
}

/// What a value binds a variable to.
pub open spec fn value_binding(value: NodeV) -> Option<BindingV>
    decreases value,
{
    proof {
        syntax::lemma_field_child(value, "operand"@);
    }
    if value.kind == "identifier"@ || value.kind == "selector_expression"@ {
        match callee_of(value) {
            Some(c) => Some(BindingV::FnValue(c)),
            None => None,
        }
    } else if value.kind == "composite_literal"@ {
        match field_type(value, "type"@) {
            Some(t) => Some(BindingV::Typed(t)),
            None => None,
        }
    } else if value.kind == "unary_expression"@ {
        match syntax::field_child(value, "operand"@) {
            Some(operand) => value_binding(operand),
            None => None,
        }
    } else if value.kind == "call_expression"@ {
        match call_of(value) {
            Some(c) => Some(BindingV::Call(c)),
            None => None,
        }
    } else {
        None
    }
}

/// The one named child of a node that has just one.
pub open spec fn only_named(n: NodeV) -> Option<NodeV> {
    if syntax::named(n).len() == 1 {
        Some(syntax::named(n)[0])
    } else {
        None
    }
}

/// What `x := expr` binds, or the first variable of `x, err := f()`.
pub open spec fn short_var_binding(n: NodeV) -> Option<(Seq<char>, BindingV)> {
    match (syntax::field_child(n, "left"@), syntax::field_child(n, "right"@)) {
        (Some(left), Some(right)) => match only_named(right) {
            Some(value) => if syntax::named(left).len() > 1 && value.kind
                != "call_expression"@ {
                None
            } else {
                match syntax::first_named(left) {
                    Some(var) => if var.kind == "identifier"@ {
                        match value_binding(value) {
                            Some(b) => Some((syntax::content(var), b)),
                            None => None,
                        }
                    } else {
                        None
                    },
                    None => None,
                }
            },
            None => None,
        },
        _ => None,
    }
}

/// The texts of the identifiers among the nodes.
pub open spec fn identifiers(nodes: Seq<NodeV>) -> Seq<Seq<char>>
    decreases nodes.len(),
{
    if nodes.len() == 0 {
        Seq::empty()
    } else if nodes.last().kind == "identifier"@ {
        identifiers(nodes.drop_last()).push(syntax::content(nodes.last()))
    } else {
        identifiers(nodes.drop_last())
    }
}

/// What `var x Server`, `var a, b Server` or `var f = helper` binds.
pub open spec fn var_spec_bindings(n: NodeV) -> Seq<(Seq<char>, BindingV)> {
    let names = identifiers(syntax::labeled(n, "name"@));
    match field_type(n, "type"@) {
        Some(ty) => names.map_values(|v: Seq<char>| (v, BindingV::Typed(ty))),
        None => {
            let bound = match syntax::field_child(n, "value"@) {
                Some(list) => match only_named(list) {
                    Some(value) => value_binding(value),
                    None => None,
                },
                None => None,
            };
            match bound {
                Some(b) => if names.len() == 1 {
                    seq![(names[0], b)]
                } else {
                    Seq::empty()
                },
                None => Seq::empty(),
            }
        },
    }
}

/// A scope with more bindings in a function.
pub open spec fn with_bindings(
    s: ScopeV,
    f: Option<nat>,
    line: usize,
    bindings: Seq<(Seq<char>, BindingV)>,
) -> ScopeV
    decreases bindings.len(),
{
    if bindings.len() == 0 {
        s
    } else {
        scope::with_binding(
            with_bindings(s, f, line, bindings.drop_last()),
            f,
            line,
            Some(bindings.last()),
        )
    }
}

/// The scope of a function before its body is read.
pub open spec fn fn_scope(n: NodeV) -> FnScopeV {
    FnScopeV {
        line: syntax::line_of(n.start_row),
        impl_type: None,
        trait_name: None,
        params: if n.kind == "method_declaration"@ {
            field_params(n, "receiver"@) + field_params(n, "parameters"@)
        } else {
            field_params(n, "parameters"@)
        },
        bounds: Map::empty(),
        bindings: Seq::empty(),
        calls: Seq::empty(),
    }
}

/// A scope with what a node brings into it. `f` is the function that the node stands in.
pub open spec fn with_node(n: NodeV, s: ScopeV, f: Option<nat>) -> ScopeV
    decreases n, 1int,
{
    proof {
        syntax::lemma_field_child(n, "body"@);
    }
    let line = syntax::line_of(n.start_row);
    if n.kind == "import_declaration"@ {
        with_imports(n.children, s)
    } else if n.kind == "function_declaration"@ || n.kind == "method_declaration"@ {
        let s1 = ScopeV { fns: s.fns.push(fn_scope(n)), ..s };
        match syntax::field_child(n, "body"@) {
            Some(body) => with_nodes(body.children, s1, Some(s.fns.len())),
            None => s1,
        }
    } else if n.kind == "short_var_declaration"@ {
        with_nodes(
            n.children,
            scope::with_binding(s, f, line, short_var_binding(n)),
            f,
        )
    } else if n.kind == "var_spec"@ {
        with_nodes(n.children, with_bindings(s, f, line, var_spec_bindings(n)), f)
    } else if n.kind == "call_expression"@ {
        with_nodes(n.children, scope::with_call(s, f, line, call_of(n)), f)
    } else {
        with_nodes(n.children, s, f)
    }
}

/// A scope with what the nodes bring into it.
pub open spec fn with_nodes(nodes: Seq<NodeV>, s: ScopeV, f: Option<nat>) -> ScopeV
    decreases nodes, 0int,
{
    if nodes.len() == 0 {
        s
    } else {
        with_node(nodes.last(), with_nodes(nodes.drop_last(), s, f), f)
    }
}

/// The scope of a file.
pub open spec fn file_scope(root: NodeV) -> ScopeV {
    with_node(root, scope::empty_scope(), None)
}

/// The segments of an import path in quotes.
fn path_of_import(quoted: &str) -> (r: Vec<String>)
    ensures
        text::views(r@) == import_path(quoted@),
{
    proof {
        reveal_strlit("/");
    }
    let inner: String = trim_char(quoted, '"');
    let parts: Vec<String> = split(inner.as_str(), "/");
    let ghost all = text::views(parts@);
    let ghost p = |s: Seq<char>| s.len() > 0;
    let mut out: Vec<String> = Vec::new();
    let mut i: usize = 0;
    proof {
        reveal(Seq::filter);
        assert(text::views(out@) =~= all.take(0).filter(p));
    }
    while i < parts.len()
        invariant
            i <= parts@.len(),
            all == text::views(parts@),
            p == (|s: Seq<char>| s.len() > 0),
            text::views(out@) == all.take(i as int).filter(p),
        decreases parts@.len() - i,
    {
        proof {
            reveal(Seq::filter);
            assert(all.take(i + 1).drop_last() =~= all.take(i as int));
            assert(all.take(i + 1).last() == parts@[i as int]@);
        }
        if !parts[i].as_str().is_empty() {
            push_string(&mut out, parts[i].clone());
        }
        i += 1;
    }
    assert(all.take(i as int) =~= all);
    out
}

fn collect_import(node: &Node, s: &mut FileScope)
    ensures
        final(s)@ == with_import(node@, old(s)@),
        final(s).fns == old(s).fns,
    decreases node@, 1int,
{
    if node.is("import_spec_list") {
        collect_imports(node, s);
    } else if node.is("import_spec") {
        if let Some(p) = node.child_by_field_name("path") {
            let path: Vec<String> = path_of_import(p.content().as_str());
            if path.len() > 0 {
                match node.child_by_field_name("name") {
                    Some(name) => {
                        if name.is("dot") {
                            s.push_glob(path);
                        } else if !name.is("blank_identifier") {
                            s.imports.insert(name.content(), path);
                        }
                    },
                    None => {
                        let last: String = path[path.len() - 1].clone();
                        assert(text::views(path@).last() == last@);
                        s.imports.insert(last, path);
                    },
                }
            }
        }
    }
}

/// Collect `import_spec`s: plain imports key the path's last segment, aliases
/// key the alias, `.` imports go to `globs`, `_` imports are dropped.
fn collect_imports(node: &Node, s: &mut FileScope)
    ensures
        final(s)@ == with_imports(node@.children, old(s)@),
        final(s).fns == old(s).fns,
    decreases node@, 0int,
{
    let ghost all = node@.children;
    let mut n: usize = node.children.len();
    assert(all.take(n as int) =~= all);
    while n > 0
        invariant
            n <= node.children@.len(),
            all == node@.children,
            with_imports(all, old(s)@) == with_imports(all.take(n as int), s@),
            s.fns == old(s).fns,
        decreases n,
    {
        assert(all.take(n as int).drop_last() =~= all.take(n - 1));
        assert(all.take(n as int).last() == node.children@[n - 1]@);
        assert(decreases_to!(node@ => node@.children[n - 1]));
        n -= 1;
        if node.children[n].named {
            collect_import(&node.children[n], s);
        }
    }
}

/// Append (name, type) pairs from a parameter_list; `a, b int` repeats the
/// name field, variadic/unnamed parameters are skipped.
fn collect_param_list(list: &Node, out: &mut Vec<(String, String)>)
    ensures
        resolve::pairs_view(final(out)@) == resolve::pairs_view(old(out)@) + params_of(
            list@.children,
        ),
{
    let ghost before = resolve::pairs_view(out@);
    let ghost all = list@.children;
    let mut i: usize = 0;
    assert(resolve::pairs_view(out@) =~= before + params_of(all.take(0)));
    while i < list.children.len()
        invariant
            i <= list.children@.len(),
            all == list@.children,
            resolve::pairs_view(out@) == before + params_of(all.take(i as int)),
        decreases list.children@.len() - i,
    {
        let p: &Node = &list.children[i];
        let ghost done = resolve::pairs_view(out@);
        assert(all.take(i + 1).drop_last() =~= all.take(i as int));
        assert(all.take(i + 1).last() == p@);
        if p.named && p.is("parameter_declaration") {
            if let Some(ty) = type_in_field(p, "type") {
                let names: Vec<&Node> = p.children_by_field_name("name");
                let ghost nv = text::views(names@);
                let mut j: usize = 0;
                assert(resolve::pairs_view(out@) =~= done + names_typed(nv.take(0), ty@));
                while j < names.len()
                    invariant
                        j <= names@.len(),
                        nv == text::views(names@),
                        resolve::pairs_view(out@) == done + names_typed(nv.take(j as int), ty@),
                    decreases names@.len() - j,
                {
                    let ghost now = resolve::pairs_view(out@);
                    assert(nv.take(j + 1).drop_last() =~= nv.take(j as int));
                    assert(nv.take(j + 1).last() == names@[j as int]@);
                    if names[j].is("identifier") {
                        out.push((names[j].content(), ty.clone()));
                        assert(resolve::pairs_view(out@) =~= now.push(
                            (syntax::content(names@[j as int]@), ty@),
                        ));
                    }
                    j += 1;
                    assert(resolve::pairs_view(out@) =~= done + names_typed(
                        nv.take(j as int),
                        ty@,
                    ));
                }
                assert(nv.take(j as int) =~= nv);
            }
        }
        i += 1;
        assert(resolve::pairs_view(out@) =~= before + params_of(all.take(i as int)));
    }
    assert(all.take(i as int) =~= all);
}

/// Appends the pairs of the list of parameters in a field.
fn collect_params(node: &Node, field: &str, out: &mut Vec<(String, String)>)
    ensures
        resolve::pairs_view(final(out)@) == resolve::pairs_view(old(out)@) + field_params(
            node@,
            field@,
        ),
{
    let ghost before = resolve::pairs_view(out@);
    if let Some(list) = node.child_by_field_name(field) {
        collect_param_list(list, out);
    }
    assert(resolve::pairs_view(out@) =~= before + field_params(node@, field@));
}

fn classify_callee_expr(f: &Node) -> (r: Option<Callee>)
    ensures
        text::opt_view(r) == callee_of(f@),
    decreases f@,
{
    proof {
        syntax::lemma_field_child(f@, "operand"@);
        syntax::lemma_field_child(f@, "function"@);
        syntax::lemma_first_named(f@);
    }
    if f.is("identifier") {
        Some(Callee::Bare(f.content()))
    } else if f.is("selector_expression") {
        // `pkg.Fn()` and `x.Method()` are syntactically identical; classify as
        // a method with a Var receiver and let resolution disambiguate.
        match (f.child_by_field_name("field"), f.child_by_field_name("operand")) {
            (Some(field), Some(operand)) => {
                let receiver: Receiver = if operand.is("identifier") {
                    Receiver::Var(operand.content())
                } else {
                    Receiver::Opaque(text::first_line(operand.content().as_str()))
                };
                Some(Callee::Method { receiver, name: field.content() })
            },
            _ => None,
        }
    } else if f.is("index_expression") || f.is("generic_function") {
        // `f[int]()` — generic instantiation
        match f.child_by_field_name("operand") {
            Some(inner) => classify_callee_expr(inner),
            None => match f.child_by_field_name("function") {
                Some(inner) => classify_callee_expr(inner),
                None => None,
            },
        }
    } else if f.is("parenthesized_expression") {
        match f.first_named_child() {
            Some(inner) => classify_callee_expr(inner),
            None => None,
        }
    } else {
        None
    }
}

fn classify_call(node: &Node) -> (r: Option<Callee>)
    ensures
        text::opt_view(r) == call_of(node@),
{
    match node.child_by_field_name("function") {
        Some(f) => classify_callee_expr(f),
        None => None,
    }
}

fn classify_value(value: &Node) -> (r: Option<Binding>)
    ensures
        text::opt_view(r) == value_binding(value@),
    decreases value@,
{
    proof {
        syntax::lemma_field_child(value@, "operand"@);
    }
    if value.is("identifier") || value.is("selector_expression") {
        // `f := helper` / `g := x.Close` — function value, resolved like a call
        match classify_callee_expr(value) {
            Some(c) => Some(Binding::FnValue(c)),
            None => None,
        }
    } else if value.is("composite_literal") {
        match type_in_field(value, "type") {
            Some(t) => Some(Binding::Typed(t)),
            None => None,
        }
    } else if value.is("unary_expression") {
        // `&Server{...}`
        match value.child_by_field_name("operand") {
            Some(operand) => classify_value(operand),
            None => None,
        }
    } else if value.is("call_expression") {
        // `x := f()` — the callee's return type is looked up at resolve time
        match classify_call(value) {
            Some(c) => Some(Binding::Call(c)),
            None => None,
        }
    } else {
        None
    }
}

/// `x := expr`, plus the first variable of `x, err := f()` — only the first
/// result type is tracked, so the remaining variables stay untyped.
fn classify_short_var(node: &Node) -> (r: Option<(String, Binding)>)
    ensures
        (match r {
            Some((var, b)) => Some((var@, b@)),
            None => None,
        }) == short_var_binding(node@),
{
    match (node.child_by_field_name("left"), node.child_by_field_name("right")) {
        (Some(left), Some(right)) => {
            let values: Vec<&Node> = right.named_children();
            let vars: Vec<&Node> = left.named_children();
            assert(text::views(values@).len() == values@.len());
            assert(text::views(vars@).len() == vars@.len());
            if values.len() != 1 {
                return None;
            }
            let value: &Node = values[0];
            assert(text::views(values@)[0] == value@);
            if vars.len() > 1 && !value.is("call_expression") {
                return None;
            }
            if vars.len() == 0 {
                return None;
            }
            let var: &Node = vars[0];
            assert(text::views(vars@)[0] == var@);
            if !var.is("identifier") {
                return None;
            }
            match classify_value(value) {
                Some(b) => Some((var.content(), b)),
                None => None,
            }
        },
        _ => None,
    }
}

/// The texts of the identifiers among the nodes.
fn collect_identifiers(nodes: &Vec<&Node>) -> (r: Vec<String>)
    ensures
        text::views(r@) == identifiers(text::views(nodes@)),
{
    let ghost all = text::views(nodes@);
    let mut out: Vec<String> = Vec::new();
    let mut i: usize = 0;
    assert(text::views(out@) =~= Seq::empty());
    while i < nodes.len()
        invariant
            i <= nodes@.len(),
            all == text::views(nodes@),
            text::views(out@) == identifiers(all.take(i as int)),
        decreases nodes@.len() - i,
    {
        assert(all.take(i + 1).drop_last() =~= all.take(i as int));
        assert(all.take(i + 1).last() == nodes@[i as int]@);
        if nodes[i].is("identifier") {
            push_string(&mut out, nodes[i].content());
        }
        i += 1;
    }
    assert(all.take(i as int) =~= all);
    out
}

spec fn binding_pairs(v: Seq<(String, Binding)>) -> Seq<(Seq<char>, BindingV)> {
    v.map_values(|p: (String, Binding)| (p.0@, p.1@))
}

/// `var x Server` / `var a, b Server` / `var f = helper`.
fn classify_var_spec(node: &Node) -> (r: Vec<(String, Binding)>)
    ensures
        binding_pairs(r@) == var_spec_bindings(node@),
{
    let nodes: Vec<&Node> = node.children_by_field_name("name");
    let names: Vec<String> = collect_identifiers(&nodes);
    let ghost nv = text::views(names@);
    let mut out: Vec<(String, Binding)> = Vec::new();
    assert(binding_pairs(out@) =~= Seq::empty());
    if let Some(ty) = type_in_field(node, "type") {
        let ghost all = nv.map_values(|v: Seq<char>| (v, BindingV::Typed(ty@)));
        let mut i: usize = 0;
        assert(binding_pairs(out@) =~= all.take(0));
        while i < names.len()
            invariant
                i <= names@.len(),
                nv == text::views(names@),
                all == nv.map_values(|v: Seq<char>| (v, BindingV::Typed(ty@))),
                binding_pairs(out@) == all.take(i as int),
            decreases names@.len() - i,
        {
            let ghost before = binding_pairs(out@);
            out.push((names[i].clone(), Binding::Typed(ty.clone())));
            assert(binding_pairs(out@) =~= before.push(all[i as int]));
            i += 1;
            assert(binding_pairs(out@) =~= all.take(i as int));
        }
        assert(all.take(i as int) =~= all);
        return out;
    }
    // value bindings: only the single-name single-value form
    if let Some(list) = node.child_by_field_name("value") {
        let values: Vec<&Node> = list.named_children();
        assert(text::views(values@).len() == values@.len());
        if values.len() == 1 {
            assert(text::views(values@)[0] == values@[0]@);
            if let Some(b) = classify_value(values[0]) {
                if names.len() == 1 {
                    assert(nv[0] == names@[0]@);
                    let ghost view = b@;
                    out.push((names[0].clone(), b));
                    assert(binding_pairs(out@) =~= seq![(nv[0], view)]);
                }
            }
        }
    }
    out
}

fn open_fn(node: &Node) -> (r: FnScope)
    ensures
        r@ == fn_scope(node@),
{
    let mut params: Vec<(String, String)> = Vec::new();
    let ghost none = resolve::pairs_view(params@);
    assert(none =~= Seq::empty());
    if node.is("method_declaration") {
        collect_params(node, "receiver", &mut params);
        assert(resolve::pairs_view(params@) =~= field_params(node@, "receiver"@));
    }
    let ghost recv = resolve::pairs_view(params@);
    collect_params(node, "parameters", &mut params);
    let r = FnScope {
        line: node.line(),
        impl_type: None,
        trait_name: None,
        params,
        bounds: NameMap::new(),
        bindings: Vec::new(),
        calls: Vec::new(),
    };
    assert(r@.params =~= fn_scope(node@).params);
    assert(r@.bindings =~= Seq::empty());
    assert(r@.calls =~= Seq::empty());
    r
}

/// The function in which a node stands, as a number.
spec fn fn_at(f: Option<usize>) -> Option<nat> {
    match f {
        Some(i) => Some(i as nat),
        None => None,
    }
}

fn push_bindings(s: &mut FileScope, f: usize, line: usize, bindings: Vec<(String, Binding)>)
    requires
        f < old(s).fns@.len(),
    ensures
        final(s)@ == with_bindings(old(s)@, Some(f as nat), line, binding_pairs(bindings@)),
        final(s).fns@.len() == old(s).fns@.len(),
{
    let ghost all = binding_pairs(bindings@);
    let ghost mut done: int = 0;
    let mut rest: Vec<(String, Binding)> = bindings;
    assert(all.skip(0) =~= all);
    while rest.len() > 0
        invariant
            0 <= done <= all.len(),
            binding_pairs(rest@) == all.skip(done),
            f < s.fns@.len(),
            s.fns@.len() == old(s).fns@.len(),
            s@ == with_bindings(old(s)@, Some(f as nat), line, all.take(done)),
        decreases rest@.len(),
    {
        let ghost before = rest@;
        let b: (String, Binding) = rest.remove(0);
        proof {
            assert(binding_pairs(before)[0] == (b.0@, b.1@));
            assert(binding_pairs(before).len() == before.len());
            assert(binding_pairs(rest@) =~= binding_pairs(before).drop_first());
            assert(all.skip(done).drop_first() =~= all.skip(done + 1));
            assert(all.take(done + 1).drop_last() =~= all.take(done));
            assert(all.take(done + 1).last() == (b.0@, b.1@));
            done = done + 1;
        }
        s.push_binding(f, line, b.0, b.1);
    }
    assert(binding_pairs(rest@).len() == 0);
    assert(all.take(done) =~= all);
}

fn walk_scope(node: &Node, s: &mut FileScope, f: Option<usize>)
    requires
        f matches Some(i) ==> i < old(s).fns@.len(),
    ensures
        final(s)@ == with_node(node@, old(s)@, fn_at(f)),
        final(s).fns@.len() >= old(s).fns@.len(),
    decreases node@, 1int,
{
    proof {
        syntax::lemma_field_child(node@, "body"@);
    }
    if node.is("import_declaration") {
        collect_imports(node, s);
        return;
    }
    if node.is("function_declaration") || node.is("method_declaration") {
        let idx: usize = s.fns.len();
        assert(s@.fns.len() == idx);
        s.push_fn(open_fn(node));
        if let Some(body) = node.child_by_field_name("body") {
            walk_children(body, s, Some(idx));
        }
        return;
    }
    if node.is("short_var_declaration") {
        if let Some(i) = f {
            if let Some((var, b)) = classify_short_var(node) {
                s.push_binding(i, node.line(), var, b);
            }
        }
        // the value expression may contain calls
    } else if node.is("var_spec") {
        if let Some(i) = f {
            push_bindings(s, i, node.line(), classify_var_spec(node));
        } else {
            proof {
                lemma_no_bindings(s@, syntax::line_of(node@.start_row), var_spec_bindings(node@));
            }
        }
        // the value expression may contain calls
    } else if node.is("call_expression") {
        if let Some(i) = f {
            if let Some(c) = classify_call(node) {
                s.push_call(i, node.line(), c);
            }
        }
        // arguments and receivers may contain calls
    }
    walk_children(node, s, f);
}

proof fn lemma_no_bindings(s: ScopeV, line: usize, bindings: Seq<(Seq<char>, BindingV)>)
    ensures
        with_bindings(s, None, line, bindings) == s,
    decreases bindings.len(),
{
    if bindings.len() > 0 {
        lemma_no_bindings(s, line, bindings.drop_last());
    }
}

fn walk_children(node: &Node, s: &mut FileScope, f: Option<usize>)
    requires
        f matches Some(i) ==> i < old(s).fns@.len(),
    ensures
        final(s)@ == with_nodes(node@.children, old(s)@, fn_at(f)),
        final(s).fns@.len() >= old(s).fns@.len(),
    decreases node@, 0int,
{
    let ghost all = node@.children;
    let mut i: usize = 0;
    while i < node.children.len()
        invariant
            i <= node.children@.len(),
            all == node@.children,
            f matches Some(k) ==> k < s.fns@.len(),
            s@ == with_nodes(all.take(i as int), old(s)@, fn_at(f)),
            s.fns@.len() >= old(s).fns@.len(),
        decreases node.children@.len() - i,
    {
        assert(all.take(i + 1).drop_last() =~= all.take(i as int));
        assert(all.take(i + 1).last() == node.children@[i as int]@);
        assert(decreases_to!(node@ => node@.children[i as int]));
        walk_scope(&node.children[i], s, f);
        i += 1;
    }
    assert(all.take(i as int) =~= all);
}

/// The scope of a file.
pub fn build_scope(root: &Node) -> (r: FileScope)
    ensures
        r@ == file_scope(root@),
{
    let mut s: FileScope = FileScope::empty();
    walk_scope(root, &mut s, None);
    s
}

// ── Resolution ────────────────────────────────────────────────────────────────

struct Ctx<'a> {
    file: &'a str,
    scope: &'a FileScope,
    fun: &'a FnScope,
    index: &'a DefIndex,
}

/// Where a call stands, and what it is resolved against.
#[verifier::ext_equal]
pub struct CtxV {
    pub file: Seq<char>,
    pub scope: ScopeV,
    pub fun: FnScopeV,
    pub index: IndexV,
}

impl<'a> View for Ctx<'a> {
    type V = CtxV;

    closed spec fn view(&self) -> CtxV {
        CtxV { file: self.file@, scope: self.scope@, fun: self.fun@, index: self.index@ }
    }
}

/// How far value bindings are followed.
pub const MAX_BINDING_DEPTH: usize = 4;

/// How many segments are behind the package in the qualified path of a definition.
pub open spec fn tail_len(d: DefV) -> nat {
    if d.kind == DefKindV::Function {
        1
    } else {
        2
    }
}

/// The package (directory) part of the qualified path of a definition: everything before
/// the receiver and the name.
pub open spec fn package_of(d: DefV) -> Seq<Seq<char>> {
    if d.qualified.len() >= tail_len(d) {
        d.qualified.take(d.qualified.len() - tail_len(d))
    } else {
        Seq::empty()
    }
}

/// How many segments two paths have in common at their ends.
pub open spec fn overlap(a: Seq<Seq<char>>, b: Seq<Seq<char>>) -> nat
    decreases a.len(),
{
    if a.len() > 0 && b.len() > 0 && a.last() == b.last() {
        overlap(a.drop_last(), b.drop_last()) + 1
    } else {
        0
    }
}

/// Whether a definition is in reach through the imports or dot imports of a file.
pub open spec fn imported(s: ScopeV, d: DefV) -> bool {
    ||| exists|k: Seq<char>| #[trigger]
        s.imports.contains_key(k) && overlap(package_of(d), s.imports[k]) > 0
    ||| in_dot_import(d, s.globs)
}

/// Whether the package of a definition overlaps a dot import.
pub open spec fn in_dot_import(d: DefV, globs: Seq<Seq<Seq<char>>>) -> bool {
    exists|i: int| 0 <= i < globs.len() && overlap(package_of(d), #[trigger] globs[i]) > 0
}

/// What is in reach of a context.
pub open spec fn reach_of(s: ScopeV) -> spec_fn(DefV) -> bool {
    |d: DefV| imported(s, d)
}

/// The candidate that is picked in a context.
pub open spec fn pick_ranked(
    cands: Seq<usize>,
    prefer_methods: bool,
    ctx: CtxV,
) -> Option<(usize, Confidence)> {
    scope::ranked(ctx.index.defs, cands, prefer_methods, ctx.file, reach_of(ctx.scope))
}

/// The methods of a type with a name.
pub open spec fn method_of(ty: Seq<char>, name: Seq<char>, ctx: CtxV) -> Option<
    (usize, Confidence),
> {
    let defs = ctx.index.defs;
    pick_ranked(
        resolve::positions(defs, name).filter(
            |i: usize| scope::is_method_of(defs[i as int], ty),
        ),
        true,
        ctx,
    )
}

/// Whether a type has a method for each signature of an interface.
pub open spec fn implements(defs: Seq<DefV>, ty: Seq<char>, iface: Seq<char>) -> bool {
    forall|j: int|
        0 <= j < defs.len() && #[trigger] scope::is_signature_of(defs[j], iface) ==> has_method(
            defs,
            ty,
            defs[j].name,
        )
}

/// Whether a type has a method with a name.
pub open spec fn has_method(defs: Seq<DefV>, ty: Seq<char>, name: Seq<char>) -> bool {
    resolve::positions(defs, name).filter(
        |i: usize| scope::is_method_of(defs[i as int], ty),
    ).len() > 0
}

/// Whether a definition is a method of a type that implements an interface.
pub open spec fn is_implementation(defs: Seq<DefV>, d: DefV, iface: Seq<char>) -> bool {
    match d.kind {
        DefKindV::Method { receiver, .. } => implements(defs, receiver, iface),
        _ => false,
    }
}

/// The targets of a call through an interface: the method of each type that implements
/// it; without such a type, the signature.
pub open spec fn interface_targets(iface: Seq<char>, name: Seq<char>, ctx: CtxV) -> Seq<
    (usize, Confidence),
> {
    let defs = ctx.index.defs;
    let cands = resolve::positions(defs, name);
    let sigs = cands.filter(|i: usize| scope::is_signature_of(defs[i as int], iface));
    let impls = cands.filter(|i: usize| is_implementation(defs, defs[i as int], iface));
    if sigs.len() == 0 {
        Seq::empty()
    } else if impls.len() == 0 {
        seq![(sigs[0], Confidence::Exact)]
    } else {
        resolve::graded(order::stable_sort(impls, resolve::by_place(defs)))
    }
}

/// The deepest overlap of a path with the packages of functions among the candidates.
pub open spec fn deepest(defs: Seq<DefV>, cands: Seq<usize>, path: Seq<Seq<char>>) -> nat
    decreases cands.len(),
{
    if cands.len() == 0 {
        0
    } else {
        let d = defs[cands.last() as int];
        let init = deepest(defs, cands.drop_last(), path);
        let n = overlap(package_of(d), path);
        if d.kind == DefKindV::Function && n > init {
            n
        } else {
            init
        }
    }
}

/// The target of `pkg.Fn` for the import path of `pkg`: a function in the package with the
/// deepest overlap. A function that no such package defines is external.
pub open spec fn package_target(path: Seq<Seq<char>>, name: Seq<char>, ctx: CtxV) -> Option<
    (usize, Confidence),
> {
    let defs = ctx.index.defs;
    let cands = resolve::positions(defs, name);
    let depth = deepest(defs, cands, path);
    if depth == 0 {
        None
    } else {
        pick_ranked(
            cands.filter(
                |i: usize|
                    defs[i as int].kind == DefKindV::Function && overlap(
                        package_of(defs[i as int]),
                        path,
                    ) == depth,
            ),
            false,
            ctx,
        )
    }
}

/// The functions of the file among the candidates.
pub open spec fn in_file(cands: Seq<usize>, ctx: CtxV) -> Seq<usize> {
    let defs = ctx.index.defs;
    cands.filter(
        |i: usize|
            defs[i as int].id.file == ctx.file && defs[i as int].kind == DefKindV::Function,
    )
}

/// The functions of the directory of the file among the candidates.
pub open spec fn in_package(cands: Seq<usize>, ctx: CtxV) -> Seq<usize> {
    let defs = ctx.index.defs;
    cands.filter(
        |i: usize|
            defs[i as int].kind == DefKindV::Function && path::parent_spec(defs[i as int].id.file)
                == path::parent_spec(ctx.file),
    )
}

/// The functions of dot imports among the candidates.
pub open spec fn through_dots(cands: Seq<usize>, ctx: CtxV) -> Seq<usize> {
    let defs = ctx.index.defs;
    cands.filter(
        |i: usize|
            defs[i as int].kind == DefKindV::Function && in_dot_import(
                defs[i as int],
                ctx.scope.globs,
            ),
    )
}

/// The candidates for a bare name that is bound to no function value: those of the file,
/// or else of the package, or else of the dot imports, or else all.
pub open spec fn bare_candidates(name: Seq<char>, ctx: CtxV) -> Seq<usize> {
    let cands = resolve::positions(ctx.index.defs, name);
    if in_file(cands, ctx).len() > 0 {
        in_file(cands, ctx)
    } else if in_package(cands, ctx).len() > 0 {
        in_package(cands, ctx)
    } else if through_dots(cands, ctx).len() > 0 {
        through_dots(cands, ctx)
    } else {
        cands
    }
}

/// The type that a constructor makes, by the naming convention: `NewServer` (or
/// `pkg.NewServer`) returns a `Server`.
pub open spec fn constructed_type(callee: CalleeV) -> Option<Seq<char>> {
    match text::after_prefix(resolve::callee_name(callee), "New"@) {
        Some(ty) => if text::capitalized(ty) {
            Some(ty)
        } else {
            None
        },
        None => None,
    }
}

/// The targets of a callee.
pub open spec fn targets(c: CalleeV, line: usize, depth: nat, ctx: CtxV) -> Seq<
    (usize, Confidence),
>
    decreases 5 - depth, 4int,
{
    if depth > MAX_BINDING_DEPTH {
        Seq::empty()
    } else {
        match c {
            CalleeV::Path(segs) => if segs.len() > 0 {
                scope::at_most_one(package_target(segs.drop_last(), segs.last(), ctx))
            } else {
                Seq::empty()
            },
            CalleeV::Bare(name) => scope::at_most_one(bare_target(name, line, depth, ctx)),
            CalleeV::Method { receiver, name } => method_targets(
                receiver,
                name,
                line,
                depth,
                ctx,
            ),
        }
    }
}

/// The target of a bare name: that of the function value it is bound to, or else the best
/// candidate.
pub open spec fn bare_target(name: Seq<char>, line: usize, depth: nat, ctx: CtxV) -> Option<
    (usize, Confidence),
>
    decreases 5 - depth, 1int,
    when depth <= MAX_BINDING_DEPTH
{
    let bound = match scope::last_binding_spec(ctx.fun.bindings, name, line) {
        Some(BindingV::FnValue(inner)) => targets(inner, line, depth + 1, ctx),
        _ => Seq::empty(),
    };
    if bound.len() > 0 {
        Some(bound[0])
    } else {
        pick_ranked(bare_candidates(name, ctx), false, ctx)
    }
}

/// The type of a variable at a line: that of its last binding, or else of the receiver or
/// parameter.
pub open spec fn type_of_var(var: Seq<char>, line: usize, depth: nat, ctx: CtxV) -> Option<
    Seq<char>,
>
    decreases 5 - depth, 1int,
    when depth <= MAX_BINDING_DEPTH
{
    match scope::last_binding_spec(ctx.fun.bindings, var, line) {
        Some(BindingV::Typed(t)) => Some(t),
        Some(BindingV::Call(callee)) => {
            let hits = targets(callee, line, depth + 1, ctx);
            if hits.len() > 0 && ctx.index.defs[hits[0].0 as int].ret is Some {
                ctx.index.defs[hits[0].0 as int].ret
            } else {
                constructed_type(callee)
            }
        },
        _ => scope::param_type_spec(ctx.fun.params, var),
    }
}

/// The targets of a method on a type, or of a call through it as an interface.
pub open spec fn type_targets(ty: Seq<char>, name: Seq<char>, ctx: CtxV) -> Seq<
    (usize, Confidence),
> {
    match method_of(ty, name, ctx) {
        Some(hit) => seq![hit],
        None => interface_targets(ty, name, ctx),
    }
}

/// The targets that the receiver of a selector call leads to; none, if the name alone has
/// to decide. Local variables shadow packages. What an imported package does not define is
/// external.
pub open spec fn receiver_targets(
    receiver: ReceiverV,
    name: Seq<char>,
    line: usize,
    depth: nat,
    ctx: CtxV,
) -> Option<Seq<(usize, Confidence)>>
    decreases 5 - depth, 2int,
    when depth <= MAX_BINDING_DEPTH
{
    match receiver {
        ReceiverV::Var(v) => match type_of_var(v, line, depth, ctx) {
            Some(ty) => if type_targets(ty, name, ctx).len() > 0 {
                Some(type_targets(ty, name, ctx))
            } else {
                None
            },
            None => if ctx.scope.imports.contains_key(v) {
                Some(scope::at_most_one(package_target(ctx.scope.imports[v], name, ctx)))
            } else if text::capitalized(v) && type_targets(v, name, ctx).len() > 0 {
                Some(type_targets(v, name, ctx))
            } else {
                None
            },
        },
        _ => None,
    }
}

/// The targets of a selector call.
pub open spec fn method_targets(
    receiver: ReceiverV,
    name: Seq<char>,
    line: usize,
    depth: nat,
    ctx: CtxV,
) -> Seq<(usize, Confidence)>
    decreases 5 - depth, 3int,
    when depth <= MAX_BINDING_DEPTH
{
    match receiver_targets(receiver, name, line, depth, ctx) {
        Some(hits) => hits,
        None => scope::at_most_one(
            pick_ranked(resolve::positions(ctx.index.defs, name), true, ctx),
        ),
    }
}

/// A function that an imported package does not define is external: there is no fallback to
/// the name alone, so that `fmt.Println()` never leads to a `Println` of the project.
pub proof fn law_unmatched_package_is_external(
    v: Seq<char>,
    name: Seq<char>,
    line: usize,
    depth: nat,
    ctx: CtxV,
)
    requires
        depth <= MAX_BINDING_DEPTH,
        ctx.index.defs.len() <= usize::MAX,
        ctx.scope.imports.contains_key(v),
        type_of_var(v, line, depth, ctx) is None,
        forall|i: int|
            0 <= i < ctx.index.defs.len() && (#[trigger] ctx.index.defs[i]).kind
                == DefKindV::Function ==> overlap(
                package_of(ctx.index.defs[i]),
                ctx.scope.imports[v],
            ) == 0,
    ensures
        targets(
            CalleeV::Method { receiver: ReceiverV::Var(v), name },
            line,
            depth,
            ctx,
        ).len() == 0,
{
    let defs = ctx.index.defs;
    let path = ctx.scope.imports[v];
    resolve::lemma_positions(defs, name);
    lemma_deepest(defs, resolve::positions(defs, name), path);
    assert(package_target(path, name, ctx) is None);
    let receiver = ReceiverV::Var(v);
    assert(receiver_targets(receiver, name, line, depth, ctx) == Some(
        scope::at_most_one(package_target(path, name, ctx)),
    ));
    assert(method_targets(receiver, name, line, depth, ctx).len() == 0);
}

proof fn lemma_deepest(defs: Seq<DefV>, cands: Seq<usize>, path: Seq<Seq<char>>)
    requires
        scope::known(cands, defs.len()),
    ensures
        forall|k: int|
            0 <= k < cands.len() && defs[(#[trigger] cands[k]) as int].kind == DefKindV::Function
                ==> overlap(package_of(defs[cands[k] as int]), path) <= deepest(
                defs,
                cands,
                path,
            ),
        deepest(defs, cands, path) > 0 ==> exists|k: int|
            0 <= k < cands.len() && defs[(#[trigger] cands[k]) as int].kind == DefKindV::Function
                && overlap(package_of(defs[cands[k] as int]), path) == deepest(defs, cands, path),
    decreases cands.len(),
{
    if cands.len() > 0 {
        let init = cands.drop_last();
        let n = deepest(defs, cands, path);
        assert(scope::known(init, defs.len())) by {
            assert forall|k: int| 0 <= k < init.len() implies (#[trigger] init[k])
                < defs.len() by {
                assert(cands[k] < defs.len());
            }
        }
        lemma_deepest(defs, init, path);
        assert forall|k: int|
            0 <= k < cands.len() && defs[(#[trigger] cands[k]) as int].kind
                == DefKindV::Function implies overlap(package_of(defs[cands[k] as int]), path)
            <= n by {
            if k < init.len() {
                assert(init[k] == cands[k]);
            }
        }
        if n > 0 {
            if n == deepest(defs, init, path) {
                let k = choose|k: int|
                    0 <= k < init.len() && defs[(#[trigger] init[k]) as int].kind
                        == DefKindV::Function && overlap(
                        package_of(defs[init[k] as int]),
                        path,
                    ) == n;
                assert(cands[k] == init[k]);
            } else {
                assert(cands[cands.len() - 1] == cands.last());
            }
        }
    }
}

/// What a call through an imported package leads to is a function, and no function of that
/// name has a deeper overlap with the path of the import.
pub proof fn law_deepest_package_wins(
    path: Seq<Seq<char>>,
    name: Seq<char>,
    ctx: CtxV,
    i: int,
)
    requires
        ctx.index.defs.len() <= usize::MAX,
        0 <= i < ctx.index.defs.len(),
        ctx.index.defs[i].name == name,
        ctx.index.defs[i].kind == DefKindV::Function,
    ensures
        package_target(path, name, ctx) matches Some((t, _)) ==> {
            &&& ctx.index.defs[t as int].kind == DefKindV::Function
            &&& overlap(package_of(ctx.index.defs[i]), path) <= overlap(
                package_of(ctx.index.defs[t as int]),
                path,
            )
        },
{
    broadcast use vstd::seq_lib::group_filter_ensures;

    let defs = ctx.index.defs;
    let cands = resolve::positions(defs, name);
    let depth = deepest(defs, cands, path);
    let p = |i: usize|
        defs[i as int].kind == DefKindV::Function && overlap(package_of(defs[i as int]), path)
            == depth;
    resolve::lemma_positions(defs, name);
    lemma_deepest(defs, cands, path);
    assert(cands.contains(i as usize));
    assert(cands[cands.index_of(i as usize)] == i as usize);
    if let Some((t, _)) = package_target(path, name, ctx) {
        let kept = cands.filter(p);
        scope::law_rank_confidence(defs, kept, false, ctx.file, reach_of(ctx.scope));
        assert(p(kept[kept.index_of(t)]));
    }
}

/// A call through an interface that declares the method leads to the methods of the types
/// that implement the interface, and to nothing else: exact where there is one, and each
/// a guess where there are several. Without any it leads to the signature.
pub proof fn law_interface_dispatch_expands(iface: Seq<char>, name: Seq<char>, ctx: CtxV)
    requires
        ctx.index.defs.len() <= usize::MAX,
        resolve::positions(ctx.index.defs, name).filter(
            |i: usize| scope::is_signature_of(ctx.index.defs[i as int], iface),
        ).len() > 0,
    ensures
        (exists|i: usize| #[trigger] answers_interface(ctx.index.defs, iface, name, i))
            ==> resolve::are_graded(
            interface_targets(iface, name, ctx),
            |i: usize| answers_interface(ctx.index.defs, iface, name, i),
        ),
        (forall|i: usize| !(#[trigger] answers_interface(ctx.index.defs, iface, name, i)))
            ==> interface_targets(iface, name, ctx).len() == 1 && scope::is_signature_of(
            ctx.index.defs[interface_targets(iface, name, ctx)[0].0 as int],
            iface,
        ) && interface_targets(iface, name, ctx)[0].1 == Confidence::Exact,
{
    broadcast use vstd::seq_lib::group_filter_ensures;

    let defs = ctx.index.defs;
    let cands = resolve::positions(defs, name);
    let sigs = cands.filter(|i: usize| scope::is_signature_of(defs[i as int], iface));
    let p = |i: usize| is_implementation(defs, defs[i as int], iface);
    let q = |i: usize| answers_interface(defs, iface, name, i);
    let impls = cands.filter(p);
    resolve::lemma_positions(defs, name);
    assert(scope::is_signature_of(defs[sigs[0] as int], iface));
    assert forall|i: usize| #[trigger] impls.contains(i) <==> q(i) by {
        if impls.contains(i) {
            assert(p(impls[impls.index_of(i)]));
            cands.lemma_filter_contains_rev(p, i);
            let k = cands.index_of(i);
            assert(cands[k] == i);
        }
        if q(i) {
            assert(defs[i as int].name == name);
            assert(cands.contains(i));
            assert(impls.contains(cands[cands.index_of(i)]));
        }
    }
    if impls.len() > 0 {
        assert(impls.contains(impls[0]));
        assert(q(impls[0]));
        assert(answers_interface(defs, iface, name, impls[0]));
        assert(cands.no_duplicates());
        lemma_filter_keeps_apart(cands, p);
        resolve::lemma_graded(impls, resolve::by_place(defs), q);
    } else {
        assert forall|i: usize| !(#[trigger] answers_interface(defs, iface, name, i)) by {
            assert(!impls.contains(i));
            assert(!q(i));
        }
    }
}

/// Whether a definition is the method that a type has for a call through an interface that
/// it implements.
pub open spec fn answers_interface(
    defs: Seq<DefV>,
    iface: Seq<char>,
    name: Seq<char>,
    i: usize,
) -> bool {
    i < defs.len() && defs[i as int].name == name && is_implementation(
        defs,
        defs[i as int],
        iface,
    )
}

proof fn lemma_filter_keeps_apart(s: Seq<usize>, p: spec_fn(usize) -> bool)
    requires
        s.no_duplicates(),
    ensures
        s.filter(p).no_duplicates(),
    decreases s.len(),
{
    reveal(Seq::filter);
    if s.len() > 0 {
        let init = s.drop_last();
        lemma_filter_keeps_apart(init, p);
        let f = init.filter(p);
        assert forall|i: int, j: int|
            0 <= i < s.filter(p).len() && 0 <= j < s.filter(p).len() && i != j implies s.filter(
            p,
        )[i] != s.filter(p)[j] by {
            if i == f.len() {
                assert(f.contains(f[j]));
                init.lemma_filter_contains_rev(p, f[j]);
                assert(s[init.index_of(f[j])] == f[j]);
            } else if j == f.len() {
                assert(f.contains(f[i]));
                init.lemma_filter_contains_rev(p, f[i]);
                assert(s[init.index_of(f[i])] == f[i]);
            } else {
                assert(f[i] != f[j]);
            }
        }
    }
}

/// How many segments the package of a definition and a path have in common.
fn package_overlap(d: &Def, path: &Vec<String>) -> (r: usize)
    ensures
        r == overlap(package_of(d@), text::views(path@)),
{
    let q: &Vec<String> = &d.qualified;
    let ghost qv = d@.qualified;
    let ghost pv = text::views(path@);
    let tail: usize = match d.kind {
        DefKind::Function => 1,
        _ => 2,
    };
    assert(tail == tail_len(d@));
    if q.len() < tail {
        return 0;
    }
    let n: usize = q.len() - tail;
    assert(package_of(d@) == qv.take(n as int));
    let mut r: usize = 0;
    assert(pv.take(pv.len() as int) =~= pv);
    while r < n && r < path.len() && str_eq(
        q[n - 1 - r].as_str(),
        path[path.len() - 1 - r].as_str(),
    )
        invariant
            r <= n <= q@.len(),
            r <= path@.len(),
            q@ == d.qualified@,
            qv == d@.qualified,
            pv == text::views(path@),
            overlap(qv.take(n as int), pv) == r + overlap(
                qv.take(n - r),
                pv.take(pv.len() - r),
            ),
        decreases n - r,
    {
        let ghost a = qv.take(n - r);
        let ghost b = pv.take(pv.len() - r);
        assert(a.last() == q@[n - 1 - r]@);
        assert(b.last() == path@[path@.len() - 1 - r]@);
        assert(a.drop_last() =~= qv.take(n - r - 1));
        assert(b.drop_last() =~= pv.take(pv.len() - r - 1));
        r += 1;
    }
    proof {
        let a = qv.take(n - r);
        let b = pv.take(pv.len() - r);
        if r < n && r < path@.len() {
            assert(a.last() == q@[n - 1 - r]@);
            assert(b.last() == path@[path@.len() - 1 - r]@);
        }
    }
    r
}

/// Whether the package of a definition overlaps a dot import.
fn is_in_dot_import(d: &Def, globs: &Vec<Vec<String>>) -> (r: bool)
    ensures
        r == in_dot_import(d@, scope::globs_view(globs@)),
{
    let ghost gv = scope::globs_view(globs@);
    let mut i: usize = 0;
    while i < globs.len()
        invariant
            i <= globs@.len(),
            gv == scope::globs_view(globs@),
            forall|k: int| 0 <= k < i ==> overlap(package_of(d@), #[trigger] gv[k]) == 0,
        decreases globs@.len() - i,
    {
        assert(gv[i as int] == text::views(globs@[i as int]@));
        if package_overlap(d, &globs[i]) > 0 {
            return true;
        }
        i += 1;
    }
    false
}

impl<'a> Reach for Ctx<'a> {
    closed spec fn reach(&self) -> spec_fn(DefV) -> bool {
        reach_of(self@.scope)
    }

    /// Whether the def's package is reachable through this file's imports or dot
    /// imports.
    fn is_imported(&self, d: &Def) -> (r: bool) {
        let ghost s = self@.scope;
        let paths: Vec<&Vec<String>> = self.scope.imports.values();
        let mut i: usize = 0;
        while i < paths.len()
            invariant
                i <= paths@.len(),
                s == self@.scope,
                forall|k: int|
                    0 <= k < paths@.len() ==> scope::holds(
                        s.imports,
                        text::views((#[trigger] paths@[k])@),
                    ),
                forall|k: int|
                    0 <= k < i ==> overlap(
                        package_of(d@),
                        text::views((#[trigger] paths@[k])@),
                    ) == 0,
            decreases paths@.len() - i,
        {
            if package_overlap(d, paths[i]) > 0 {
                assert(scope::holds(s.imports, text::views(paths@[i as int]@)));
                let ghost key = choose|k: Seq<char>| #[trigger]
                    s.imports.contains_key(k) && s.imports[k] == text::views(
                        paths@[i as int]@,
                    );
                assert(s.imports.contains_key(key));
                return true;
            }
            i += 1;
        }
        proof {
            assert forall|k: Seq<char>| #[trigger] s.imports.contains_key(k) implies overlap(
                package_of(d@),
                s.imports[k],
            ) == 0 by {
                let i = choose|i: int|
                    0 <= i < paths@.len() && text::views((#[trigger] paths@[i])@) == s.imports[k];
                assert(overlap(package_of(d@), text::views(paths@[i]@)) == 0);
            }
        }
        is_in_dot_import(d, &self.scope.globs)
    }
}

impl<'a> Ctx<'a> {
    spec fn wf(self) -> bool {
        self.index.wf()
    }

    fn pick(&self, cands: &Vec<usize>, prefer_methods: bool) -> (r: Option<(usize, Confidence)>)
        requires
            scope::known(cands@, self.index.defs@.len()),
        ensures
            r == pick_ranked(cands@, prefer_methods, self@),
            r matches Some((t, _)) ==> t < self.index.defs@.len(),
    {
        rank(cands, prefer_methods, self.file, self.index, self)
    }
}

fn method_on(ty: &str, name: &str, ctx: &Ctx) -> (r: Option<(usize, Confidence)>)
    requires
        ctx.wf(),
    ensures
        r == method_of(ty@, name@, ctx@),
        r matches Some((t, _)) ==> t < ctx.index.defs@.len(),
{
    let named: Vec<usize> = ctx.index.named(name);
    let cands: Vec<usize> = methods_of(ctx.index, &named, ty);
    ctx.pick(&cands, true)
}

/// Whether a type has a method for each signature of an interface.
fn implements_all(index: &DefIndex, ty: &str, iface: &str) -> (r: bool)
    requires
        index.wf(),
    ensures
        r == implements(index@.defs, ty@, iface@),
{
    let ghost defs = index@.defs;
    let mut j: usize = 0;
    while j < index.defs.len()
        invariant
            j <= index.defs@.len(),
            index.wf(),
            defs == index@.defs,
            forall|k: int|
                0 <= k < j && #[trigger] scope::is_signature_of(defs[k], iface@) ==> has_method(
                    defs,
                    ty@,
                    defs[k].name,
                ),
        decreases index.defs@.len() - j,
    {
        assert(defs[j as int] == index.defs@[j as int]@);
        if let DefKind::InterfaceMethod { interface } = &index.defs[j].kind {
            if str_eq(interface.as_str(), iface) {
                let named: Vec<usize> = index.named(index.defs[j].name.as_str());
                let own: Vec<usize> = methods_of(index, &named, ty);
                if own.len() == 0 {
                    assert(scope::is_signature_of(defs[j as int], iface@));
                    return false;
                }
            }
        }
        j += 1;
    }
    true
}

/// Dispatch by method sets: a call through interface `iface` expands to `name` on every
/// project type whose method set covers all of the interface's methods. A
/// single implementor is exact; several are each a guess. With no
/// implementors in the project the edge points at the signature itself.
fn interface_impls(iface: &str, name: &str, ctx: &Ctx) -> (r: Vec<(usize, Confidence)>)
    requires
        ctx.wf(),
    ensures
        r@ == interface_targets(iface@, name@, ctx@),
        scope::hits_known(r@, ctx.index.defs@.len()),
{
    let ghost defs = ctx@.index.defs;
    let index: &DefIndex = ctx.index;
    let cands: Vec<usize> = index.named(name);
    let sigs: Vec<usize> = signatures_of(index, &cands, iface);
    if sigs.len() == 0 {
        let none: Vec<(usize, Confidence)> = Vec::new();
        assert(none@ =~= Seq::empty());
        return none;
    }
    let keep = |i: usize| -> (r: bool)
        requires
            i < (&index).defs@.len(),
            (&index).wf(),
        ensures
            r == is_implementation((&index)@.defs, (&index)@.defs[i as int], iface@),
        {
            match &index.defs[i].kind {
                DefKind::Method { receiver, .. } => implements_all(
                    index,
                    receiver.as_str(),
                    iface,
                ),
                _ => false,
            }
        };
    let impls: Vec<usize> = select(
        index,
        &cands,
        keep,
        Ghost(|i: usize| is_implementation(defs, defs[i as int], iface@)),
    );
    if impls.len() == 0 {
        let mut out: Vec<(usize, Confidence)> = Vec::new();
        out.push((sigs[0], Confidence::Exact));
        assert(out@ =~= seq![(sigs@[0], Confidence::Exact)]);
        return out;
    }
    proof {
        order::lemma_sort_bound(impls@, resolve::by_place(defs), index.defs@.len());
    }
    grade(&sort_by_place(&impls, index))
}

/// Resolve `pkg.Fn` where `pkg` maps to import path segments: functions named
/// `Fn` whose package directory overlaps the import path, keeping only the
/// deepest overlap (so `a/util` beats an unrelated `b/util`).
///
/// Defs know their on-disk path ("/tmp/demo/server") while imports carry the module path
/// ("example.com/demo/server") — only the tails agree, so any shared suffix matches.
fn resolve_pkg_fn(path: &Vec<String>, name: &str, ctx: &Ctx) -> (r: Option<(usize, Confidence)>)
    requires
        ctx.wf(),
    ensures
        r == package_target(text::views(path@), name@, ctx@),
        r matches Some((t, _)) ==> t < ctx.index.defs@.len(),
{
    let ghost defs = ctx@.index.defs;
    let ghost pv = text::views(path@);
    let all: &Vec<Def> = &ctx.index.defs;
    let cands: Vec<usize> = ctx.index.named(name);
    let mut depth: usize = 0;
    let mut i: usize = 0;
    while i < cands.len()
        invariant
            i <= cands@.len(),
            defs == ctx@.index.defs,
            pv == text::views(path@),
            all@ == ctx.index.defs@,
            scope::known(cands@, all@.len()),
            depth == deepest(defs, cands@.take(i as int), pv),
        decreases cands@.len() - i,
    {
        assert(cands@.take(i + 1).drop_last() =~= cands@.take(i as int));
        assert(cands@.take(i + 1).last() == cands@[i as int]);
        let d: &Def = &all[cands[i]];
        assert(defs[cands@[i as int] as int] == d@);
        if matches!(d.kind, DefKind::Function) {
            let n: usize = package_overlap(d, path);
            if n > depth {
                depth = n;
            }
        }
        i += 1;
    }
    assert(cands@.take(i as int) =~= cands@);
    if depth == 0 {
        return None;
    }
    let keep = |i: usize| -> (r: bool)
        requires
            i < all@.len(),
        ensures
            r == (text::views(all@)[i as int].kind == DefKindV::Function && overlap(
                package_of(text::views(all@)[i as int]),
                text::views(path@),
            ) == depth),
        { matches!(all[i].kind, DefKind::Function) && package_overlap(&all[i], path) == depth };
    let best: Vec<usize> = select(
        ctx.index,
        &cands,
        keep,
        Ghost(
            |i: usize|
                defs[i as int].kind == DefKindV::Function && overlap(
                    package_of(defs[i as int]),
                    pv,
                ) == depth as nat,
        ),
    );
    ctx.pick(&best, false)
}

/// The candidates for a bare name that is bound to no function value.
fn find_bare(name: &str, ctx: &Ctx) -> (r: Vec<usize>)
    requires
        ctx.wf(),
    ensures
        r@ == bare_candidates(name@, ctx@),
        scope::known(r@, ctx.index.defs@.len()),
{
    let ghost dv = ctx@.index.defs;
    let defs: &Vec<Def> = &ctx.index.defs;
    let file: &str = ctx.file;
    let globs: &Vec<Vec<String>> = &ctx.scope.globs;
    let named: Vec<usize> = ctx.index.named(name);
    // function in the same file
    let is_local = |i: usize| -> (r: bool)
        requires
            i < defs@.len(),
        ensures
            r == (text::views(defs@)[i as int].id.file == file@ && text::views(defs@)[i as int].kind
                == DefKindV::Function),
        { str_eq(defs[i].id.file.as_str(), file) && matches!(defs[i].kind, DefKind::Function) };
    let same_file: Vec<usize> = select(
        ctx.index,
        &named,
        is_local,
        Ghost(
            |i: usize| dv[i as int].id.file == ctx@.file && dv[i as int].kind == DefKindV::Function,
        ),
    );
    assert(same_file@ == in_file(named@, ctx@));
    if same_file.len() > 0 {
        return same_file;
    }
    // function in the same package (same directory)
    let is_near = |i: usize| -> (r: bool)
        requires
            i < defs@.len(),
        ensures
            r == (text::views(defs@)[i as int].kind == DefKindV::Function && path::parent_spec(
                text::views(defs@)[i as int].id.file,
            ) == path::parent_spec(file@)),
        { matches!(defs[i].kind, DefKind::Function) && same_parent(defs[i].id.file.as_str(), file)
        };
    let same_pkg: Vec<usize> = select(
        ctx.index,
        &named,
        is_near,
        Ghost(
            |i: usize|
                dv[i as int].kind == DefKindV::Function && path::parent_spec(dv[i as int].id.file)
                    == path::parent_spec(ctx@.file),
        ),
    );
    assert(same_pkg@ == in_package(named@, ctx@));
    if same_pkg.len() > 0 {
        return same_pkg;
    }
    // dot imports
    let is_dotted = |i: usize| -> (r: bool)
        requires
            i < defs@.len(),
        ensures
            r == (text::views(defs@)[i as int].kind == DefKindV::Function && in_dot_import(
                text::views(defs@)[i as int],
                scope::globs_view(globs@),
            )),
        { matches!(defs[i].kind, DefKind::Function) && is_in_dot_import(&defs[i], globs) };
    let dotted: Vec<usize> = select(
        ctx.index,
        &named,
        is_dotted,
        Ghost(
            |i: usize|
                dv[i as int].kind == DefKindV::Function && in_dot_import(
                    dv[i as int],
                    ctx@.scope.globs,
                ),
        ),
    );
    assert(dotted@ == through_dots(named@, ctx@));
    if dotted.len() > 0 {
        return dotted;
    }
    // every def with this name
    named
}

/// Constructor naming convention: `NewServer` (or `pkg.NewServer`) returns a
/// `Server`. Fallback when the callee's definition isn't in the index.
fn new_convention_type(callee: &Callee) -> (r: Option<String>)
    ensures
        text::opt_view(r) == constructed_type(callee@),
{
    match strip_prefix(callee.name(), "New") {
        Some(ty) => if is_capitalized(ty.as_str()) {
            Some(ty)
        } else {
            None
        },
        None => None,
    }
}

/// Resolve a call site to its target definitions. Every path yields zero or
/// one target except interface dispatch, which expands to one edge per
/// implementing method.
fn resolve_callee(callee: &Callee, line: usize, depth: usize, ctx: &Ctx) -> (r: Vec<
    (usize, Confidence),
>)
    requires
        ctx.wf(),
    ensures
        r@ == targets(callee@, line, depth as nat, ctx@),
        scope::hits_known(r@, ctx.index.defs@.len()),
    decreases 5 - depth, 4int,
{
    if depth > MAX_BINDING_DEPTH {
        return one(None);
    }
    match callee {
        Callee::Path(segs) => {
            if segs.len() == 0 {
                return one(None);
            }
            let ghost sv = text::views(segs@);
            let mut pkg: Vec<String> = clone_strings(segs);
            pkg.pop();
            assert(text::views(pkg@) =~= sv.drop_last());
            assert(sv.last() == segs@[segs@.len() - 1]@);
            one(resolve_pkg_fn(&pkg, segs[segs.len() - 1].as_str(), ctx))
        },
        Callee::Bare(name) => one(resolve_bare(name.as_str(), line, depth, ctx)),
        Callee::Method { receiver, name } => resolve_method(
            receiver,
            name.as_str(),
            line,
            depth,
            ctx,
        ),
    }
}

fn resolve_bare(name: &str, line: usize, depth: usize, ctx: &Ctx) -> (r: Option<
    (usize, Confidence),
>)
    requires
        ctx.wf(),
        depth <= MAX_BINDING_DEPTH,
    ensures
        r == bare_target(name@, line, depth as nat, ctx@),
        r matches Some((t, _)) ==> t < ctx.index.defs@.len(),
    decreases 5 - depth, 1int,
{
    // local binding holding a function value
    if let Some(Binding::FnValue(inner)) = last_binding(ctx.fun, name, line) {
        let hits: Vec<(usize, Confidence)> = resolve_callee(inner, line, depth + 1, ctx);
        if hits.len() > 0 {
            return Some(hits[0]);
        }
    }
    let cands: Vec<usize> = find_bare(name, ctx);
    ctx.pick(&cands, false)
}

/// Type of `var` at `line`: last typed binding — for `x := f()` the resolved
/// callee's return type, else the `NewT` convention — else receiver or
/// parameter type.
fn var_type(var: &str, line: usize, depth: usize, ctx: &Ctx) -> (r: Option<String>)
    requires
        ctx.wf(),
        depth <= MAX_BINDING_DEPTH,
    ensures
        text::opt_view(r) == type_of_var(var@, line, depth as nat, ctx@),
    decreases 5 - depth, 1int,
{
    match last_binding(ctx.fun, var, line) {
        Some(Binding::Typed(t)) => Some(t.clone()),
        Some(Binding::Call(callee)) => {
            let hits: Vec<(usize, Confidence)> = resolve_callee(callee, line, depth + 1, ctx);
            if hits.len() > 0 {
                let t: usize = hits[0].0;
                assert(ctx@.index.defs[t as int] == ctx.index.defs@[t as int]@);
                if let Some(ret) = &ctx.index.defs[t].ret {
                    return Some(ret.clone());
                }
            }
            new_convention_type(callee)
        },
        _ => param_type(ctx.fun, var),
    }
}

/// The targets of a method on a type, or of a call through it as an interface.
fn resolve_on_type(ty: &str, name: &str, ctx: &Ctx) -> (r: Vec<(usize, Confidence)>)
    requires
        ctx.wf(),
    ensures
        r@ == type_targets(ty@, name@, ctx@),
        scope::hits_known(r@, ctx.index.defs@.len()),
{
    match method_on(ty, name, ctx) {
        Some(hit) => one(Some(hit)),
        None => interface_impls(ty, name, ctx),
    }
}

fn resolve_method(receiver: &Receiver, name: &str, line: usize, depth: usize, ctx: &Ctx) -> (r:
    Vec<(usize, Confidence)>)
    requires
        ctx.wf(),
        depth <= MAX_BINDING_DEPTH,
    ensures
        r@ == method_targets(receiver@, name@, line, depth as nat, ctx@),
        scope::hits_known(r@, ctx.index.defs@.len()),
    decreases 5 - depth, 3int,
{
    let ghost through = receiver_targets(receiver@, name@, line, depth as nat, ctx@);
    if let Receiver::Var(v) = receiver {
        // local bindings and params shadow package names
        if let Some(ty) = var_type(v.as_str(), line, depth, ctx) {
            let hits: Vec<(usize, Confidence)> = resolve_on_type(ty.as_str(), name, ctx);
            if hits.len() > 0 {
                return hits;
            }
        } else if let Some(path) = ctx.scope.imports.get(v.as_str()) {
            // imported package: a function it doesn't define is
            // external — no name-only fallback, so fmt.Println()
            // never grabs an unrelated local Println
            return one(resolve_pkg_fn(path, name, ctx));
        } else if is_capitalized(v.as_str()) {
            // method expression: Server.Run(s)
            let hits: Vec<(usize, Confidence)> = resolve_on_type(v.as_str(), name, ctx);
            if hits.len() > 0 {
                return hits;
            }
        }
    }
    // fallback: any def with this name, methods preferred
    let named: Vec<usize> = ctx.index.named(name);
    one(ctx.pick(&named, true))
}

// ── The resolver ─────────────────────────────────────────────────────────────

/// The calls in one function.
pub open spec fn fn_calls(
    calls: Seq<(CalleeV, usize)>,
    caller: usize,
    ctx: CtxV,
) -> Seq<CallV>
    decreases calls.len(),
{
    if calls.len() == 0 {
        Seq::empty()
    } else {
        let (callee, line) = calls.last();
        fn_calls(calls.drop_last(), caller, ctx) + resolve::site_calls(
            caller,
            resolve::callee_name(callee),
            line,
            targets(callee, line, 0, ctx),
        )
    }
}

/// The calls in the functions of a file, as far as they are indexed.
pub open spec fn scope_calls(
    fns: Seq<FnScopeV>,
    file: Seq<char>,
    s: ScopeV,
    index: IndexV,
) -> Seq<CallV>
    decreases fns.len(),
{
    if fns.len() == 0 {
        Seq::empty()
    } else {
        let init = scope_calls(fns.drop_last(), file, s, index);
        let fun = fns.last();
        match resolve::def_at(index.defs, resolve::positions_in(index.defs, file), fun.line) {
            Some(caller) => init + fn_calls(
                fun.calls,
                caller,
                CtxV { file, scope: s, fun, index },
            ),
            None => init,
        }
    }
}

/// The resolved calls in a syntax tree.
pub open spec fn tree_calls(root: NodeV, file: Seq<char>, index: IndexV) -> Seq<CallV> {
    let s = file_scope(root);
    scope_calls(s.fns, file, s, index)
}

/// Appends the calls in one function.
fn resolve_fn(fun: &FnScope, caller: usize, ctx: &Ctx, out: &mut Vec<ResolvedCall>)
    requires
        ctx.wf(),
        ctx.fun@ == fun@,
        caller < ctx.index.defs@.len(),
        resolve::calls_known(text::views(old(out)@), ctx.index.defs@.len()),
    ensures
        text::views(final(out)@) == text::views(old(out)@) + fn_calls(fun@.calls, caller, ctx@),
        resolve::calls_known(text::views(final(out)@), ctx.index.defs@.len()),
{
    let ghost before = text::views(out@);
    let ghost all = fun@.calls;
    let mut i: usize = 0;
    assert(text::views(out@) =~= before + fn_calls(all.take(0), caller, ctx@));
    while i < fun.calls.len()
        invariant
            i <= fun.calls@.len(),
            all == fun@.calls,
            ctx.wf(),
            caller < ctx.index.defs@.len(),
            text::views(out@) == before + fn_calls(all.take(i as int), caller, ctx@),
            resolve::calls_known(text::views(out@), ctx.index.defs@.len()),
        decreases fun.calls@.len() - i,
    {
        let ghost done = fn_calls(all.take(i as int), caller, ctx@);
        assert(all.take(i + 1).drop_last() =~= all.take(i as int));
        assert(all.take(i + 1).last() == all[i as int]);
        let callee: &Callee = &fun.calls[i].0;
        let line: usize = fun.calls[i].1;
        // interface dispatch can yield several targets → one edge each
        let hits: Vec<(usize, Confidence)> = resolve_callee(callee, line, 0, ctx);
        push_site(out, caller, callee.name(), line, &hits, Ghost(ctx.index.defs@.len()));
        i += 1;
        assert(text::views(out@) =~= before + fn_calls(all.take(i as int), caller, ctx@));
    }
    assert(all.take(i as int) =~= all);
}

/// The resolved calls in a syntax tree.
pub fn resolve_tree_calls(root: &Node, file: &str, index: &DefIndex) -> (r: Vec<ResolvedCall>)
    requires
        index.wf(),
    ensures
        text::views(r@) == tree_calls(root@, file@, index@),
        resolve::calls_known(text::views(r@), index@.defs.len()),
{
    let scope: FileScope = build_scope(root);
    // definitions of the file, for attributing calls to their enclosing function
    let here: Vec<usize> = find_in_file(index, file);
    let mut out: Vec<ResolvedCall> = Vec::new();
    let ghost s = scope@;
    let mut i: usize = 0;
    assert(text::views(out@) =~= scope_calls(s.fns.take(0), file@, s, index@));
    while i < scope.fns.len()
        invariant
            i <= scope.fns@.len(),
            index.wf(),
            s == scope@,
            here@ == resolve::positions_in(index@.defs, file@),
            forall|k: int| 0 <= k < here@.len() ==> (#[trigger] here@[k]) < index.defs@.len(),
            text::views(out@) == scope_calls(s.fns.take(i as int), file@, s, index@),
            resolve::calls_known(text::views(out@), index.defs@.len()),
        decreases scope.fns@.len() - i,
    {
        assert(s.fns.take(i + 1).drop_last() =~= s.fns.take(i as int));
        assert(s.fns.take(i + 1).last() == scope.fns@[i as int]@);
        let fun: &FnScope = &scope.fns[i];
        if let Some(caller) = find_at(index, &here, fun.line) {
            let ctx = Ctx { file, scope: &scope, fun, index };
            resolve_fn(fun, caller, &ctx, &mut out);
        }
        i += 1;
    }
    assert(s.fns.take(i as int) =~= s.fns);
    out
}

#[derive(Default)]
pub struct GoResolver;

impl Resolver for GoResolver {
    open spec fn defs_spec(&self, file: Seq<char>, source: Seq<u8>) -> Seq<DefV> {
        tree_defs(syntax::syntax_tree(Grammar::Go, source), file)
    }

    open spec fn impls_spec(&self, file: Seq<char>, source: Seq<u8>) -> Seq<
        (Seq<char>, Seq<char>),
    > {
        Seq::empty()
    }

    open spec fn calls_spec(&self, file: Seq<char>, source: Seq<u8>, index: IndexV) -> Seq<CallV> {
        tree_calls(syntax::syntax_tree(Grammar::Go, source), file, index)
    }

    fn collect_defs(&self, file: &str, source: &[u8]) -> (r: Vec<Def>) {
        match parse_source(Grammar::Go, source) {
            Ok(root) => collect_tree_defs(&root, file),
            Err(_) => Vec::new(),
        }
    }

    fn collect_impls(&self, file: &str, source: &[u8]) -> (r: Vec<(String, String)>) {
        let none: Vec<(String, String)> = Vec::new();
        assert(resolve::pairs_view(none@) =~= Seq::empty());
        none
    }

    fn resolve_calls(&self, file: &str, source: &[u8], index: &DefIndex) -> (r: Vec<
        ResolvedCall,
    >) {
        match parse_source(Grammar::Go, source) {
            Ok(root) => resolve_tree_calls(&root, file, index),
            Err(_) => Vec::new(),
        }
    }
}

} // verus!
