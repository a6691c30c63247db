//! Rust resolver: definition indexing, file scope model, and call resolution.
//!
//! Resolution is heuristic, not full type inference. Call returns are
//! followed one level through the indexed return type (`let x = make();
//! x.m()` resolves when `make`'s `-> Foo` is in the index, `-> Self` maps to
//! the impl type). Trait dispatch goes by class hierarchy: receivers typed as `dyn Trait`
//! (incl. through `Box`/`Rc`/`Arc`), `T: Trait` bounds, or `impl Trait`
//! expand to one edge per `impl Trait for Type` block — the override when
//! the impl defines the method, else the trait default. Out of scope (calls
//! fall back to ranked name matching): blanket impls (`impl<T: A> B for T`),
//! supertrait methods, macro-generated code, `pub use` re-export chains, and
//! exact block-scope shadowing (the last `let` before the call line wins).

use vstd::prelude::*;
use crate::order;
use crate::order::sort_distinct;
use crate::path;
use crate::path::{dir_names, file_stem};
use crate::resolve;
use crate::resolve::{
    CallV, Callee, CalleeV, Confidence, Def, DefId, DefIdV, DefIndex, DefKind, DefKindV, DefV,
    IndexV, Receiver, ReceiverV, ResolvedCall, Resolver, find_at, find_in_file, grade, push_site,
    sort_by_place,
};
use crate::resolve::scope;
use crate::resolve::scope::{
    Binding, BindingV, FileScope, FnScope, FnScopeV, NameMap, Reach, ScopeV, last_binding,
    methods_of, one, param_type, rank, select, signatures_of,
};
use crate::syntax;
use crate::syntax::{Grammar, Node, NodeV, parse_source};
use crate::text;
use crate::text::{clone_strings, ends_with, is_capitalized, push_string, str_eq};

verus! {

broadcast use vstd::string::group_string_axioms;

// ── Definition indexing ───────────────────────────────────────────────────────

/// What follows the last `src` of a list of directories; nothing, if there is none.
pub open spec fn after_src(dirs: Seq<Seq<char>>) -> Seq<Seq<char>>
    decreases dirs.len(),
{
    if dirs.len() == 0 {
        Seq::empty()
    } else if dirs.contains("src"@) {
        if dirs.last() == "src"@ {
            Seq::empty()
        } else {
            after_src(dirs.drop_last()).push(dirs.last())
        }
    } else {
        Seq::empty()
    }
}

/// The module path that the location of a file implies: the directories below the nearest
/// `src`, and the stem of the file, unless it is `lib`, `main` or `mod`.
pub open spec fn modules_of(file: Seq<char>) -> Seq<Seq<char>> {
    let mods = after_src(path::dir_names_spec(file));
    match path::file_stem_spec(file) {
        Some(stem) => if stem == "lib"@ || stem == "main"@ || stem == "mod"@ {
            mods
        } else {
            mods.push(stem)
        },
        None => mods,
    }
}

/// The base name of a type. References, generics and paths are stripped, `dyn` and `impl`
/// give their trait, and smart pointers what they hold.
pub open spec fn base_type_spec(n: NodeV) -> Option<Seq<char>>
    decreases n,
{
    proof {
        syntax::lemma_field_child(n, "type"@);
        syntax::lemma_field_child(n, "trait"@);
        syntax::lemma_field_child(n, "type_arguments"@);
        if let Some(args) = syntax::field_child(n, "type_arguments"@) {
            syntax::lemma_first_named(args);
        }
    }
    if n.kind == "type_identifier"@ {
        Some(syntax::content(n))
    } else if n.kind == "generic_type"@ {
        match syntax::field_child(n, "type"@) {
            None => None,
            Some(t) => match base_type_spec(t) {
                None => None,
                Some(base) => if base == "Box"@ || base == "Rc"@ || base == "Arc"@ {
                    match syntax::field_child(n, "type_arguments"@) {
                        None => Some(base),
                        Some(args) => match syntax::first_named(args) {
                            None => Some(base),
                            Some(a) => match base_type_spec(a) {
                                None => Some(base),
                                Some(inner) => Some(inner),
                            },
                        },
                    }
                } else {
                    Some(base)
                },
            },
        }
    } else if n.kind == "reference_type"@ {
        match syntax::field_child(n, "type"@) {
            Some(t) => base_type_spec(t),
            None => None,
        }
    } else if n.kind == "dynamic_type"@ || n.kind == "abstract_type"@ {
        match syntax::field_child(n, "trait"@) {
            Some(t) => base_type_spec(t),
            None => None,
        }
    } else if n.kind == "scoped_type_identifier"@ {
        match syntax::field_child(n, "name"@) {
            Some(t) => Some(syntax::content(t)),
            None => None,
        }
    } else {
        None
    }
}

/// The base name of the type in a field.
pub open spec fn field_type(n: NodeV, field: Seq<char>) -> Option<Seq<char>> {
    match syntax::field_child(n, field) {
        Some(t) => base_type_spec(t),
        None => None,
    }
}

/// Container a def lives in: an inherent impl, an `impl Trait for Type`, or
/// a trait body (default methods get the trait as receiver, bodyless
/// signatures become `InterfaceMethod`s).
#[derive(Clone, Copy)]
enum Owner<'a> {
    Free,
    Impl { ty: &'a str, of_trait: Option<&'a str> },
    Trait(&'a str),
}

/// View of the container that a definition lives in.
#[verifier::ext_equal]
pub enum OwnerV {
    Free,
    Impl { ty: Seq<char>, of_trait: Option<Seq<char>> },
    Trait(Seq<char>),
}

impl<'a> View for Owner<'a> {
    type V = OwnerV;

    closed spec fn view(&self) -> OwnerV {
        match *self {
            Owner::Free => OwnerV::Free,
            Owner::Impl { ty, of_trait } => OwnerV::Impl {
                ty: ty@,
                of_trait: match of_trait {
                    Some(t) => Some(t@),
                    None => None,
                },
            },
            Owner::Trait(t) => OwnerV::Trait(t@),
        }
    }
}

/// The type or trait of a container.
pub open spec fn owner_name(owner: OwnerV) -> Option<Seq<char>> {
    match owner {
        OwnerV::Free => None,
        OwnerV::Impl { ty, .. } => Some(ty),
        OwnerV::Trait(t) => Some(t),
    }
}

/// The definition of a function with a body.
pub open spec fn function_def(
    n: NodeV,
    name: Seq<char>,
    file: Seq<char>,
    mods: Seq<Seq<char>>,
    owner: OwnerV,
) -> DefV {
    DefV {
        name,
        qualified: match owner_name(owner) {
            Some(r) => mods.push(r).push(name),
            None => mods.push(name),
        },
        kind: match owner {
            OwnerV::Free => DefKindV::Function,
            OwnerV::Impl { ty, of_trait } => DefKindV::Method {
                receiver: ty,
                via_trait: of_trait,
            },
            OwnerV::Trait(t) => DefKindV::Method { receiver: t, via_trait: None },
        },
        ret: match field_type(n, "return_type"@) {
            Some(t) => match owner_name(owner) {
                Some(r) => if t == "Self"@ {
                    Some(r)
                } else {
                    Some(t)
                },
                None => Some(t),
            },
            None => None,
        },
        id: DefIdV { file, line: syntax::line_of(n.start_row) },
    }
}

/// The definition of a signature in a trait.
pub open spec fn signature_def(
    n: NodeV,
    name: Seq<char>,
    file: Seq<char>,
    mods: Seq<Seq<char>>,
    tr: Seq<char>,
) -> DefV {
    DefV {
        name,
        qualified: mods.push(tr).push(name),
        kind: DefKindV::InterfaceMethod { interface: tr },
        ret: field_type(n, "return_type"@),
        id: DefIdV { file, line: syntax::line_of(n.start_row) },
    }
}

/// The definitions in a node that stands in a container.
pub open spec fn defs_of(
    n: NodeV,
    file: Seq<char>,
    mods: Seq<Seq<char>>,
    owner: OwnerV,
) -> Seq<DefV>
    decreases n, 1int,
{
    proof {
        syntax::lemma_field_child(n, "body"@);
    }
    let name = match syntax::field_child(n, "name"@) {
        Some(m) => Some(syntax::content(m)),
        None => None,
    };
    if n.kind == "function_item"@ {
        let own = match name {
            Some(name) => seq![function_def(n, name, file, mods, owner)],
            None => Seq::empty(),
        };
        match syntax::field_child(n, "body"@) {
            Some(body) => own + defs_below(body.children, file, mods, OwnerV::Free),
            None => own,
        }
    } else if n.kind == "function_signature_item"@ {
        match (owner, name) {
            (OwnerV::Trait(tr), Some(name)) => seq![signature_def(n, name, file, mods, tr)],
            _ => Seq::empty(),
        }
    } else if n.kind == "mod_item"@ {
        match (name, syntax::field_child(n, "body"@)) {
            (Some(name), Some(body)) => defs_below(
                body.children,
                file,
                mods.push(name),
                OwnerV::Free,
            ),
            _ => Seq::empty(),
        }
    } else if n.kind == "impl_item"@ {
        match (field_type(n, "type"@), syntax::field_child(n, "body"@)) {
            (Some(ty), Some(body)) => defs_below(
                body.children,
                file,
                mods,
                OwnerV::Impl { ty, of_trait: field_type(n, "trait"@) },
            ),
            _ => Seq::empty(),
        }
    } else if n.kind == "trait_item"@ {
        match (name, syntax::field_child(n, "body"@)) {
            (Some(name), Some(body)) => defs_below(
                body.children,
                file,
                mods,
                OwnerV::Trait(name),
            ),
            _ => Seq::empty(),
        }
    } else {
        Seq::empty()
    }
}

/// The definitions in the nodes of a container.
pub open spec fn defs_below(
    nodes: Seq<NodeV>,
    file: Seq<char>,
    mods: Seq<Seq<char>>,
    owner: OwnerV,
) -> Seq<DefV>
    decreases nodes, 0int,
{
    if nodes.len() == 0 {
        Seq::empty()
    } else {
        defs_below(nodes.drop_last(), file, mods, owner) + defs_of(
            nodes.last(),
            file,
            mods,
            owner,
        )
    }
}

/// The `impl Trait for Type` blocks in a node: the type and the trait of each.
pub open spec fn impls_of(n: NodeV) -> Seq<(Seq<char>, Seq<char>)>
    decreases n, 1int,
{
    let own = if n.kind == "impl_item"@ {
        match (field_type(n, "type"@), field_type(n, "trait"@)) {
            (Some(ty), Some(tr)) => seq![(ty, tr)],
            _ => Seq::empty(),
        }
    } else {
        Seq::empty()
    };
    own + impls_below(n.children)
}

/// The `impl Trait for Type` blocks in a list of nodes.
pub open spec fn impls_below(nodes: Seq<NodeV>) -> Seq<(Seq<char>, Seq<char>)>
    decreases nodes, 0int,
{
    if nodes.len() == 0 {
        Seq::empty()
    } else {
        impls_below(nodes.drop_last()) + impls_of(nodes.last())
    }
}

fn drop_to_src(dirs: &Vec<String>) -> (r: Vec<String>)
    ensures
        text::views(r@) == after_src(text::views(dirs@)),
{
    let ghost all = text::views(dirs@);
    let mut out: Vec<String> = Vec::new();
    let mut seen: bool = false;
    let mut i: usize = 0;
    assert(text::views(out@) =~= Seq::empty());
    while i < dirs.len()
        invariant
            i <= dirs@.len(),
            all == text::views(dirs@),
            seen == all.take(i as int).contains("src"@),
            text::views(out@) == after_src(all.take(i as int)),
        decreases dirs@.len() - i,
    {
        let ghost now = all.take(i + 1);
        assert(now.drop_last() =~= all.take(i as int));
        assert(now.last() == dirs@[i as int]@);
        assert(now.contains("src"@) <==> all.take(i as int).contains("src"@) || now.last()
            == "src"@) by {
            if all.take(i as int).contains("src"@) {
                let k = all.take(i as int).index_of("src"@);
                assert(now[k] == "src"@);
            }
            if now.last() == "src"@ {
                assert(now[i as int] == "src"@);
            }
            if now.contains("src"@) && now.last() != "src"@ {
                let k = now.index_of("src"@);
                assert(all.take(i as int)[k] == "src"@);
            }
        }
        if str_eq(dirs[i].as_str(), "src") {
            out = Vec::new();
            seen = true;
            assert(text::views(out@) =~= Seq::empty());
        } else if seen {
            push_string(&mut out, dirs[i].clone());
        }
        i += 1;
    }
    assert(all.take(i as int) =~= all);
    out
}

/// Module path implied by the file's location: components after the nearest
/// `src/` ancestor; `lib.rs`/`main.rs`/`mod.rs` contribute their directory
/// only. Heuristic — no Cargo workspace awareness.
pub fn file_module_path(file: &str) -> (r: Vec<String>)
    ensures
        text::views(r@) == modules_of(file@),
{
    let dirs: Vec<String> = dir_names(file);
    let mut mods: Vec<String> = drop_to_src(&dirs);
    if let Some(stem) = file_stem(file) {
        if !str_eq(stem.as_str(), "lib") && !str_eq(stem.as_str(), "main") && !str_eq(
            stem.as_str(),
            "mod",
        ) {
            push_string(&mut mods, stem);
        }
    }
    mods
}

/// Strip references and generics down to the base type name:
/// `&mut Foo<T>` → `Foo`, `mod::Foo` → `Foo`. Dispatch types name their
/// trait (`&dyn W` / `impl W` → `W`), and smart pointers are transparent
/// (`Box<dyn W>` → `W`, `Rc<Foo>` → `Foo`).
pub(crate) fn base_type(node: &Node) -> (r: Option<String>)
    ensures
        text::opt_view(r) == base_type_spec(node@),
    decreases node@,
{
    proof {
        syntax::lemma_field_child(node@, "type"@);
        syntax::lemma_field_child(node@, "trait"@);
        syntax::lemma_field_child(node@, "type_arguments"@);
    }
    if node.is("type_identifier") {
        Some(node.content())
    } else if node.is("generic_type") {
        let base: String = match node.child_by_field_name("type") {
            None => {
                return None;
            },
            Some(t) => match base_type(t) {
                None => {
                    return None;
                },
                Some(base) => base,
            },
        };
        if str_eq(base.as_str(), "Box") || str_eq(base.as_str(), "Rc") || str_eq(
            base.as_str(),
            "Arc",
        ) {
            if let Some(args) = node.child_by_field_name("type_arguments") {
                proof {
                    syntax::lemma_first_named(args@);
                }
                if let Some(a) = args.first_named_child() {
                    if let Some(inner) = base_type(a) {
                        return Some(inner);
                    }
                }
            }
        }
        Some(base)
    } else if node.is("reference_type") {
        match node.child_by_field_name("type") {
            Some(t) => base_type(t),
            None => None,
        }
    } else if node.is("dynamic_type") || node.is("abstract_type") {
        match node.child_by_field_name("trait") {
            Some(t) => base_type(t),
            None => None,
        }
    } else if node.is("scoped_type_identifier") {
        match node.child_by_field_name("name") {
            Some(t) => Some(t.content()),
            None => None,
        }
    } else {
        None
    }
}

/// The base name of the type in a field.
fn type_in_field(node: &Node, field: &str) -> (r: Option<String>)
    ensures
        text::opt_view(r) == field_type(node@, field@),
{
    match node.child_by_field_name(field) {
        Some(t) => base_type(t),
        None => None,
    }
}

/// The text of the node in the field `name`.
pub(crate) fn name_of(node: &Node) -> (r: Option<String>)
    ensures
        text::opt_view(r) == (match syntax::field_child(node@, "name"@) {
            Some(m) => Some(syntax::content(m)),
            None => None,
        }),
{
    match node.child_by_field_name("name") {
        Some(m) => Some(m.content()),
        None => None,
    }
}

/// Appends a definition.
pub(crate) fn push_def(out: &mut Vec<Def>, def: Def)
    ensures
        text::views(final(out)@) == text::views(old(out)@).push(def@),
{
    let ghost before = out@;
    out.push(def);
    assert(text::views(out@) =~= text::views(before).push(def@));
}

fn define_function(
    node: &Node,
    name: String,
    file: &str,
    mods: &Vec<String>,
    owner: Owner,
) -> (r: Def)
    ensures
        r@ == function_def(node@, name@, file@, text::views(mods@), owner@),
{
    let mut qualified: Vec<String> = clone_strings(mods);
    let receiver: Option<&str> = match owner {
        Owner::Free => None,
        Owner::Impl { ty, .. } => Some(ty),
        Owner::Trait(t) => Some(t),
    };
    if let Some(r) = receiver {
        push_string(&mut qualified, r.to_string());
    }
    push_string(&mut qualified, name.clone());
    let kind: DefKind = match owner {
        Owner::Free => DefKind::Function,
        Owner::Impl { ty, of_trait } => DefKind::Method {
            receiver: ty.to_string(),
            via_trait: match of_trait {
                Some(t) => Some(t.to_string()),
                None => None,
            },
        },
        Owner::Trait(t) => DefKind::Method { receiver: t.to_string(), via_trait: None },
    };
    // `-> Self` means the impl type
    let ret: Option<String> = match type_in_field(node, "return_type") {
        Some(t) => match receiver {
            Some(r) => if str_eq(t.as_str(), "Self") {
                Some(r.to_string())
            } else {
                Some(t)
            },
            None => Some(t),
        },
        None => None,
    };
    Def { name, qualified, kind, ret, id: DefId { file: file.to_string(), line: node.line() } }
}

fn define_signature(node: &Node, name: String, file: &str, mods: &Vec<String>, tr: &str) -> (r: Def)
    ensures
        r@ == signature_def(node@, name@, file@, text::views(mods@), tr@),
{
    let mut qualified: Vec<String> = clone_strings(mods);
    push_string(&mut qualified, tr.to_string());
    push_string(&mut qualified, name.clone());
    Def {
        name,
        qualified,
        kind: DefKind::InterfaceMethod { interface: tr.to_string() },
        ret: type_in_field(node, "return_type"),
        id: DefId { file: file.to_string(), line: node.line() },
    }
}

/// Appends the definitions in the children of a node.
fn walk_defs(node: &Node, file: &str, mods: &Vec<String>, owner: Owner, out: &mut Vec<Def>)
    ensures
        text::views(final(out)@) == text::views(old(out)@) + defs_below(
            node@.children,
            file@,
            text::views(mods@),
            owner@,
        ),
    decreases node@, 0int,
{
    let ghost all = node@.children;
    let ghost before = text::views(out@);
    let mut i: usize = 0;
    assert(text::views(out@) =~= before + defs_below(
        all.take(0),
        file@,
        text::views(mods@),
        owner@,
    ));
    while i < node.children.len()
        invariant
            i <= node.children@.len(),
            all == node@.children,
            text::views(out@) == before + defs_below(
                all.take(i as int),
                file@,
                text::views(mods@),
                owner@,
            ),
        decreases node.children@.len() - i,
    {
        let ghost done = defs_below(all.take(i as int), file@, text::views(mods@), owner@);
        assert(all.take(i + 1).drop_last() =~= all.take(i as int));
        assert(all.take(i + 1).last() == node.children@[i as int]@);
        assert(decreases_to!(node@ => node@.children[i as int]));
        walk_def(&node.children[i], file, mods, owner, out);
        assert(text::views(out@) =~= before + (done + defs_of(
            all[i as int],
            file@,
            text::views(mods@),
            owner@,
        )));
        i += 1;
    }
    assert(all.take(i as int) =~= all);
}

/// Appends the definitions in a node.
fn walk_def(child: &Node, file: &str, mods: &Vec<String>, owner: Owner, out: &mut Vec<Def>)
    ensures
        text::views(final(out)@) == text::views(old(out)@) + defs_of(
            child@,
            file@,
            text::views(mods@),
            owner@,
        ),
    decreases child@, 1int,
{
    let ghost before = text::views(out@);
    proof {
        syntax::lemma_field_child(child@, "body"@);
        assert(before + Seq::<DefV>::empty() =~= before);
    }
    let name: Option<String> = name_of(child);
    let body: Option<&Node> = child.child_by_field_name("body");
    if child.is("function_item") {
        if let Some(name) = name {
            let def: Def = define_function(child, name, file, mods, owner);
            let ghost view = def@;
            push_def(out, def);
            assert(text::views(out@) =~= before + seq![view]);
        }
        if let Some(body) = body {
            walk_defs(body, file, mods, Owner::Free, out);
            assert(text::views(out@) =~= before + defs_of(
                child@,
                file@,
                text::views(mods@),
                owner@,
            ));
        }
    } else if child.is("function_signature_item") {
        // bodyless trait method signature — a dispatch point
        if let (Owner::Trait(tr), Some(name)) = (owner, name) {
            let def: Def = define_signature(child, name, file, mods, tr);
            let ghost view = def@;
            push_def(out, def);
            assert(text::views(out@) =~= before + seq![view]);
        }
    } else if child.is("mod_item") {
        if let (Some(name), Some(body)) = (name, body) {
            let mut inner: Vec<String> = clone_strings(mods);
            push_string(&mut inner, name);
            walk_defs(body, file, &inner, Owner::Free, out);
        }
    } else if child.is("impl_item") {
        let ty: Option<String> = type_in_field(child, "type");
        let tr: Option<String> = type_in_field(child, "trait");
        if let (Some(ty), Some(body)) = (&ty, body) {
            let of_trait: Option<&str> = match &tr {
                Some(t) => Some(t.as_str()),
                None => None,
            };
            walk_defs(body, file, mods, Owner::Impl { ty: ty.as_str(), of_trait }, out);
        }
    } else if child.is("trait_item") {
        if let (Some(name), Some(body)) = (&name, body) {
            walk_defs(body, file, mods, Owner::Trait(name.as_str()), out);
        }
    }
}

/// `impl Trait for Type` blocks anywhere in the file (impls can sit inside
/// `mod`s or functions) — recorded even when the body is empty, so types
/// relying entirely on trait defaults still count as implementors.
fn walk_impls(node: &Node, out: &mut Vec<(String, String)>)
    ensures
        resolve::pairs_view(final(out)@) == resolve::pairs_view(old(out)@) + impls_of(node@),
    decreases node@,
{
    let ghost before = resolve::pairs_view(out@);
    let ghost own = if node@.kind == "impl_item"@ {
        match (field_type(node@, "type"@), field_type(node@, "trait"@)) {
            (Some(ty), Some(tr)) => seq![(ty, tr)],
            _ => Seq::empty(),
        }
    } else {
        Seq::empty()
    };
    if node.is("impl_item") {
        let ty: Option<String> = type_in_field(node, "type");
        let tr: Option<String> = type_in_field(node, "trait");
        if let (Some(ty), Some(tr)) = (ty, tr) {
            let ghost view = (ty@, tr@);
            out.push((ty, tr));
            assert(resolve::pairs_view(out@) =~= before.push(view));
        }
    }
    assert(resolve::pairs_view(out@) =~= before + own);
    let ghost all = node@.children;
    let mut i: usize = 0;
    assert(resolve::pairs_view(out@) =~= before + own + impls_below(all.take(0)));
    while i < node.children.len()
        invariant
            i <= node.children@.len(),
            all == node@.children,
            resolve::pairs_view(out@) == before + own + impls_below(all.take(i as int)),
        decreases node.children@.len() - i,
    {
        assert(all.take(i + 1).drop_last() =~= all.take(i as int));
        assert(all.take(i + 1).last() == node.children@[i as int]@);
        assert(decreases_to!(node@ => node@.children[i as int]));
        walk_impls(&node.children[i], out);
        assert(resolve::pairs_view(out@) =~= before + own + impls_below(all.take(i + 1)));
        i += 1;
    }
    assert(all.take(i as int) =~= all);
    assert(before + own + impls_below(all) =~= before + (own + impls_below(all)));
}

// ── File scope model ──────────────────────────────────────────────────────────

/// A path with one more segment; `crate`, `self` and `super` add none.
pub open spec fn with_segment(path: Seq<Seq<char>>, seg: Seq<char>) -> Seq<Seq<char>> {
    if resolve::is_segment(seg) {
        path.push(seg)
    } else {
        path
    }
}

/// A path with the segments of a (possibly scoped/generic) path node.
pub open spec fn with_path(n: NodeV, path: Seq<Seq<char>>) -> Seq<Seq<char>>
    decreases n,
{
    proof {
        syntax::lemma_field_child(n, "path"@);
        syntax::lemma_field_child(n, "type"@);
    }
    if n.kind == "scoped_identifier"@ || n.kind == "scoped_type_identifier"@ {
        let front = match syntax::field_child(n, "path"@) {
            Some(p) => with_path(p, path),
            None => path,
        };
        match syntax::field_child(n, "name"@) {
            Some(m) => with_segment(front, syntax::content(m)),
            None => front,
        }
    } else if n.kind == "generic_type"@ {
        match syntax::field_child(n, "type"@) {
            Some(t) => with_path(t, path),
            None => path,
        }
    } else if n.kind == "identifier"@ || n.kind == "type_identifier"@ || n.kind == "crate"@
        || n.kind == "self"@ || n.kind == "super"@ {
        with_segment(path, syntax::content(n))
    } else {
        path
    }
}

/// A path with the segments of the node in the field `path`.
pub open spec fn with_path_field(n: NodeV, path: Seq<Seq<char>>) -> Seq<Seq<char>> {
    match syntax::field_child(n, "path"@) {
        Some(p) => with_path(p, path),
        None => path,
    }
}

/// A scope in which a path is imported under a name.
pub open spec fn with_import(s: ScopeV, name: Seq<char>, path: Seq<Seq<char>>) -> ScopeV {
    ScopeV { imports: s.imports.insert(name, path), ..s }
}

/// A scope in which a path is imported under its last segment.
pub open spec fn with_last_import(s: ScopeV, path: Seq<Seq<char>>) -> ScopeV {
    if path.len() > 0 {
        with_import(s, path.last(), path)
    } else {
        s
    }
}

/// A scope with the imports of a `use` tree. `prefix` carries the segments of the lists
/// round it.
pub open spec fn with_use(n: NodeV, prefix: Seq<Seq<char>>, s: ScopeV) -> ScopeV
    decreases n, 1int,
{
    proof {
        syntax::lemma_field_child(n, "list"@);
    }
    if n.kind == "identifier"@ || n.kind == "crate"@ || n.kind == "self"@ || n.kind == "super"@ {
        with_last_import(s, with_segment(prefix, syntax::content(n)))
    } else if n.kind == "scoped_identifier"@ {
        with_last_import(s, with_path(n, prefix))
    } else if n.kind == "scoped_use_list"@ {
        match syntax::field_child(n, "list"@) {
            Some(list) => with_uses(list.children, with_path_field(n, prefix), s),
            None => s,
        }
    } else if n.kind == "use_list"@ {
        with_uses(n.children, prefix, s)
    } else if n.kind == "use_as_clause"@ {
        match syntax::field_child(n, "alias"@) {
            Some(alias) => with_import(s, syntax::content(alias), with_path_field(n, prefix)),
            None => s,
        }
    } else if n.kind == "use_wildcard"@ {
        let path = match syntax::first_named(n) {
            Some(p) => with_path(p, prefix),
            None => prefix,
        };
        ScopeV { globs: s.globs.push(path), ..s }
    } else {
        s
    }
}

/// A scope with the imports of the named ones among the nodes.
pub open spec fn with_uses(nodes: Seq<NodeV>, prefix: Seq<Seq<char>>, s: ScopeV) -> ScopeV
    decreases nodes, 0int,
{
    if nodes.len() == 0 {
        s
    } else {
        let init = with_uses(nodes.drop_last(), prefix, s);
        if nodes.last().named {
            with_use(nodes.last(), prefix, init)
        } else {
            init
        }
    }
}

/// The variable and the type of a parameter that has both.
pub open spec fn param_of(p: NodeV) -> Option<(Seq<char>, Seq<char>)> {
    if !p.named || p.kind != "parameter"@ {
        None
    } else {
        match (syntax::field_child(p, "pattern"@), field_type(p, "type"@)) {
            (Some(pat), Some(t)) => if pat.kind == "identifier"@ {
                Some((syntax::content(pat), t))
            } else {
                None
            },
            _ => None,
        }
    }
}

/// The variables and types of the parameters among the nodes.
pub open spec fn params_of(nodes: Seq<NodeV>) -> Seq<(Seq<char>, Seq<char>)>
    decreases nodes.len(),
{
    if nodes.len() == 0 {
        Seq::empty()
    } else {
        match param_of(nodes.last()) {
            Some(p) => params_of(nodes.drop_last()).push(p),
            None => params_of(nodes.drop_last()),
        }
    }
}

/// The traits that the named ones among the nodes name.
pub open spec fn traits_of(nodes: Seq<NodeV>) -> Seq<Seq<char>>
    decreases nodes.len(),
{
    if nodes.len() == 0 {
        Seq::empty()
    } else {
        let init = traits_of(nodes.drop_last());
        if nodes.last().named {
            match base_type_spec(nodes.last()) {
                Some(t) => init.push(t),
                None => init,
            }
        } else {
            init
        }
    }
}

/// Bounds with those of one more type parameter or predicate.
pub open spec fn with_bounds(
    m: Map<Seq<char>, Seq<Seq<char>>>,
    n: NodeV,
    name_field: Seq<char>,
) -> Map<Seq<char>, Seq<Seq<char>>> {
    match (syntax::field_child(n, name_field), syntax::field_child(n, "bounds"@)) {
        (Some(name), Some(bounds)) => {
            let traits = traits_of(bounds.children);
            let key = syntax::content(name);
            if traits.len() == 0 {
                m
            } else if m.contains_key(key) {
                m.insert(key, m[key] + traits)
            } else {
                m.insert(key, traits)
            }
        },
        _ => m,
    }
}

/// Bounds with those of the named nodes of a kind.
pub open spec fn with_all_bounds(
    m: Map<Seq<char>, Seq<Seq<char>>>,
    nodes: Seq<NodeV>,
    kind: Seq<char>,
    name_field: Seq<char>,
) -> Map<Seq<char>, Seq<Seq<char>>>
    decreases nodes.len(),
{
    if nodes.len() == 0 {
        m
    } else {
        let init = with_all_bounds(m, nodes.drop_last(), kind, name_field);
        if nodes.last().named && nodes.last().kind == kind {
            with_bounds(init, nodes.last(), name_field)
        } else {
            init
        }
    }
}

/// Bounds with those of the `where` clauses among the nodes.
pub open spec fn with_where_bounds(
    m: Map<Seq<char>, Seq<Seq<char>>>,
    nodes: Seq<NodeV>,
) -> Map<Seq<char>, Seq<Seq<char>>>
    decreases nodes.len(),
{
    if nodes.len() == 0 {
        m
    } else {
        let init = with_where_bounds(m, nodes.drop_last());
        if nodes.last().kind == "where_clause"@ {
            with_all_bounds(init, nodes.last().children, "where_predicate"@, "left"@)
        } else {
            init
        }
    }
}

/// The trait bounds on the type parameters of a function: `fn f<T: W>(..)` and
/// `where T: W` both map T to W.
pub open spec fn bounds_of(n: NodeV) -> Map<Seq<char>, Seq<Seq<char>>> {
    let m = match syntax::field_child(n, "type_parameters"@) {
        Some(tps) => with_all_bounds(Map::empty(), tps.children, "type_parameter"@, "name"@),
        None => Map::empty(),
    };
    with_where_bounds(m, n.children)
}

/// The callee that a path is: none without a segment, a bare name with one.
pub open spec fn path_callee(segs: Seq<Seq<char>>) -> Option<CalleeV> {
    if segs.len() == 0 {
        None
    } else if segs.len() == 1 {
        Some(CalleeV::Bare(segs[0]))
    } else {
        Some(CalleeV::Path(segs))
    }
}

/// The callee that an expression is.
pub open spec fn callee_of(f: NodeV) -> Option<CalleeV>
    decreases f,
{
    proof {
        syntax::lemma_field_child(f, "function"@);
    }
    if f.kind == "identifier"@ {
        Some(CalleeV::Bare(syntax::content(f)))
    } else if f.kind == "scoped_identifier"@ {
        path_callee(with_path(f, Seq::empty()))
    } else if f.kind == "generic_function"@ {
        match syntax::field_child(f, "function"@) {
            Some(inner) => callee_of(inner),
            None => None,
        }
    } else if f.kind == "field_expression"@ {
        match (syntax::field_child(f, "field"@), syntax::field_child(f, "value"@)) {
            (Some(field), Some(value)) => Some(
                CalleeV::Method {
                    receiver: if value.kind == "self"@ {
                        ReceiverV::SelfRecv
                    } else if value.kind == "identifier"@ {
                        ReceiverV::Var(syntax::content(value))
                    } else {
                        ReceiverV::Opaque(text::first_line_spec(syntax::content(value)))
                    },
                    name: syntax::content(field),
                },
            ),
            _ => None,
        }
    } else {
        None
    }
}

/// The callee of a call.
pub open spec fn call_of(n: NodeV) -> Option<CalleeV> {
    match syntax::field_child(n, "function"@) {
        Some(f) => callee_of(f),
        None => None,
    }
}

/// What the value of a `let` binds its variable to.
pub open spec fn value_binding(value: NodeV) -> Option<BindingV> {
    if value.kind == "identifier"@ {
        Some(BindingV::FnValue(CalleeV::Bare(syntax::content(value))))
    } else if value.kind == "scoped_identifier"@ {
        match path_callee(with_path(value, Seq::empty())) {
            Some(c) => Some(BindingV::FnValue(c)),
            None => None,
        }
    } else if value.kind == "call_expression"@ {
        match call_of(value) {
            Some(c) => Some(BindingV::Call(c)),
            None => None,
        }
    } else if value.kind == "struct_expression"@ {
        match syntax::field_child(value, "name"@) {
            Some(name) => {
                let segs = with_path(name, Seq::empty());
                if segs.len() > 0 {
                    Some(BindingV::Typed(segs.last()))
                } else {
                    None
                }
            },
            None => None,
        }
    } else {
        None
    }
}

/// The variable that a `let` binds, and to what.
pub open spec fn let_binding(n: NodeV) -> Option<(Seq<char>, BindingV)> {
    match syntax::field_child(n, "pattern"@) {
        Some(pat) => if pat.kind == "identifier"@ {
            match field_type(n, "type"@) {
                Some(t) => Some((syntax::content(pat), BindingV::Typed(t))),
                None => match syntax::field_child(n, "value"@) {
                    Some(value) => match value_binding(value) {
                        Some(b) => Some((syntax::content(pat), b)),
                        None => None,
                    },
                    None => None,
                },
            }
        } else {
            None
        },
        None => None,
    }
}

/// The scope of a function before its body is read.
pub open spec fn fn_scope(
    n: NodeV,
    impl_type: Option<Seq<char>>,
    trait_name: Option<Seq<char>>,
) -> FnScopeV {
    FnScopeV {
        line: syntax::line_of(n.start_row),
        impl_type,
        trait_name,
        params: match syntax::field_child(n, "parameters"@) {
            Some(ps) => params_of(ps.children),
            None => Seq::empty(),
        },
        bounds: bounds_of(n),
        bindings: Seq::empty(),
        calls: Seq::empty(),
    }
}

/// A scope with what a node brings into it. `f` is the function that the node stands in,
/// `impl_type` and `trait_name` say of which impl or trait.
pub open spec fn with_node(
    n: NodeV,
    s: ScopeV,
    f: Option<nat>,
    impl_type: Option<Seq<char>>,
    trait_name: Option<Seq<char>>,
) -> ScopeV
    decreases n, 1int,
{
    proof {
        syntax::lemma_field_child(n, "body"@);
    }
    let line = syntax::line_of(n.start_row);
    if n.kind == "use_declaration"@ {
        match syntax::field_child(n, "argument"@) {
            Some(arg) => with_use(arg, Seq::empty(), s),
            None => s,
        }
    } else if n.kind == "impl_item"@ {
        match syntax::field_child(n, "body"@) {
            Some(body) => with_nodes(
                body.children,
                s,
                f,
                field_type(n, "type"@),
                field_type(n, "trait"@),
            ),
            None => s,
        }
    } else if n.kind == "trait_item"@ {
        let name = match syntax::field_child(n, "name"@) {
            Some(m) => Some(syntax::content(m)),
            None => None,
        };
        match syntax::field_child(n, "body"@) {
            Some(body) => with_nodes(body.children, s, f, name, None),
            None => s,
        }
    } else if n.kind == "function_item"@ {
        let s1 = ScopeV { fns: s.fns.push(fn_scope(n, impl_type, trait_name)), ..s };
        match syntax::field_child(n, "body"@) {
            Some(body) => with_nodes(
                body.children,
                s1,
                Some(s.fns.len()),
                impl_type,
                trait_name,
            ),
            None => s1,
        }
    } else if n.kind == "let_declaration"@ {
        let s1 = scope::with_binding(s, f, line, let_binding(n));
        with_nodes(n.children, s1, f, impl_type, trait_name)
    } else if n.kind == "call_expression"@ {
        let s1 = scope::with_call(s, f, line, call_of(n));
        with_nodes(n.children, s1, f, impl_type, trait_name)
    } else {
        with_nodes(n.children, s, f, impl_type, trait_name)
    }
}

/// A scope with what the nodes bring into it.
pub open spec fn with_nodes(
    nodes: Seq<NodeV>,
    s: ScopeV,
    f: Option<nat>,
    impl_type: Option<Seq<char>>,
    trait_name: Option<Seq<char>>,
) -> ScopeV
    decreases nodes, 0int,
{
    if nodes.len() == 0 {
        s
    } else {
        with_node(
            nodes.last(),
            with_nodes(nodes.drop_last(), s, f, impl_type, trait_name),
            f,
            impl_type,
            trait_name,
        )
    }
}

/// The scope of a file.
pub open spec fn file_scope(root: NodeV) -> ScopeV {
    with_node(root, scope::empty_scope(), None, None, None)
}

fn push_seg(out: &mut Vec<String>, seg: String)
    ensures
        text::views(final(out)@) == with_segment(text::views(old(out)@), seg@),
{
    let s: &str = seg.as_str();
    if !s.is_empty() && !str_eq(s, "crate") && !str_eq(s, "self") && !str_eq(s, "super") {
        push_string(out, seg);
    }
}

/// Flatten a (possibly scoped/generic) path node into segments, dropping
/// `crate`/`self`/`super` and turbofish type arguments.
fn flatten_path(node: &Node, out: &mut Vec<String>)
    ensures
        text::views(final(out)@) == with_path(node@, text::views(old(out)@)),
    decreases node@,
{
    proof {
        syntax::lemma_field_child(node@, "path"@);
        syntax::lemma_field_child(node@, "type"@);
    }
    if node.is("scoped_identifier") || node.is("scoped_type_identifier") {
        if let Some(p) = node.child_by_field_name("path") {
            flatten_path(p, out);
        }
        if let Some(n) = node.child_by_field_name("name") {
            push_seg(out, n.content());
        }
    } else if node.is("generic_type") {
        if let Some(t) = node.child_by_field_name("type") {
            flatten_path(t, out);
        }
    } else if node.is("identifier") || node.is("type_identifier") || node.is("crate") || node.is(
        "self",
    ) || node.is("super") {
        push_seg(out, node.content());
    }
}

/// The segments of a path node.
fn path_of(node: &Node) -> (r: Vec<String>)
    ensures
        text::views(r@) == with_path(node@, Seq::empty()),
{
    let mut segs: Vec<String> = Vec::new();
    assert(text::views(segs@) =~= Seq::empty());
    flatten_path(node, &mut segs);
    segs
}

/// A prefix with the segments of the node in the field `path`.
fn extend_path(node: &Node, prefix: &Vec<String>) -> (r: Vec<String>)
    ensures
        text::views(r@) == with_path_field(node@, text::views(prefix@)),
{
    let mut path: Vec<String> = clone_strings(prefix);
    if let Some(p) = node.child_by_field_name("path") {
        flatten_path(p, &mut path);
    }
    path
}

/// Imports a path under its last segment.
fn import_last(s: &mut FileScope, path: Vec<String>)
    ensures
        final(s)@ == with_last_import(old(s)@, text::views(path@)),
        final(s).fns == old(s).fns,
{
    if path.len() > 0 {
        let last: String = path[path.len() - 1].clone();
        assert(text::views(path@).last() == last@);
        s.imports.insert(last, path);
    }
}

/// Recursively collect `use` trees into the import map / glob list.
/// `prefix` carries path segments accumulated from enclosing scoped lists.
fn collect_use(node: &Node, prefix: &Vec<String>, s: &mut FileScope)
    ensures
        final(s)@ == with_use(node@, text::views(prefix@), old(s)@),
        final(s).fns == old(s).fns,
    decreases node@, 1int,
{
    proof {
        syntax::lemma_field_child(node@, "list"@);
    }
    if node.is("identifier") || node.is("crate") || node.is("self") || node.is("super") {
        let mut path: Vec<String> = clone_strings(prefix);
        push_seg(&mut path, node.content());
        import_last(s, path);
    } else if node.is("scoped_identifier") {
        let mut path: Vec<String> = clone_strings(prefix);
        flatten_path(node, &mut path);
        import_last(s, path);
    } else if node.is("scoped_use_list") {
        let path: Vec<String> = extend_path(node, prefix);
        if let Some(list) = node.child_by_field_name("list") {
            collect_uses(list, &path, s);
        }
    } else if node.is("use_list") {
        collect_uses(node, prefix, s);
    } else if node.is("use_as_clause") {
        let path: Vec<String> = extend_path(node, prefix);
        if let Some(alias) = node.child_by_field_name("alias") {
            s.imports.insert(alias.content(), path);
        }
    } else if node.is("use_wildcard") {
        let mut path: Vec<String> = clone_strings(prefix);
        if let Some(p) = node.first_named_child() {
            flatten_path(p, &mut path);
        }
        s.push_glob(path);
    }
}

/// Collects the `use` trees of the named children of a node.
fn collect_uses(node: &Node, prefix: &Vec<String>, s: &mut FileScope)
    ensures
        final(s)@ == with_uses(node@.children, text::views(prefix@), old(s)@),
        final(s).fns == old(s).fns,
    decreases node@, 0int,
{
    let ghost all = node@.children;
    let mut i: usize = 0;
    while i < node.children.len()
        invariant
            i <= node.children@.len(),
            all == node@.children,
            s@ == with_uses(all.take(i as int), text::views(prefix@), old(s)@),
            s.fns == old(s).fns,
        decreases node.children@.len() - i,
    {
        assert(all.take(i + 1).drop_last() =~= all.take(i as int));
        assert(all.take(i + 1).last() == node.children@[i as int]@);
        assert(decreases_to!(node@ => node@.children[i as int]));
        if node.children[i].named {
            collect_use(&node.children[i], prefix, s);
        }
        i += 1;
    }
    assert(all.take(i as int) =~= all);
}

fn collect_params(fn_node: &Node) -> (r: Vec<(String, String)>)
    ensures
        resolve::pairs_view(r@) == (match syntax::field_child(fn_node@, "parameters"@) {
            Some(ps) => params_of(ps.children),
            None => Seq::empty(),
        }),
{
    let mut out: Vec<(String, String)> = Vec::new();
    assert(resolve::pairs_view(out@) =~= Seq::empty());
    if let Some(params) = fn_node.child_by_field_name("parameters") {
        let ghost all = params@.children;
        let mut i: usize = 0;
        while i < params.children.len()
            invariant
                i <= params.children@.len(),
                all == params@.children,
                resolve::pairs_view(out@) == params_of(all.take(i as int)),
            decreases params.children@.len() - i,
        {
            let p: &Node = &params.children[i];
            let ghost before = resolve::pairs_view(out@);
            assert(all.take(i + 1).drop_last() =~= all.take(i as int));
            assert(all.take(i + 1).last() == p@);
            if p.named && p.is("parameter") {
                if let (Some(pat), Some(t)) = (
                    p.child_by_field_name("pattern"),
                    type_in_field(p, "type"),
                ) {
                    if pat.is("identifier") {
                        out.push((pat.content(), t));
                        assert(resolve::pairs_view(out@) =~= before.push(
                            (syntax::content(pat@), t@),
                        ));
                    }
                }
            }
            i += 1;
        }
        assert(all.take(i as int) =~= all);
    }
    out
}

fn collect_traits(bounds: &Node) -> (r: Vec<String>)
    ensures
        text::views(r@) == traits_of(bounds@.children),
{
    let ghost all = bounds@.children;
    let mut out: Vec<String> = Vec::new();
    let mut i: usize = 0;
    assert(text::views(out@) =~= Seq::empty());
    while i < bounds.children.len()
        invariant
            i <= bounds.children@.len(),
            all == bounds@.children,
            text::views(out@) == traits_of(all.take(i as int)),
        decreases bounds.children@.len() - i,
    {
        assert(all.take(i + 1).drop_last() =~= all.take(i as int));
        assert(all.take(i + 1).last() == bounds.children@[i as int]@);
        if bounds.children[i].named {
            if let Some(t) = base_type(&bounds.children[i]) {
                push_string(&mut out, t);
            }
        }
        i += 1;
    }
    assert(all.take(i as int) =~= all);
    out
}

fn add_bounds(m: &mut NameMap, node: &Node, name_field: &str)
    ensures
        final(m)@ == with_bounds(old(m)@, node@, name_field@),
{
    if let (Some(name), Some(bounds)) = (
        node.child_by_field_name(name_field),
        node.child_by_field_name("bounds"),
    ) {
        let mut traits: Vec<String> = collect_traits(bounds);
        let key: String = name.content();
        let ghost found = text::views(traits@);
        if traits.len() > 0 {
            let mut list: Vec<String> = match m.get(key.as_str()) {
                Some(v) => clone_strings(v),
                None => Vec::new(),
            };
            let ghost before = list@;
            list.append(&mut traits);
            assert(text::views(list@) =~= text::views(before) + found);
            assert(text::views(Seq::<String>::empty()) + found =~= found);
            m.insert(key, list);
        }
    }
}

fn add_all_bounds(m: &mut NameMap, node: &Node, kind: &str, name_field: &str)
    ensures
        final(m)@ == with_all_bounds(old(m)@, node@.children, kind@, name_field@),
{
    let ghost all = node@.children;
    let mut i: usize = 0;
    while i < node.children.len()
        invariant
            i <= node.children@.len(),
            all == node@.children,
            m@ == with_all_bounds(old(m)@, all.take(i as int), kind@, name_field@),
        decreases node.children@.len() - i,
    {
        assert(all.take(i + 1).drop_last() =~= all.take(i as int));
        assert(all.take(i + 1).last() == node.children@[i as int]@);
        if node.children[i].named && node.children[i].is(kind) {
            add_bounds(m, &node.children[i], name_field);
        }
        i += 1;
    }
    assert(all.take(i as int) =~= all);
}

/// Trait bounds on a function's type parameters: `fn f<T: W>(..)` and
/// `where T: W` both map T → [W].
fn collect_bounds(fn_node: &Node) -> (r: NameMap)
    ensures
        r@ == bounds_of(fn_node@),
{
    let mut m: NameMap = NameMap::new();
    if let Some(tps) = fn_node.child_by_field_name("type_parameters") {
        add_all_bounds(&mut m, tps, "type_parameter", "name");
    }
    // where_clause is a plain child, not a field
    let ghost start = m@;
    let ghost all = fn_node@.children;
    let mut i: usize = 0;
    while i < fn_node.children.len()
        invariant
            i <= fn_node.children@.len(),
            all == fn_node@.children,
            m@ == with_where_bounds(start, all.take(i as int)),
        decreases fn_node.children@.len() - i,
    {
        assert(all.take(i + 1).drop_last() =~= all.take(i as int));
        assert(all.take(i + 1).last() == fn_node.children@[i as int]@);
        if fn_node.children[i].is("where_clause") {
            add_all_bounds(&mut m, &fn_node.children[i], "where_predicate", "left");
        }
        i += 1;
    }
    assert(all.take(i as int) =~= all);
    m
}

/// The callee that a path is.
fn callee_from_path(segs: Vec<String>) -> (r: Option<Callee>)
    ensures
        text::opt_view(r) == path_callee(text::views(segs@)),
{
    if segs.len() == 0 {
        None
    } else if segs.len() == 1 {
        assert(text::views(segs@)[0] == segs@[0]@);
        Some(Callee::Bare(segs[0].clone()))
    } else {
        Some(Callee::Path(segs))
    }
}

fn classify_callee_expr(f: &Node) -> (r: Option<Callee>)
    ensures
        text::opt_view(r) == callee_of(f@),
    decreases f@,
{
    proof {
        syntax::lemma_field_child(f@, "function"@);
    }
    if f.is("identifier") {
        Some(Callee::Bare(f.content()))
    } else if f.is("scoped_identifier") {
        callee_from_path(path_of(f))
    } else if f.is("generic_function") {
        // `foo::<T>()` — turbofish directly on the function
        match f.child_by_field_name("function") {
            Some(inner) => classify_callee_expr(inner),
            None => None,
        }
    } else if f.is("field_expression") {
        match (f.child_by_field_name("field"), f.child_by_field_name("value")) {
            (Some(field), Some(value)) => {
                let receiver: Receiver = if value.is("self") {
                    Receiver::SelfRecv
                } else if value.is("identifier") {
                    Receiver::Var(value.content())
                } else {
                    Receiver::Opaque(text::first_line(value.content().as_str()))
                };
                Some(Callee::Method { receiver, name: field.content() })
            },
            _ => None,
        }
    } else {
        None
    }
}

fn classify_call(node: &Node) -> (r: Option<Callee>)
    ensures
        text::opt_view(r) == call_of(node@),
{
    match node.child_by_field_name("function") {
        Some(f) => classify_callee_expr(f),
        None => None,
    }
}

fn classify_value(value: &Node) -> (r: Option<Binding>)
    ensures
        text::opt_view(r) == value_binding(value@),
{
    if value.is("identifier") {
        Some(Binding::FnValue(Callee::Bare(value.content())))
    } else if value.is("scoped_identifier") {
        match callee_from_path(path_of(value)) {
            Some(c) => Some(Binding::FnValue(c)),
            None => None,
        }
    } else if value.is("call_expression") {
        // `let x = make();` — callee return type looked up at resolve time
        match classify_call(value) {
            Some(c) => Some(Binding::Call(c)),
            None => None,
        }
    } else if value.is("struct_expression") {
        match value.child_by_field_name("name") {
            Some(name) => {
                let segs: Vec<String> = path_of(name);
                if segs.len() > 0 {
                    assert(text::views(segs@).last() == segs@[segs@.len() - 1]@);
                    Some(Binding::Typed(segs[segs.len() - 1].clone()))
                } else {
                    None
                }
            },
            None => None,
        }
    } else {
        None
    }
}

fn classify_let(node: &Node) -> (r: Option<(String, Binding)>)
    ensures
        (match r {
            Some((var, b)) => Some((var@, b@)),
            None => None,
        }) == let_binding(node@),
{
    let pat: &Node = match node.child_by_field_name("pattern") {
        Some(p) => p,
        None => {
            return None;
        },
    };
    if !pat.is("identifier") {
        return None;
    }
    if let Some(t) = type_in_field(node, "type") {
        return Some((pat.content(), Binding::Typed(t)));
    }
    match node.child_by_field_name("value") {
        Some(value) => match classify_value(value) {
            Some(b) => Some((pat.content(), b)),
            None => None,
        },
        None => None,
    }
}

fn open_fn(node: &Node, impl_type: &Option<String>, trait_name: &Option<String>) -> (r: FnScope)
    ensures
        r@ == fn_scope(node@, text::opt_view(*impl_type), text::opt_view(*trait_name)),
{
    let r = FnScope {
        line: node.line(),
        impl_type: text::clone_opt(impl_type),
        trait_name: text::clone_opt(trait_name),
        params: collect_params(node),
        bounds: collect_bounds(node),
        bindings: Vec::new(),
        calls: Vec::new(),
    };
    assert(r@.bindings =~= Seq::empty());
    assert(r@.calls =~= Seq::empty());
    r
}

/// The function in which a node stands, as a number.
spec fn fn_at(f: Option<usize>) -> Option<nat> {
    match f {
        Some(i) => Some(i as nat),
        None => None,
    }
}

fn walk_scope(
    node: &Node,
    s: &mut FileScope,
    f: Option<usize>,
    impl_type: &Option<String>,
    trait_name: &Option<String>,
)
    requires
        f matches Some(i) ==> i < old(s).fns@.len(),
    ensures
        final(s)@ == with_node(
            node@,
            old(s)@,
            fn_at(f),
            text::opt_view(*impl_type),
            text::opt_view(*trait_name),
        ),
        final(s).fns@.len() >= old(s).fns@.len(),
    decreases node@, 1int,
{
    proof {
        syntax::lemma_field_child(node@, "body"@);
    }
    if node.is("use_declaration") {
        if let Some(arg) = node.child_by_field_name("argument") {
            let none: Vec<String> = Vec::new();
            assert(text::views(none@) =~= Seq::empty());
            collect_use(arg, &none, s);
        }
        return;
    }
    if node.is("impl_item") {
        if let Some(body) = node.child_by_field_name("body") {
            let ty: Option<String> = type_in_field(node, "type");
            let tr: Option<String> = type_in_field(node, "trait");
            walk_children(body, s, f, &ty, &tr);
        }
        return;
    }
    if node.is("trait_item") {
        if let Some(body) = node.child_by_field_name("body") {
            walk_children(body, s, f, &name_of(node), &None);
        }
        return;
    }
    if node.is("function_item") {
        let idx: usize = s.fns.len();
        assert(s@.fns.len() == idx);
        s.push_fn(open_fn(node, impl_type, trait_name));
        if let Some(body) = node.child_by_field_name("body") {
            walk_children(body, s, Some(idx), impl_type, trait_name);
        }
        return;
    }
    if node.is("let_declaration") {
        if let Some(i) = f {
            if let Some((var, b)) = classify_let(node) {
                s.push_binding(i, node.line(), var, b);
            }
        }
        // the value expression may contain calls
    } else if node.is("call_expression") {
        if let Some(i) = f {
            if let Some(c) = classify_call(node) {
                s.push_call(i, node.line(), c);
            }
        }
        // arguments and receivers may contain calls
    }
    walk_children(node, s, f, impl_type, trait_name);
}

fn walk_children(
    node: &Node,
    s: &mut FileScope,
    f: Option<usize>,
    impl_type: &Option<String>,
    trait_name: &Option<String>,
)
    requires
        f matches Some(i) ==> i < old(s).fns@.len(),
    ensures
        final(s)@ == with_nodes(
            node@.children,
            old(s)@,
            fn_at(f),
            text::opt_view(*impl_type),
            text::opt_view(*trait_name),
        ),
        final(s).fns@.len() >= old(s).fns@.len(),
    decreases node@, 0int,
{
    let ghost all = node@.children;
    let mut i: usize = 0;
    while i < node.children.len()
        invariant
            i <= node.children@.len(),
            all == node@.children,
            f matches Some(k) ==> k < s.fns@.len(),
            s@ == with_nodes(
                all.take(i as int),
                old(s)@,
                fn_at(f),
                text::opt_view(*impl_type),
                text::opt_view(*trait_name),
            ),
            s.fns@.len() >= old(s).fns@.len(),
        decreases node.children@.len() - i,
    {
        assert(all.take(i + 1).drop_last() =~= all.take(i as int));
        assert(all.take(i + 1).last() == node.children@[i as int]@);
        assert(decreases_to!(node@ => node@.children[i as int]));
        walk_scope(&node.children[i], s, f, impl_type, trait_name);
        i += 1;
    }
    assert(all.take(i as int) =~= all);
}

/// The scope of a file.
pub fn build_scope(root: &Node) -> (r: FileScope)
    ensures
        r@ == file_scope(root@),
{
    let mut s: FileScope = FileScope::empty();
    walk_scope(root, &mut s, None, &None, &None);
    s
}

// ── Resolution ────────────────────────────────────────────────────────────────

/// The file and the function that a call stands in, and what it is resolved against.
pub struct Ctx<'a> {
    pub file: &'a str,
    pub scope: &'a FileScope,
    pub fun: &'a FnScope,
    pub index: &'a DefIndex,
}

/// View of a [`Ctx`].
#[verifier::ext_equal]
pub struct CtxV {
    pub file: Seq<char>,
    pub scope: ScopeV,
    pub fun: FnScopeV,
    pub index: IndexV,
}

impl<'a> View for Ctx<'a> {
    type V = CtxV;

    open spec fn view(&self) -> CtxV {
        CtxV { file: self.file@, scope: self.scope@, fun: self.fun@, index: self.index@ }
    }
}

/// How far value bindings are followed.
pub const MAX_BINDING_DEPTH: usize = 4;

/// The path without its last segment.
pub open spec fn front(q: Seq<Seq<char>>) -> Seq<Seq<char>> {
    if q.len() > 0 {
        q.drop_last()
    } else {
        q
    }
}

/// Whether a definition, or its containing module, is in reach through the imports or
/// globs of a file.
pub open spec fn imported(s: ScopeV, d: DefV) -> bool {
    let q = d.qualified;
    ||| exists|k: Seq<char>| #[trigger]
        s.imports.contains_key(k) && (text::has_suffix(q, s.imports[k]) || text::has_suffix(
            front(q),
            s.imports[k],
        ))
    ||| exists|i: int| 0 <= i < s.globs.len() && #[trigger] text::has_suffix(front(q), s.globs[i])
}

/// What is in reach of a context.
pub open spec fn reach_of(s: ScopeV) -> spec_fn(DefV) -> bool {
    |d: DefV| imported(s, d)
}

/// The candidate that is picked in a context.
pub open spec fn pick_ranked(
    cands: Seq<usize>,
    prefer_methods: bool,
    ctx: CtxV,
) -> Option<(usize, Confidence)> {
    scope::ranked(ctx.index.defs, cands, prefer_methods, ctx.file, reach_of(ctx.scope))
}

/// The methods of a type with a name.
pub open spec fn method_of(ty: Seq<char>, name: Seq<char>, ctx: CtxV) -> Option<
    (usize, Confidence),
> {
    let defs = ctx.index.defs;
    pick_ranked(
        resolve::positions(defs, name).filter(|i: usize| scope::is_method_of(defs[i as int], ty)),
        true,
        ctx,
    )
}

/// Whether a definition is the default method of a trait.
pub open spec fn is_default_of(d: DefV, tr: Seq<char>) -> bool {
    match d.kind {
        DefKindV::Method { receiver, via_trait } => via_trait is None && receiver == tr,
        _ => false,
    }
}

/// Whether a definition is what the `impl` of a trait for a type defines.
pub open spec fn is_override_of(d: DefV, ty: Seq<char>, tr: Seq<char>) -> bool {
    match d.kind {
        DefKindV::Method { receiver, via_trait } => receiver == ty && via_trait == Some(tr),
        _ => false,
    }
}

/// The method that a type has for a call through a trait: the one that its `impl` of the
/// trait defines, or else the default.
pub open spec fn dispatch_target(
    defs: Seq<DefV>,
    cands: Seq<usize>,
    ty: Seq<char>,
    tr: Seq<char>,
) -> Option<usize> {
    match order::first_where(cands, |i: usize| is_override_of(defs[i as int], ty, tr)) {
        Some(i) => Some(i),
        None => order::first_where(cands, |i: usize| is_default_of(defs[i as int], tr)),
    }
}

/// The methods that the types with an `impl` of a trait have for a call through it.
pub open spec fn dispatch_targets(
    defs: Seq<DefV>,
    cands: Seq<usize>,
    impls: Seq<(Seq<char>, Seq<char>)>,
    tr: Seq<char>,
) -> Seq<usize>
    decreases impls.len(),
{
    if impls.len() == 0 {
        Seq::empty()
    } else {
        let init = dispatch_targets(defs, cands, impls.drop_last(), tr);
        if impls.last().1 == tr {
            match dispatch_target(defs, cands, impls.last().0, tr) {
                Some(i) => init.push(i),
                None => init,
            }
        } else {
            init
        }
    }
}

/// Whether a trait has an `impl`.
pub open spec fn has_impl(impls: Seq<(Seq<char>, Seq<char>)>, tr: Seq<char>) -> bool {
    exists|i: int| 0 <= i < impls.len() && (#[trigger] impls[i]).1 == tr
}

/// The targets of a call through a trait: for each type with an `impl` of it the method that
/// the `impl` defines, or else the default of the trait; without any `impl`, the signature.
pub open spec fn dispatched(tr: Seq<char>, name: Seq<char>, ctx: CtxV) -> Seq<
    (usize, Confidence),
> {
    let defs = ctx.index.defs;
    let cands = resolve::positions(defs, name);
    if cands.filter(
        |i: usize| scope::is_signature_of(defs[i as int], tr) || is_default_of(defs[i as int], tr),
    ).len() == 0 {
        Seq::empty()
    } else if !has_impl(ctx.index.impls, tr) {
        match order::first_where(cands, |i: usize| scope::is_signature_of(defs[i as int], tr)) {
            Some(i) => seq![(i, Confidence::Exact)],
            None => Seq::empty(),
        }
    } else {
        let targets = dispatch_targets(defs, cands, ctx.index.impls, tr);
        resolve::graded(
            order::stable_sort(
                order::no_repeats(order::stable_sort(targets, order::numeric())),
                resolve::by_place(defs),
            ),
        )
    }
}

/// The targets of a method call on a type: those of a call through it, if it is a trait,
/// or else its method.
pub open spec fn dispatched_or_method(ty: Seq<char>, name: Seq<char>, ctx: CtxV) -> Seq<
    (usize, Confidence),
> {
    if dispatched(ty, name, ctx).len() > 0 {
        dispatched(ty, name, ctx)
    } else {
        scope::at_most_one(method_of(ty, name, ctx))
    }
}

/// The targets of a method call on the first of the bounds, from `k` on, that has any.
pub open spec fn bounds_targets(
    bounds: Seq<Seq<char>>,
    k: nat,
    name: Seq<char>,
    ctx: CtxV,
) -> Seq<(usize, Confidence)>
    decreases bounds.len() - k,
{
    if k >= bounds.len() {
        Seq::empty()
    } else if dispatched_or_method(bounds[k as int], name, ctx).len() > 0 {
        dispatched_or_method(bounds[k as int], name, ctx)
    } else {
        bounds_targets(bounds, k + 1, name, ctx)
    }
}

/// A path with its first segment replaced by what it is imported as.
pub open spec fn expanded(segs: Seq<Seq<char>>, s: ScopeV) -> Seq<Seq<char>> {
    if segs.len() > 0 && s.imports.contains_key(segs[0]) {
        s.imports[segs[0]] + segs.drop_first()
    } else {
        segs
    }
}

/// The definition that a path leads to: one whose qualified path ends in it. A path that
/// matches nothing is external.
pub open spec fn path_target(segs: Seq<Seq<char>>, ctx: CtxV) -> Option<(usize, Confidence)> {
    let defs = ctx.index.defs;
    let path = expanded(segs, ctx.scope);
    if path.len() == 0 {
        None
    } else {
        pick_ranked(
            resolve::positions(defs, path.last()).filter(
                |i: usize| text::has_suffix(defs[i as int].qualified, path),
            ),
            false,
            ctx,
        )
    }
}

/// The free functions of the file among the candidates.
pub open spec fn in_file(cands: Seq<usize>, ctx: CtxV) -> Seq<usize> {
    cands.filter(
        |i: usize|
            ctx.index.defs[i as int].id.file == ctx.file && ctx.index.defs[i as int].kind
                == DefKindV::Function,
    )
}

/// The definitions that an import leads to.
pub open spec fn through_import(name: Seq<char>, ctx: CtxV) -> Seq<usize> {
    let defs = ctx.index.defs;
    if ctx.scope.imports.contains_key(name) {
        let path = ctx.scope.imports[name];
        let target = if path.len() > 0 {
            path.last()
        } else {
            name
        };
        resolve::positions(defs, target).filter(
            |i: usize| text::has_suffix(defs[i as int].qualified, path),
        )
    } else {
        Seq::empty()
    }
}

/// Whether a definition is in a module of which everything is imported.
pub open spec fn in_glob(q: Seq<Seq<char>>, name: Seq<char>, globs: Seq<Seq<Seq<char>>>) -> bool {
    exists|i: int|
        0 <= i < globs.len() && q.len() > (#[trigger] globs[i]).len() && text::has_suffix(
            q.drop_last(),
            globs[i],
        ) && q.last() == name
}

/// The candidates that the globs lead to.
pub open spec fn through_globs(cands: Seq<usize>, name: Seq<char>, ctx: CtxV) -> Seq<usize> {
    cands.filter(
        |i: usize| in_glob(ctx.index.defs[i as int].qualified, name, ctx.scope.globs),
    )
}

/// The candidates for a bare name that is bound to no function value: those of the file,
/// or else of the imports, or else of the globs, or else all.
pub open spec fn bare_candidates(name: Seq<char>, ctx: CtxV) -> Seq<usize> {
    let cands = resolve::positions(ctx.index.defs, name);
    if in_file(cands, ctx).len() > 0 {
        in_file(cands, ctx)
    } else if through_import(name, ctx).len() > 0 {
        through_import(name, ctx)
    } else if through_globs(cands, name, ctx).len() > 0 {
        through_globs(cands, name, ctx)
    } else {
        cands
    }
}

/// The targets of a callee.
pub open spec fn targets(c: CalleeV, line: usize, depth: nat, ctx: CtxV) -> Seq<
    (usize, Confidence),
>
    decreases 5 - depth, 4int,
{
    if depth > MAX_BINDING_DEPTH {
        Seq::empty()
    } else {
        match c {
            CalleeV::Path(segs) => scope::at_most_one(path_target(segs, ctx)),
            CalleeV::Bare(name) => scope::at_most_one(bare_target(name, line, depth, ctx)),
            CalleeV::Method { receiver, name } => method_targets(
                receiver,
                name,
                line,
                depth,
                ctx,
            ),
        }
    }
}

/// The target of a bare name: that of the function value it is bound to, or else the best
/// candidate.
pub open spec fn bare_target(name: Seq<char>, line: usize, depth: nat, ctx: CtxV) -> Option<
    (usize, Confidence),
>
    decreases 5 - depth, 1int,
    when depth <= MAX_BINDING_DEPTH
{
    let bound = match scope::last_binding_spec(ctx.fun.bindings, name, line) {
        Some(BindingV::FnValue(inner)) => targets(inner, line, depth + 1, ctx),
        _ => Seq::empty(),
    };
    if bound.len() > 0 {
        Some(bound[0])
    } else {
        pick_ranked(bare_candidates(name, ctx), false, ctx)
    }
}

/// The type of a variable at a line: that of its last binding, or else of the parameter.
pub open spec fn type_of_var(var: Seq<char>, line: usize, depth: nat, ctx: CtxV) -> Option<
    Seq<char>,
>
    decreases 5 - depth, 1int,
    when depth <= MAX_BINDING_DEPTH
{
    match scope::last_binding_spec(ctx.fun.bindings, var, line) {
        Some(BindingV::Typed(t)) => Some(t),
        Some(BindingV::Call(callee)) => {
            let hits = targets(callee, line, depth + 1, ctx);
            if hits.len() > 0 && ctx.index.defs[hits[0].0 as int].ret is Some {
                ctx.index.defs[hits[0].0 as int].ret
            } else {
                constructed_type(callee)
            }
        },
        _ => scope::param_type_spec(ctx.fun.params, var),
    }
}

/// The type that a call of an associated function makes, by its name: `Foo::new(..)` with
/// no resolvable definition still implies Foo.
pub open spec fn constructed_type(callee: CalleeV) -> Option<Seq<char>> {
    match callee {
        CalleeV::Path(segs) => if segs.len() >= 2 && text::capitalized(segs[segs.len() - 2]) {
            Some(segs[segs.len() - 2])
        } else {
            None
        },
        _ => None,
    }
}

/// The targets that the receiver of a method call leads to.
pub open spec fn receiver_targets(
    receiver: ReceiverV,
    name: Seq<char>,
    line: usize,
    depth: nat,
    ctx: CtxV,
) -> Seq<(usize, Confidence)>
    decreases 5 - depth, 2int,
    when depth <= MAX_BINDING_DEPTH
{
    match receiver {
        ReceiverV::SelfRecv => {
            let of_type = match ctx.fun.impl_type {
                Some(ty) => scope::at_most_one(method_of(ty, name, ctx)),
                None => Seq::empty(),
            };
            if of_type.len() > 0 {
                of_type
            } else {
                match ctx.fun.trait_name {
                    Some(tr) => scope::at_most_one(method_of(tr, name, ctx)),
                    None => Seq::empty(),
                }
            }
        },
        ReceiverV::Var(v) => match type_of_var(v, line, depth, ctx) {
            Some(ty) => if dispatched_or_method(ty, name, ctx).len() > 0 {
                dispatched_or_method(ty, name, ctx)
            } else if ctx.fun.bounds.contains_key(ty) {
                bounds_targets(ctx.fun.bounds[ty], 0, name, ctx)
            } else {
                Seq::empty()
            },
            None => Seq::empty(),
        },
        ReceiverV::Opaque(_) => Seq::empty(),
    }
}

/// The targets of a method call: those of its receiver, or else the best definition with
/// the name, methods first.
pub open spec fn method_targets(
    receiver: ReceiverV,
    name: Seq<char>,
    line: usize,
    depth: nat,
    ctx: CtxV,
) -> Seq<(usize, Confidence)>
    decreases 5 - depth, 3int,
    when depth <= MAX_BINDING_DEPTH
{
    let hits = receiver_targets(receiver, name, line, depth, ctx);
    if hits.len() > 0 {
        hits
    } else {
        scope::at_most_one(
            pick_ranked(resolve::positions(ctx.index.defs, name), true, ctx),
        )
    }
}

/// A path that no definition ends in is external: there is no fallback to the name alone,
/// so that `HashMap::new()` never leads to a `new` that is not of a `HashMap`.
pub proof fn law_unmatched_path_is_external(
    segs: Seq<Seq<char>>,
    line: usize,
    depth: nat,
    ctx: CtxV,
)
    requires
        ctx.index.defs.len() <= usize::MAX,
        forall|i: int|
            0 <= i < ctx.index.defs.len() ==> !text::has_suffix(
                (#[trigger] ctx.index.defs[i]).qualified,
                expanded(segs, ctx.scope),
            ),
    ensures
        targets(CalleeV::Path(segs), line, depth, ctx).len() == 0,
{
    broadcast use vstd::seq_lib::group_filter_ensures;

    let defs = ctx.index.defs;
    let path = expanded(segs, ctx.scope);
    if path.len() > 0 {
        let cands = resolve::positions(defs, path.last());
        let kept = cands.filter(|i: usize| text::has_suffix(defs[i as int].qualified, path));
        resolve::lemma_positions(defs, path.last());
        if kept.len() > 0 {
            assert(text::has_suffix(defs[kept[0] as int].qualified, path));
            resolve::lemma_filter_bound(
                cands,
                |i: usize| text::has_suffix(defs[i as int].qualified, path),
                defs.len(),
            );
        }
    }
}

/// What a path leads to is a definition that ends in it.
pub proof fn law_path_leads_to_its_end(segs: Seq<Seq<char>>, ctx: CtxV)
    ensures
        path_target(segs, ctx) matches Some((t, _)) ==> text::has_suffix(
            ctx.index.defs[t as int].qualified,
            expanded(segs, ctx.scope),
        ),
{
    broadcast use vstd::seq_lib::group_filter_ensures;

    let defs = ctx.index.defs;
    let path = expanded(segs, ctx.scope);
    if let Some((t, _)) = path_target(segs, ctx) {
        let p = |i: usize| text::has_suffix(defs[i as int].qualified, path);
        let kept = resolve::positions(defs, path.last()).filter(p);
        scope::law_rank_confidence(defs, kept, false, ctx.file, reach_of(ctx.scope));
        assert(p(kept[kept.index_of(t)]));
    }
}

/// Whether a definition is what a type with an `impl` of a trait has for a call through
/// the trait: its own method, or else the default.
pub open spec fn answers_dispatch(
    defs: Seq<DefV>,
    cands: Seq<usize>,
    impls: Seq<(Seq<char>, Seq<char>)>,
    tr: Seq<char>,
    t: usize,
) -> bool {
    exists|i: int|
        0 <= i < impls.len() && (#[trigger] impls[i]).1 == tr && dispatch_target(
            defs,
            cands,
            impls[i].0,
            tr,
        ) == Some(t)
}

proof fn lemma_dispatch_targets(
    defs: Seq<DefV>,
    cands: Seq<usize>,
    impls: Seq<(Seq<char>, Seq<char>)>,
    tr: Seq<char>,
)
    ensures
        forall|t: usize| #[trigger]
            dispatch_targets(defs, cands, impls, tr).contains(t) <==> answers_dispatch(
                defs,
                cands,
                impls,
                tr,
                t,
            ),
    decreases impls.len(),
{
    if impls.len() > 0 {
        let init = impls.drop_last();
        let before = dispatch_targets(defs, cands, init, tr);
        let all = dispatch_targets(defs, cands, impls, tr);
        lemma_dispatch_targets(defs, cands, init, tr);
        assert forall|t: usize| #[trigger] all.contains(t) <==> answers_dispatch(
            defs,
            cands,
            impls,
            tr,
            t,
        ) by {
            assert(before.contains(t) <==> answers_dispatch(defs, cands, init, tr, t));
            if all.contains(t) {
                if before.contains(t) {
                    let i = choose|i: int|
                        0 <= i < init.len() && (#[trigger] init[i]).1 == tr && dispatch_target(
                            defs,
                            cands,
                            init[i].0,
                            tr,
                        ) == Some(t);
                    assert(impls[i] == init[i]);
                } else {
                    let i = all.index_of(t);
                    assert(i == before.len());
                    assert(impls[impls.len() - 1].1 == tr);
                }
            }
            if answers_dispatch(defs, cands, impls, tr, t) {
                let i = choose|i: int|
                    0 <= i < impls.len() && (#[trigger] impls[i]).1 == tr && dispatch_target(
                        defs,
                        cands,
                        impls[i].0,
                        tr,
                    ) == Some(t);
                if i < init.len() {
                    assert(init[i] == impls[i]);
                    assert(answers_dispatch(defs, cands, init, tr, t));
                    assert(all[before.index_of(t)] == t);
                } else {
                    assert(all[before.len() as int] == t);
                }
            }
        }
    }
}

/// A call through a trait that declares the method, and has an `impl`, leads to what each
/// of the implementing types has for it, and to nothing else: each target once, exact
/// where it is the only one, and a guess where there are several.
pub proof fn law_trait_dispatch_expands(tr: Seq<char>, name: Seq<char>, ctx: CtxV)
    requires
        has_impl(ctx.index.impls, tr),
        resolve::positions(ctx.index.defs, name).filter(
            |i: usize|
                scope::is_signature_of(ctx.index.defs[i as int], tr) || is_default_of(
                    ctx.index.defs[i as int],
                    tr,
                ),
        ).len() > 0,
    ensures
        resolve::are_graded(
            dispatched(tr, name, ctx),
            |t: usize|
                answers_dispatch(
                    ctx.index.defs,
                    resolve::positions(ctx.index.defs, name),
                    ctx.index.impls,
                    tr,
                    t,
                ),
        ),
{
    let defs = ctx.index.defs;
    let cands = resolve::positions(defs, name);
    let found = dispatch_targets(defs, cands, ctx.index.impls, tr);
    let distinct = order::no_repeats(order::stable_sort(found, order::numeric()));
    let p = |t: usize| answers_dispatch(defs, cands, ctx.index.impls, tr, t);
    lemma_dispatch_targets(defs, cands, ctx.index.impls, tr);
    order::law_sort_distinct(found, order::numeric());
    assert(distinct.no_duplicates()) by {
        assert forall|i: int, j: int|
            0 <= i < distinct.len() && 0 <= j < distinct.len() && i != j implies distinct[i]
            != distinct[j] by {
            if i < j {
                assert(order::numeric()(distinct[i], distinct[j]));
            } else {
                assert(order::numeric()(distinct[j], distinct[i]));
            }
        }
    }
    assert forall|t: usize| #[trigger] distinct.contains(t) <==> p(t) by {
        assert(found.contains(t) <==> p(t));
    }
    resolve::lemma_graded(distinct, resolve::by_place(defs), p);
}

/// The types that have an `impl` of a trait.
pub open spec fn implementors(impls: Seq<(Seq<char>, Seq<char>)>, tr: Seq<char>) -> Set<
    Seq<char>,
> {
    Set::new(|ty: Seq<char>| impls.contains((ty, tr)))
}

/// A call through a trait depends on which types have an `impl` of it, not on the order of
/// the `impl`s or on how often they are repeated.
pub proof fn law_dispatch_goes_by_types(tr: Seq<char>, name: Seq<char>, a: CtxV, b: CtxV)
    requires
        a.index.defs == b.index.defs,
        implementors(a.index.impls, tr) == implementors(b.index.impls, tr),
    ensures
        dispatched(tr, name, a) == dispatched(tr, name, b),
{
    let defs = a.index.defs;
    let cands = resolve::positions(defs, name);
    let (p, q) = (a.index.impls, b.index.impls);
    lemma_same_types(defs, cands, p, q, tr);
    lemma_same_types(defs, cands, q, p, tr);
    let (s, t) = (dispatch_targets(defs, cands, p, tr), dispatch_targets(defs, cands, q, tr));
    lemma_dispatch_targets(defs, cands, p, tr);
    lemma_dispatch_targets(defs, cands, q, tr);
    assert forall|x: usize| #[trigger] s.contains(x) <==> t.contains(x) by {
        assert(answers_dispatch(defs, cands, p, tr, x) <==> answers_dispatch(
            defs,
            cands,
            q,
            tr,
            x,
        ));
    }
    order::law_sort_distinct_by_items(s, t, order::numeric());
}

proof fn lemma_same_types(
    defs: Seq<DefV>,
    cands: Seq<usize>,
    p: Seq<(Seq<char>, Seq<char>)>,
    q: Seq<(Seq<char>, Seq<char>)>,
    tr: Seq<char>,
)
    requires
        implementors(p, tr) == implementors(q, tr),
    ensures
        has_impl(p, tr) ==> has_impl(q, tr),
        forall|t: usize| #[trigger]
            answers_dispatch(defs, cands, p, tr, t) ==> answers_dispatch(defs, cands, q, tr, t),
{
    assert forall|i: int| 0 <= i < p.len() && (#[trigger] p[i]).1 == tr implies q.contains(p[i]) by {
        assert(p[i] == (p[i].0, tr));
        assert(p.contains((p[i].0, tr)));
        assert(implementors(p, tr).contains(p[i].0));
        assert(implementors(q, tr).contains(p[i].0));
    }
    if has_impl(p, tr) {
        let i = choose|i: int| 0 <= i < p.len() && (#[trigger] p[i]).1 == tr;
        assert(q[q.index_of(p[i])].1 == tr);
    }
    assert forall|t: usize| #[trigger] answers_dispatch(defs, cands, p, tr, t) implies
        answers_dispatch(defs, cands, q, tr, t) by {
        let i = choose|i: int|
            0 <= i < p.len() && (#[trigger] p[i]).1 == tr && dispatch_target(
                defs,
                cands,
                p[i].0,
                tr,
            ) == Some(t);
        let k = q.index_of(p[i]);
        assert(q[k] == p[i]);
    }
}

proof fn lemma_first_where(s: Seq<usize>, p: spec_fn(usize) -> bool)
    ensures
        order::first_where(s, p) matches Some(i) ==> s.contains(i) && p(i),
{
    if s.filter(p).len() > 0 {
        let i = s.filter(p)[0];
        assert(s.filter(p).contains(i));
        order::lemma_filter_keeps(s, p, i);
    }
}

/// The targets of a call through a trait that declares the method, and has an `impl`, come
/// in the order of their places. They are methods with the name that is called, and there
/// are no more of them than types with an `impl`.
pub proof fn law_dispatch_targets(tr: Seq<char>, name: Seq<char>, ctx: CtxV)
    requires
        ctx.index.defs.len() <= usize::MAX,
        has_impl(ctx.index.impls, tr),
    ensures
        forall|i: int, j: int|
            0 <= i < j < dispatched(tr, name, ctx).len() ==> !resolve::place_lt(
                ctx.index.defs[(#[trigger] dispatched(tr, name, ctx)[j]).0 as int].id,
                ctx.index.defs[(#[trigger] dispatched(tr, name, ctx)[i]).0 as int].id,
            ),
        forall|i: int|
            0 <= i < dispatched(tr, name, ctx).len() ==> ({
                let d = ctx.index.defs[(#[trigger] dispatched(tr, name, ctx)[i]).0 as int];
                d.kind is Method && d.name == name
            }),
        dispatched(tr, name, ctx).len() <= implementors(ctx.index.impls, tr).len(),
{
    let defs = ctx.index.defs;
    let impls = ctx.index.impls;
    let cands = resolve::positions(defs, name);
    let found = dispatch_targets(defs, cands, impls, tr);
    let distinct = order::no_repeats(order::stable_sort(found, order::numeric()));
    let lt = resolve::by_place(defs);
    let sorted = order::stable_sort(distinct, lt);
    let hits = dispatched(tr, name, ctx);
    if hits.len() > 0 {
        assert(hits == resolve::graded(sorted));
        resolve::lemma_place_order(defs);
        order::law_sort_orders(distinct, lt);
        order::law_sort_distinct(found, order::numeric());
        lemma_dispatch_targets(defs, cands, impls, tr);
        resolve::lemma_positions(defs, name);
        distinct.to_multiset_ensures();
        sorted.to_multiset_ensures();
        assert forall|i: int, j: int| 0 <= i < j < hits.len() implies !resolve::place_lt(
            defs[(#[trigger] hits[j]).0 as int].id,
            defs[(#[trigger] hits[i]).0 as int].id,
        ) by {
            assert(!lt(sorted[j], sorted[i]));
        }
        assert forall|i: int| 0 <= i < hits.len() implies ({
            let d = defs[(#[trigger] hits[i]).0 as int];
            d.kind is Method && d.name == name
        }) by {
            let t = sorted[i];
            assert(sorted.to_multiset().contains(t));
            assert(distinct.contains(t));
            assert(found.contains(t));
            lemma_answer_is_method(defs, cands, impls, tr, t);
            let k = cands.index_of(t);
            assert(cands[k] == t);
        }
        lemma_targets_bound(defs, cands, impls, tr, distinct);
        assert(sorted.len() == distinct.len());
    }
}

proof fn lemma_answer_is_method(
    defs: Seq<DefV>,
    cands: Seq<usize>,
    impls: Seq<(Seq<char>, Seq<char>)>,
    tr: Seq<char>,
    t: usize,
)
    requires
        answers_dispatch(defs, cands, impls, tr, t),
    ensures
        cands.contains(t),
        defs[t as int].kind is Method,
{
    let i = choose|i: int|
        0 <= i < impls.len() && (#[trigger] impls[i]).1 == tr && dispatch_target(
            defs,
            cands,
            impls[i].0,
            tr,
        ) == Some(t);
    let ty = impls[i].0;
    lemma_first_where(cands, |i: usize| is_override_of(defs[i as int], ty, tr));
    lemma_first_where(cands, |i: usize| is_default_of(defs[i as int], tr));
}

proof fn lemma_targets_bound(
    defs: Seq<DefV>,
    cands: Seq<usize>,
    impls: Seq<(Seq<char>, Seq<char>)>,
    tr: Seq<char>,
    targets: Seq<usize>,
)
    requires
        forall|i: int, j: int|
            0 <= i < j < targets.len() ==> order::numeric()(
                #[trigger] targets[i],
                #[trigger] targets[j],
            ),
        forall|t: usize| #[trigger]
            targets.contains(t) ==> answers_dispatch(defs, cands, impls, tr, t),
    ensures
        targets.len() <= implementors(impls, tr).len(),
{
    let types = implementors(impls, tr);
    let f = |ty: Seq<char>|
        match dispatch_target(defs, cands, ty, tr) {
            Some(t) => t,
            None => 0,
        };
    let first = |e: (Seq<char>, Seq<char>)| e.0;
    let all = impls.to_set();
    vstd::seq_lib::seq_to_set_is_finite(impls);
    vstd::set_lib::lemma_map_size_bound(all, all.map(first), first);
    assert(types.subset_of(all.map(first))) by {
        assert forall|ty: Seq<char>| types.contains(ty) implies all.map(first).contains(ty) by {
            assert(all.contains((ty, tr)));
            assert(first((ty, tr)) == ty);
        }
    }
    vstd::set_lib::lemma_len_subset(types, all.map(first));
    let image = types.map(f);
    vstd::set_lib::lemma_map_size_bound(types, image, f);
    assert(targets.no_duplicates()) by {
        assert forall|i: int, j: int|
            0 <= i < targets.len() && 0 <= j < targets.len() && i != j implies targets[i]
            != targets[j] by {
            if i < j {
                assert(order::numeric()(targets[i], targets[j]));
            } else {
                assert(order::numeric()(targets[j], targets[i]));
            }
        }
    }
    targets.unique_seq_to_set();
    assert(targets.to_set().subset_of(image)) by {
        assert forall|t: usize| targets.to_set().contains(t) implies image.contains(t) by {
            assert(targets.contains(t));
            let i = choose|i: int|
                0 <= i < impls.len() && (#[trigger] impls[i]).1 == tr && dispatch_target(
                    defs,
                    cands,
                    impls[i].0,
                    tr,
                ) == Some(t);
            let ty = impls[i].0;
            assert(impls[i] == (ty, tr));
            assert(types.contains(ty));
            assert(f(ty) == t);
        }
    }
    vstd::set_lib::lemma_len_subset(targets.to_set(), image);
}

impl<'a> Reach for Ctx<'a> {
    closed spec fn reach(&self) -> spec_fn(DefV) -> bool {
        reach_of(self@.scope)
    }

    /// Whether the def (or its containing module) is reachable through this
    /// file's imports or globs.
    fn is_imported(&self, d: &Def) -> (r: bool) {
        let q: &Vec<String> = &d.qualified;
        let n: usize = q.len();
        let m: usize = if n > 0 {
            n - 1
        } else {
            0
        };
        let ghost qv = d@.qualified;
        let ghost s = self@.scope;
        assert(qv.take(n as int) =~= qv);
        assert(qv.take(m as int) =~= front(qv));
        let paths: Vec<&Vec<String>> = self.scope.imports.values();
        let mut i: usize = 0;
        while i < paths.len()
            invariant
                i <= paths@.len(),
                qv == d@.qualified,
                q@ == d.qualified@,
                n == q@.len(),
                m <= n,
                s == self@.scope,
                qv.take(n as int) == qv,
                qv.take(m as int) == front(qv),
                forall|k: int|
                    0 <= k < paths@.len() ==> scope::holds(
                        s.imports,
                        text::views((#[trigger] paths@[k])@),
                    ),
                forall|k: int|
                    0 <= k < i ==> !text::has_suffix(qv, text::views((#[trigger] paths@[k])@))
                        && !text::has_suffix(front(qv), text::views(paths@[k]@)),
            decreases paths@.len() - i,
        {
            let p: &Vec<String> = paths[i];
            if ends_with(q, n, p) || ends_with(q, m, p) {
                assert(scope::holds(s.imports, text::views(paths@[i as int]@)));
                let ghost key = choose|k: Seq<char>| #[trigger]
                    s.imports.contains_key(k) && s.imports[k] == text::views(p@);
                assert(s.imports.contains_key(key));
                return true;
            }
            i += 1;
        }
        let globs: &Vec<Vec<String>> = &self.scope.globs;
        let mut j: usize = 0;
        while j < globs.len()
            invariant
                j <= globs@.len(),
                qv == d@.qualified,
                q@ == d.qualified@,
                m <= n,
                n == q@.len(),
                s == self@.scope,
                s.globs == scope::globs_view(globs@),
                qv.take(m as int) == front(qv),
                forall|k: int| 0 <= k < j ==> !#[trigger] text::has_suffix(front(qv), s.globs[k]),
            decreases globs@.len() - j,
        {
            assert(s.globs[j as int] == text::views(globs@[j as int]@));
            if ends_with(q, m, &globs[j]) {
                assert(text::has_suffix(front(qv), s.globs[j as int]));
                return true;
            }
            j += 1;
        }
        proof {
            assert forall|k: Seq<char>| #[trigger] s.imports.contains_key(k) implies !(
            text::has_suffix(qv, s.imports[k]) || text::has_suffix(front(qv), s.imports[k])) by {
                let i = choose|i: int|
                    0 <= i < paths@.len() && text::views((#[trigger] paths@[i])@) == s.imports[k];
                assert(!text::has_suffix(qv, text::views(paths@[i]@)));
            }
        }
        false
    }
}

impl<'a> Ctx<'a> {
    /// Whether the index is as its definitions say.
    pub open spec fn wf(self) -> bool {
        self.index.wf()
    }

    fn pick(&self, cands: &Vec<usize>, prefer_methods: bool) -> (r: Option<(usize, Confidence)>)
        requires
            scope::known(cands@, self.index.defs@.len()),
        ensures
            r == pick_ranked(cands@, prefer_methods, self@),
            r matches Some((t, _)) ==> t < self.index.defs@.len(),
    {
        rank(cands, prefer_methods, self.file, self.index, self)
    }

}

/// The default methods of a trait among the candidates.
fn defaults_of(index: &DefIndex, cands: &Vec<usize>, tr: &str) -> (r: Vec<usize>)
    requires
        scope::known(cands@, index.defs@.len()),
    ensures
        r@ == cands@.filter(|i: usize| is_default_of(index@.defs[i as int], tr@)),
        scope::known(r@, index.defs@.len()),
{
    let defs: &Vec<Def> = &index.defs;
    let keep = |i: usize| -> (r: bool)
        requires
            i < defs@.len(),
        ensures
            r == is_default_of(text::views(defs@)[i as int], tr@),
        {
            match &defs[i].kind {
                DefKind::Method { receiver, via_trait } => via_trait.is_none() && str_eq(
                    receiver.as_str(),
                    tr,
                ),
                _ => false,
            }
        };
    select(
        index,
        cands,
        keep,
        Ghost(|i: usize| is_default_of(index@.defs[i as int], tr@)),
    )
}

/// What the `impl` of a trait for a type defines among the candidates.
fn overrides_of(index: &DefIndex, cands: &Vec<usize>, ty: &str, tr: &str) -> (r: Vec<usize>)
    requires
        scope::known(cands@, index.defs@.len()),
    ensures
        r@ == cands@.filter(|i: usize| is_override_of(index@.defs[i as int], ty@, tr@)),
        scope::known(r@, index.defs@.len()),
{
    let defs: &Vec<Def> = &index.defs;
    let keep = |i: usize| -> (r: bool)
        requires
            i < defs@.len(),
        ensures
            r == is_override_of(text::views(defs@)[i as int], ty@, tr@),
        {
            match &defs[i].kind {
                DefKind::Method { receiver, via_trait } => match via_trait {
                    Some(t) => str_eq(receiver.as_str(), ty) && str_eq(t.as_str(), tr),
                    None => false,
                },
                _ => false,
            }
        };
    select(
        index,
        cands,
        keep,
        Ghost(|i: usize| is_override_of(index@.defs[i as int], ty@, tr@)),
    )
}

/// The candidates whose qualified path ends in a path.
fn ending_in(index: &DefIndex, cands: &Vec<usize>, path: &Vec<String>) -> (r: Vec<usize>)
    requires
        scope::known(cands@, index.defs@.len()),
    ensures
        r@ == cands@.filter(
            |i: usize|
                text::has_suffix(index@.defs[i as int].qualified, text::views(path@)),
        ),
        scope::known(r@, index.defs@.len()),
{
    let defs: &Vec<Def> = &index.defs;
    let keep = |i: usize| -> (r: bool)
        requires
            i < defs@.len(),
        ensures
            r == text::has_suffix(text::views(defs@)[i as int].qualified, text::views(path@)),
        {
            let q: &Vec<String> = &defs[i].qualified;
            assert(text::views(q@).take(q@.len() as int) =~= text::views(q@));
            ends_with(q, q.len(), path)
        };
    select(
        index,
        cands,
        keep,
        Ghost(
            |i: usize|
                text::has_suffix(index@.defs[i as int].qualified, text::views(path@)),
        ),
    )
}
fn method_on(ty: &str, name: &str, ctx: &Ctx) -> (r: Option<(usize, Confidence)>)
    requires
        ctx.wf(),
    ensures
        r == method_of(ty@, name@, ctx@),
        r matches Some((t, _)) ==> t < ctx.index.defs@.len(),
{
    let named: Vec<usize> = ctx.index.named(name);
    let cands: Vec<usize> = methods_of(ctx.index, &named, ty);
    ctx.pick(&cands, true)
}

/// Dispatch for `dyn Trait` / `T: Trait` / `impl Trait` receivers: one edge per
/// type with an `impl Trait for Type` block — the overriding method when the
/// impl defines it, else the trait's default. A single target is exact;
/// several are each a guess. With no impl blocks in the project the edge
/// points at the signature (defaults are found by `method_on` instead).
pub fn trait_dispatch(tr: &str, name: &str, ctx: &Ctx) -> (r: Vec<(usize, Confidence)>)
    requires
        ctx.wf(),
    ensures
        r@ == dispatched(tr@, name@, ctx@),
        scope::hits_known(r@, ctx.index.defs@.len()),
{
    let ghost defs = ctx@.index.defs;
    let cands: Vec<usize> = ctx.index.named(name);
    let signatures: Vec<usize> = signatures_of(ctx.index, &cands, tr);
    let defaults: Vec<usize> = defaults_of(ctx.index, &cands, tr);
    proof {
        lemma_filter_either(
            cands@,
            |i: usize| scope::is_signature_of(defs[i as int], tr@),
            |i: usize| is_default_of(defs[i as int], tr@),
            |i: usize| scope::is_signature_of(defs[i as int], tr@) || is_default_of(defs[i as int], tr@),
        );
    }
    // `name` must belong to the trait: a signature or a default method
    if signatures.len() == 0 && defaults.len() == 0 {
        let none: Vec<(usize, Confidence)> = Vec::new();
        assert(none@ =~= dispatched(tr@, name@, ctx@));
        return none;
    }
    let ghost impls = ctx@.index.impls;
    let mut any: bool = false;
    let mut found: Vec<usize> = Vec::new();
    let mut i: usize = 0;
    assert(found@ =~= dispatch_targets(defs, cands@, impls.take(0), tr@));
    while i < ctx.index.impls.len()
        invariant
            i <= ctx.index.impls@.len(),
            ctx.wf(),
            defs == ctx@.index.defs,
            impls == ctx@.index.impls,
            scope::known(cands@, ctx.index.defs@.len()),
            scope::known(defaults@, ctx.index.defs@.len()),
            scope::known(found@, ctx.index.defs@.len()),
            defaults@ == cands@.filter(|i: usize| is_default_of(defs[i as int], tr@)),
            any == has_impl(impls.take(i as int), tr@),
            found@ == dispatch_targets(defs, cands@, impls.take(i as int), tr@),
        decreases ctx.index.impls@.len() - i,
    {
        let ghost now = impls.take(i + 1);
        assert(now.drop_last() =~= impls.take(i as int));
        assert(now.last() == impls[i as int]);
        let entry: &(String, String) = &ctx.index.impls[i];
        assert(has_impl(now, tr@) == (any || entry.1@ == tr@)) by {
            if any {
                let k = choose|k: int|
                    0 <= k < impls.take(i as int).len() && (#[trigger] impls.take(i as int)[k]).1
                        == tr@;
                assert(now[k].1 == tr@);
            }
            if entry.1@ == tr@ {
                assert(now[i as int].1 == tr@);
            }
            if has_impl(now, tr@) {
                let k = choose|k: int| 0 <= k < now.len() && (#[trigger] now[k]).1 == tr@;
                if k < i {
                    assert(impls.take(i as int)[k].1 == tr@);
                }
            }
        }
        if str_eq(entry.1.as_str(), tr) {
            any = true;
            let own: Vec<usize> = overrides_of(ctx.index, &cands, entry.0.as_str(), tr);
            if own.len() > 0 {
                found.push(own[0]);
            } else if defaults.len() > 0 {
                found.push(defaults[0]);
            }
        }
        i += 1;
    }
    assert(impls.take(i as int) =~= impls);
    if !any {
        let mut out: Vec<(usize, Confidence)> = Vec::new();
        if signatures.len() > 0 {
            out.push((signatures[0], Confidence::Exact));
        }
        assert(out@ =~= dispatched(tr@, name@, ctx@));
        return out;
    }
    let distinct: Vec<usize> = sort_distinct(&found);
    proof {
        order::lemma_sort_distinct_bound(found@, ctx.index.defs@.len());
        order::lemma_sort_bound(distinct@, resolve::by_place(defs), ctx.index.defs@.len());
    }
    let sorted: Vec<usize> = sort_by_place(&distinct, ctx.index);
    grade(&sorted)
}

/// Methods on `ty`: trait dispatch expansion when `ty` is a trait with
/// implementations in the project, else the directly defined method.
fn dispatch_or_method(ty: &str, name: &str, ctx: &Ctx) -> (r: Vec<(usize, Confidence)>)
    requires
        ctx.wf(),
    ensures
        r@ == dispatched_or_method(ty@, name@, ctx@),
        scope::hits_known(r@, ctx.index.defs@.len()),
{
    let hits: Vec<(usize, Confidence)> = trait_dispatch(ty, name, ctx);
    if hits.len() > 0 {
        return hits;
    }
    one(method_on(ty, name, ctx))
}

proof fn lemma_filter_either(
    s: Seq<usize>,
    p: spec_fn(usize) -> bool,
    q: spec_fn(usize) -> bool,
    pq: spec_fn(usize) -> bool,
)
    requires
        forall|i: usize| #[trigger] pq(i) == (p(i) || q(i)),
    ensures
        s.filter(pq).len() == 0 <==> s.filter(p).len() == 0 && s.filter(q).len() == 0,
    decreases s.len(),
{
    reveal(Seq::filter);
    if s.len() > 0 {
        lemma_filter_either(s.drop_last(), p, q, pq);
    }
}

/// Qualified-path resolution: expand the leading segment through the import
/// map, then suffix-match against definition paths. A path that matches
/// nothing is treated as external — no name-only fallback, so e.g.
/// `HashMap::new()` doesn't resolve to an unrelated local `new`.
fn resolve_path(segs: &Vec<String>, ctx: &Ctx) -> (r: Option<(usize, Confidence)>)
    requires
        ctx.wf(),
    ensures
        r == path_target(text::views(segs@), ctx@),
        r matches Some((t, _)) ==> t < ctx.index.defs@.len(),
{
    let ghost want = expanded(text::views(segs@), ctx@.scope);
    let mut path: Vec<String> = Vec::new();
    let mut start: usize = 0;
    if segs.len() > 0 {
        assert(text::views(segs@)[0] == segs@[0]@);
        if let Some(prefix) = ctx.scope.imports.get(segs[0].as_str()) {
            path = clone_strings(prefix);
            start = 1;
        }
    }
    let ghost head = text::views(path@);
    let mut i: usize = start;
    assert(text::views(path@) =~= head + text::views(segs@).subrange(start as int, i as int));
    while i < segs.len()
        invariant
            start <= i <= segs@.len(),
            text::views(path@) == head + text::views(segs@).subrange(start as int, i as int),
        decreases segs@.len() - i,
    {
        push_string(&mut path, segs[i].clone());
        i += 1;
        assert(text::views(path@) =~= head + text::views(segs@).subrange(start as int, i as int));
    }
    assert(text::views(path@) =~= want);
    if path.len() == 0 {
        return None;
    }
    assert(want.last() == path@[path@.len() - 1]@);
    let named: Vec<usize> = ctx.index.named(path[path.len() - 1].as_str());
    let cands: Vec<usize> = ending_in(ctx.index, &named, &path);
    ctx.pick(&cands, false)
}

/// Whether a qualified path is in a module of which everything is imported.
fn is_in_glob(q: &Vec<String>, name: &str, globs: &Vec<Vec<String>>) -> (r: bool)
    ensures
        r == in_glob(text::views(q@), name@, scope::globs_view(globs@)),
{
    let ghost qv = text::views(q@);
    let ghost gv = scope::globs_view(globs@);
    if q.len() == 0 {
        return false;
    }
    assert(qv.take(q@.len() - 1) =~= qv.drop_last());
    assert(qv.last() == q@[q@.len() - 1]@);
    if !str_eq(q[q.len() - 1].as_str(), name) {
        return false;
    }
    let mut i: usize = 0;
    while i < globs.len()
        invariant
            i <= globs@.len(),
            q@.len() > 0,
            qv == text::views(q@),
            gv == scope::globs_view(globs@),
            qv.take(q@.len() - 1) == qv.drop_last(),
            qv.last() == name@,
            forall|k: int|
                0 <= k < i ==> !(qv.len() > (#[trigger] gv[k]).len() && text::has_suffix(
                    qv.drop_last(),
                    gv[k],
                ) && qv.last() == name@),
        decreases globs@.len() - i,
    {
        assert(gv[i as int] == text::views(globs@[i as int]@));
        if q.len() > globs[i].len() && ends_with(q, q.len() - 1, &globs[i]) {
            return true;
        }
        i += 1;
    }
    false
}

/// The candidates for a bare name that is bound to no function value.
fn find_bare(name: &str, ctx: &Ctx) -> (r: Vec<usize>)
    requires
        ctx.wf(),
    ensures
        r@ == bare_candidates(name@, ctx@),
        scope::known(r@, ctx.index.defs@.len()),
{
    let defs: &Vec<Def> = &ctx.index.defs;
    let file: &str = ctx.file;
    let globs: &Vec<Vec<String>> = &ctx.scope.globs;
    let named: Vec<usize> = ctx.index.named(name);
    // free function in the same file
    let is_local = |i: usize| -> (r: bool)
        requires
            i < defs@.len(),
        ensures
            r == (text::views(defs@)[i as int].id.file == file@ && text::views(defs@)[i as int].kind
                == DefKindV::Function),
        { str_eq(defs[i].id.file.as_str(), file) && matches!(defs[i].kind, DefKind::Function) };
    let same_file: Vec<usize> = select(
        ctx.index,
        &named,
        is_local,
        Ghost(
            |i: usize|
                ctx@.index.defs[i as int].id.file == ctx@.file && ctx@.index.defs[i as int].kind
                    == DefKindV::Function,
        ),
    );
    assert(same_file@ == in_file(named@, ctx@));
    if same_file.len() > 0 {
        return same_file;
    }
    // explicit import — candidates keyed by the path's real target
    // name, which differs from `name` when the import is an alias
    if let Some(path) = ctx.scope.imports.get(name) {
        let target: &str = if path.len() > 0 {
            assert(text::views(path@).last() == path@[path@.len() - 1]@);
            path[path.len() - 1].as_str()
        } else {
            name
        };
        let found: Vec<usize> = ctx.index.named(target);
        let cands: Vec<usize> = ending_in(ctx.index, &found, path);
        assert(cands@ == through_import(name@, ctx@));
        if cands.len() > 0 {
            return cands;
        }
    }
    // glob imports
    let is_glob = |i: usize| -> (r: bool)
        requires
            i < defs@.len(),
        ensures
            r == in_glob(
                text::views(defs@)[i as int].qualified,
                name@,
                scope::globs_view(globs@),
            ),
        { is_in_glob(&defs[i].qualified, name, globs) };
    let through: Vec<usize> = select(
        ctx.index,
        &named,
        is_glob,
        Ghost(
            |i: usize| in_glob(ctx@.index.defs[i as int].qualified, name@, ctx@.scope.globs),
        ),
    );
    assert(through@ == through_globs(named@, name@, ctx@));
    if through.len() > 0 {
        return through;
    }
    // every def with this name
    named
}

/// Resolve a call site to its target definitions. Every path yields zero or
/// one target except trait-object/bound dispatch, which expands to one edge
/// per implementing type.
fn resolve_callee(callee: &Callee, line: usize, depth: usize, ctx: &Ctx) -> (r: Vec<
    (usize, Confidence),
>)
    requires
        ctx.wf(),
    ensures
        r@ == targets(callee@, line, depth as nat, ctx@),
        scope::hits_known(r@, ctx.index.defs@.len()),
    decreases 5 - depth, 4int,
{
    if depth > MAX_BINDING_DEPTH {
        let none: Vec<(usize, Confidence)> = Vec::new();
        assert(none@ =~= Seq::empty());
        return none;
    }
    match callee {
        Callee::Path(segs) => one(resolve_path(segs, ctx)),
        Callee::Bare(name) => one(resolve_bare(name.as_str(), line, depth, ctx)),
        Callee::Method { receiver, name } => resolve_method(
            receiver,
            name.as_str(),
            line,
            depth,
            ctx,
        ),
    }
}

fn resolve_bare(name: &str, line: usize, depth: usize, ctx: &Ctx) -> (r: Option<
    (usize, Confidence),
>)
    requires
        ctx.wf(),
        depth <= MAX_BINDING_DEPTH,
    ensures
        r == bare_target(name@, line, depth as nat, ctx@),
        r matches Some((t, _)) ==> t < ctx.index.defs@.len(),
    decreases 5 - depth, 1int,
{
    // local binding holding a function value
    if let Some(Binding::FnValue(inner)) = last_binding(ctx.fun, name, line) {
        let hits: Vec<(usize, Confidence)> = resolve_callee(inner, line, depth + 1, ctx);
        if hits.len() > 0 {
            return Some(hits[0]);
        }
    }
    let cands: Vec<usize> = find_bare(name, ctx);
    ctx.pick(&cands, false)
}

/// The type that a call of an associated function makes, by its name.
fn type_by_constructor(callee: &Callee) -> (r: Option<String>)
    ensures
        text::opt_view(r) == constructed_type(callee@),
{
    match callee {
        Callee::Path(segs) => {
            if segs.len() >= 2 {
                assert(text::views(segs@)[segs@.len() - 2] == segs@[segs@.len() - 2]@);
                if is_capitalized(segs[segs.len() - 2].as_str()) {
                    return Some(segs[segs.len() - 2].clone());
                }
            }
            None
        },
        _ => None,
    }
}

/// Type of `var` at `line`: last typed binding — for `let x = make()` the
/// resolved callee's return type, else the `Type::assoc(..)` constructor
/// heuristic — else parameter type.
fn var_type(var: &str, line: usize, depth: usize, ctx: &Ctx) -> (r: Option<String>)
    requires
        ctx.wf(),
        depth <= MAX_BINDING_DEPTH,
    ensures
        text::opt_view(r) == type_of_var(var@, line, depth as nat, ctx@),
    decreases 5 - depth, 1int,
{
    match last_binding(ctx.fun, var, line) {
        Some(Binding::Typed(t)) => Some(t.clone()),
        Some(Binding::Call(callee)) => {
            let hits: Vec<(usize, Confidence)> = resolve_callee(callee, line, depth + 1, ctx);
            if hits.len() > 0 {
                let t: usize = hits[0].0;
                assert(ctx@.index.defs[t as int] == ctx.index.defs@[t as int]@);
                if let Some(ret) = &ctx.index.defs[t].ret {
                    return Some(ret.clone());
                }
            }
            type_by_constructor(callee)
        },
        _ => param_type(ctx.fun, var),
    }
}

/// The targets that the receiver of a method call leads to.
fn resolve_receiver(receiver: &Receiver, name: &str, line: usize, depth: usize, ctx: &Ctx) -> (r:
    Vec<(usize, Confidence)>)
    requires
        ctx.wf(),
        depth <= MAX_BINDING_DEPTH,
    ensures
        r@ == receiver_targets(receiver@, name@, line, depth as nat, ctx@),
        scope::hits_known(r@, ctx.index.defs@.len()),
    decreases 5 - depth, 2int,
{
    match receiver {
        Receiver::SelfRecv => {
            // self is statically the impl type — no dispatch expansion
            if let Some(ty) = &ctx.fun.impl_type {
                if let Some(hit) = method_on(ty.as_str(), name, ctx) {
                    return one(Some(hit));
                }
            }
            if let Some(tr) = &ctx.fun.trait_name {
                return one(method_on(tr.as_str(), name, ctx));
            }
        },
        Receiver::Var(v) => {
            if let Some(ty) = var_type(v.as_str(), line, depth, ctx) {
                let hits: Vec<(usize, Confidence)> = dispatch_or_method(ty.as_str(), name, ctx);
                if hits.len() > 0 {
                    return hits;
                }
                // generic type parameter: follow its trait bounds
                if let Some(bounds) = ctx.fun.bounds.get(ty.as_str()) {
                    let ghost bv = text::views(bounds@);
                    let mut k: usize = 0;
                    while k < bounds.len()
                        invariant
                            k <= bounds@.len(),
                            ctx.wf(),
                            bv == text::views(bounds@),
                            receiver_targets(receiver@, name@, line, depth as nat, ctx@)
                                == bounds_targets(bv, k as nat, name@, ctx@),
                        decreases bounds@.len() - k,
                    {
                        assert(bv[k as int] == bounds@[k as int]@);
                        let hits: Vec<(usize, Confidence)> = dispatch_or_method(
                            bounds[k].as_str(),
                            name,
                            ctx,
                        );
                        if hits.len() > 0 {
                            return hits;
                        }
                        k += 1;
                    }
                }
            }
        },
        Receiver::Opaque(_) => {},
    }
    let none: Vec<(usize, Confidence)> = Vec::new();
    assert(none@ =~= receiver_targets(receiver@, name@, line, depth as nat, ctx@));
    none
}

fn resolve_method(receiver: &Receiver, name: &str, line: usize, depth: usize, ctx: &Ctx) -> (r:
    Vec<(usize, Confidence)>)
    requires
        ctx.wf(),
        depth <= MAX_BINDING_DEPTH,
    ensures
        r@ == method_targets(receiver@, name@, line, depth as nat, ctx@),
        scope::hits_known(r@, ctx.index.defs@.len()),
    decreases 5 - depth, 3int,
{
    let hits: Vec<(usize, Confidence)> = resolve_receiver(receiver, name, line, depth, ctx);
    if hits.len() > 0 {
        return hits;
    }
    // fallback: any def with this name, methods preferred
    let named: Vec<usize> = ctx.index.named(name);
    one(ctx.pick(&named, true))
}

// ── The resolver ─────────────────────────────────────────────────────────────

/// The calls in one function.
pub open spec fn fn_calls(
    calls: Seq<(CalleeV, usize)>,
    caller: usize,
    ctx: CtxV,
) -> Seq<CallV>
    decreases calls.len(),
{
    if calls.len() == 0 {
        Seq::empty()
    } else {
        let (callee, line) = calls.last();
        fn_calls(calls.drop_last(), caller, ctx) + resolve::site_calls(
            caller,
            resolve::callee_name(callee),
            line,
            targets(callee, line, 0, ctx),
        )
    }
}

/// The calls in the functions of a file, as far as they are indexed.
pub open spec fn scope_calls(
    fns: Seq<FnScopeV>,
    file: Seq<char>,
    s: ScopeV,
    index: IndexV,
) -> Seq<CallV>
    decreases fns.len(),
{
    if fns.len() == 0 {
        Seq::empty()
    } else {
        let init = scope_calls(fns.drop_last(), file, s, index);
        let fun = fns.last();
        match resolve::def_at(index.defs, resolve::positions_in(index.defs, file), fun.line) {
            Some(caller) => init + fn_calls(
                fun.calls,
                caller,
                CtxV { file, scope: s, fun, index },
            ),
            None => init,
        }
    }
}

/// The definitions in a syntax tree.
pub open spec fn tree_defs(root: NodeV, file: Seq<char>) -> Seq<DefV> {
    defs_below(root.children, file, modules_of(file), OwnerV::Free)
}

/// The resolved calls in a syntax tree.
pub open spec fn tree_calls(root: NodeV, file: Seq<char>, index: IndexV) -> Seq<CallV> {
    let s = file_scope(root);
    scope_calls(s.fns, file, s, index)
}

/// The definitions in a syntax tree.
pub fn collect_tree_defs(root: &Node, file: &str) -> (r: Vec<Def>)
    ensures
        text::views(r@) == tree_defs(root@, file@),
{
    let mut out: Vec<Def> = Vec::new();
    let mods: Vec<String> = file_module_path(file);
    let ghost none = text::views(out@);
    walk_defs(root, file, &mods, Owner::Free, &mut out);
    assert(none + tree_defs(root@, file@) =~= tree_defs(root@, file@));
    out
}

/// The `impl Trait for Type` blocks in a syntax tree.
pub fn collect_tree_impls(root: &Node) -> (r: Vec<(String, String)>)
    ensures
        resolve::pairs_view(r@) == impls_of(root@),
{
    let mut out: Vec<(String, String)> = Vec::new();
    let ghost none = resolve::pairs_view(out@);
    walk_impls(root, &mut out);
    assert(none + impls_of(root@) =~= impls_of(root@));
    out
}

/// Appends the calls in one function.
fn resolve_fn(fun: &FnScope, caller: usize, ctx: &Ctx, out: &mut Vec<ResolvedCall>)
    requires
        ctx.wf(),
        ctx.fun@ == fun@,
        caller < ctx.index.defs@.len(),
        resolve::calls_known(text::views(old(out)@), ctx.index.defs@.len()),
    ensures
        text::views(final(out)@) == text::views(old(out)@) + fn_calls(fun@.calls, caller, ctx@),
        resolve::calls_known(text::views(final(out)@), ctx.index.defs@.len()),
{
    let ghost before = text::views(out@);
    let ghost all = fun@.calls;
    let mut i: usize = 0;
    assert(text::views(out@) =~= before + fn_calls(all.take(0), caller, ctx@));
    while i < fun.calls.len()
        invariant
            i <= fun.calls@.len(),
            all == fun@.calls,
            ctx.wf(),
            caller < ctx.index.defs@.len(),
            text::views(out@) == before + fn_calls(all.take(i as int), caller, ctx@),
            resolve::calls_known(text::views(out@), ctx.index.defs@.len()),
        decreases fun.calls@.len() - i,
    {
        let ghost done = fn_calls(all.take(i as int), caller, ctx@);
        assert(all.take(i + 1).drop_last() =~= all.take(i as int));
        assert(all.take(i + 1).last() == all[i as int]);
        let callee: &Callee = &fun.calls[i].0;
        let line: usize = fun.calls[i].1;
        // trait-object dispatch can yield several targets → one edge each
        let hits: Vec<(usize, Confidence)> = resolve_callee(callee, line, 0, ctx);
        push_site(out, caller, callee.name(), line, &hits, Ghost(ctx.index.defs@.len()));
        i += 1;
        assert(text::views(out@) =~= before + fn_calls(all.take(i as int), caller, ctx@));
    }
    assert(all.take(i as int) =~= all);
}

/// The resolved calls in a syntax tree.
pub fn resolve_tree_calls(root: &Node, file: &str, index: &DefIndex) -> (r: Vec<ResolvedCall>)
    requires
        index.wf(),
    ensures
        text::views(r@) == tree_calls(root@, file@, index@),
        resolve::calls_known(text::views(r@), index@.defs.len()),
{
    let scope: FileScope = build_scope(root);
    // definitions of the file, for attributing calls to their enclosing function
    let here: Vec<usize> = find_in_file(index, file);
    let mut out: Vec<ResolvedCall> = Vec::new();
    let ghost s = scope@;
    let mut i: usize = 0;
    assert(text::views(out@) =~= scope_calls(s.fns.take(0), file@, s, index@));
    while i < scope.fns.len()
        invariant
            i <= scope.fns@.len(),
            index.wf(),
            s == scope@,
            here@ == resolve::positions_in(index@.defs, file@),
            forall|k: int| 0 <= k < here@.len() ==> (#[trigger] here@[k]) < index.defs@.len(),
            text::views(out@) == scope_calls(s.fns.take(i as int), file@, s, index@),
            resolve::calls_known(text::views(out@), index.defs@.len()),
        decreases scope.fns@.len() - i,
    {
        assert(s.fns.take(i + 1).drop_last() =~= s.fns.take(i as int));
        assert(s.fns.take(i + 1).last() == scope.fns@[i as int]@);
        let fun: &FnScope = &scope.fns[i];
        if let Some(caller) = find_at(index, &here, fun.line) {
            let ctx = Ctx { file, scope: &scope, fun, index };
            resolve_fn(fun, caller, &ctx, &mut out);
        }
        i += 1;
    }
    assert(s.fns.take(i as int) =~= s.fns);
    out
}

#[derive(Default)]
pub struct RustResolver;

impl Resolver for RustResolver {
    open spec fn defs_spec(&self, file: Seq<char>, source: Seq<u8>) -> Seq<DefV> {
        tree_defs(syntax::syntax_tree(Grammar::Rust, source), file)
    }

    open spec fn impls_spec(&self, file: Seq<char>, source: Seq<u8>) -> Seq<
        (Seq<char>, Seq<char>),
    > {
        impls_of(syntax::syntax_tree(Grammar::Rust, source))
    }

    open spec fn calls_spec(&self, file: Seq<char>, source: Seq<u8>, index: IndexV) -> Seq<CallV> {
        tree_calls(syntax::syntax_tree(Grammar::Rust, source), file, index)
    }

    fn collect_defs(&self, file: &str, source: &[u8]) -> (r: Vec<Def>) {
        match parse_source(Grammar::Rust, source) {
            Ok(root) => collect_tree_defs(&root, file),
            Err(_) => Vec::new(),
        }
    }

    fn collect_impls(&self, file: &str, source: &[u8]) -> (r: Vec<(String, String)>) {
        match parse_source(Grammar::Rust, source) {
            Ok(root) => collect_tree_impls(&root),
            Err(_) => Vec::new(),
        }
    }

    fn resolve_calls(&self, file: &str, source: &[u8], index: &DefIndex) -> (r: Vec<
        ResolvedCall,
    >) {
        match parse_source(Grammar::Rust, source) {
            Ok(root) => resolve_tree_calls(&root, file, index),
            Err(_) => Vec::new(),
        }
    }
}

} // verus!
