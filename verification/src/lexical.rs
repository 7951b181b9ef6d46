//! The lexical class/module context at an offset of Ruby source: the
//! innermost `class`/`module` whose node spans the offset, with its name
//! qualified by the enclosing ones.
//!
//! The syntax tree comes from the `ruby_prism` parser; it is carried as a
//! `ScopeNode` tree that holds what the search reads: node spans, the
//! statement lists of programs and bodies, and class/module constant paths.

use vstd::prelude::*;
use vstd::string::*;
use crate::text::{bytes_of, dcolon_str, find_bytes, find_from, lemma_after_ascii, lemma_str_valid, opt_bytes, push_str, str_len, str_slice, to_string_of};

verus! {

/// The constant path naming a class or module.
#[derive(Debug)]
pub enum ConstPathNode {
    /// `Name`
    Read(String),
    /// `Parent::Name`, or `::Name` without a parent.
    Path { parent: Option<Box<ConstPathNode>>, name: Option<String> },
    /// Any other expression.
    Other,
}

/// What kind of node a `ScopeNode` is.
#[derive(Debug)]
pub enum ScopeKind {
    /// A program or a statement list, with its statements.
    Body(Vec<ScopeNode>),
    Class { path: ConstPathNode, body: Option<Box<ScopeNode>> },
    Module { path: ConstPathNode, body: Option<Box<ScopeNode>> },
    Other,
}

/// A syntax-tree node with its byte span.
#[derive(Debug)]
pub struct ScopeNode {
    pub start: usize,
    pub end: usize,
    pub kind: ScopeKind,
}

} // verus!

verus! {

/// The name a constant path spells, when it is made of constant reads:
/// `A::B`, or `::B` when it is anchored at the top level.
pub open spec fn const_path_name(n: ConstPathNode) -> Option<Seq<u8>>
    decreases n,
{
    match n {
        ConstPathNode::Read(name) => Some(bytes_of(name)),
        ConstPathNode::Path { parent, name } => match name {
            None => None,
            Some(child) => match parent {
                None => Some(dcolon() + bytes_of(child)),
                Some(p) => match const_path_name(*p) {
                    None => None,
                    Some(pn) => if pn.len() == 0 {
                        Some(bytes_of(child))
                    } else {
                        Some(pn + dcolon() + bytes_of(child))
                    },
                },
            },
        },
        ConstPathNode::Other => None,
    }
}

/// The separator `::`.
pub open spec fn dcolon() -> Seq<u8> {
    seq![0x3au8, 0x3au8]
}

/// `raw` contains `::` somewhere.
pub open spec fn has_double_colon(raw: Seq<u8>) -> bool {
    find_from(raw, 0, raw.len() as int, dcolon()) is Some
}

/// `raw` with every leading `::` removed (`trim_start_matches("::")`).
pub open spec fn strip_leading_double_colons(raw: Seq<u8>) -> Seq<u8>
    decreases raw.len(),
{
    if raw.len() >= 2 && raw[0] == 0x3a && raw[1] == 0x3a {
        strip_leading_double_colons(raw.skip(2))
    } else {
        raw
    }
}

/// Full name of a class or module declared as `raw` inside `parent`.
pub open spec fn qualified_name(parent: Option<Seq<u8>>, raw: Seq<u8>) -> Seq<u8> {
    if has_double_colon(raw) {
        strip_leading_double_colons(raw)
    } else {
        match parent {
            Some(p) => if p.len() > 0 {
                p + dcolon() + raw
            } else {
                raw
            },
            None => raw,
        }
    }
}

/// The context after visiting `node` looking for `off`, where `parent` is the
/// enclosing class/module name and `best` the context found so far.
pub open spec fn lexical_best(node: ScopeNode, off: int, parent: Option<Seq<u8>>, best: Option<
    Seq<u8>,
>) -> Option<Seq<u8>>
    decreases node,
{
    if off < node.start || off > node.end {
        best
    } else {
        match node.kind {
            ScopeKind::Body(children) => lexical_best_list(children@, off, parent, best),
            ScopeKind::Class { path, body } => match const_path_name(path) {
                None => best,
                Some(raw) => {
                    let full = qualified_name(parent, raw);
                    match body {
                        None => Some(full),
                        Some(b) => lexical_best(*b, off, Some(full), Some(full)),
                    }
                },
            },
            ScopeKind::Module { path, body } => match const_path_name(path) {
                None => best,
                Some(raw) => {
                    let full = qualified_name(parent, raw);
                    match body {
                        None => Some(full),
                        Some(b) => lexical_best(*b, off, Some(full), Some(full)),
                    }
                },
            },
            ScopeKind::Other => best,
        }
    }
}

/// The context after visiting the statements `cs` in order.
pub open spec fn lexical_best_list(cs: Seq<ScopeNode>, off: int, parent: Option<Seq<u8>>, best: Option<
    Seq<u8>,
>) -> Option<Seq<u8>>
    decreases cs,
{
    if cs.len() == 0 {
        best
    } else {
        lexical_best(cs.last(), off, parent, lexical_best_list(cs.drop_last(), off, parent, best))
    }
}

} // verus!

verus! {

#[verifier::external_type_specification]
#[verifier::external_body]
pub struct ExPrismNode<'pr>(ruby_prism::Node<'pr>);

#[verifier::external_type_specification]
#[verifier::external_body]
pub struct ExPrismNodeList<'pr>(ruby_prism::NodeList<'pr>);

#[verifier::external_type_specification]
#[verifier::external_body]
pub struct ExPrismConstantId<'pr>(ruby_prism::ConstantId<'pr>);

/// The tree that `ruby_prism::parse` builds for `source`, as the `ScopeNode`
/// that holds the spans, statement lists and class/module constant paths of
/// its nodes.
pub uninterp spec fn prism_scope_tree(source: Seq<u8>) -> ScopeNode;

/// Parses `source` with `ruby_prism::parse`. The tree depends on the source
/// alone; nothing more of it is stated here.
#[verifier::external_body]
fn parse_scope_tree(source: &[u8]) -> (tree: ScopeNode)
    ensures
        tree == prism_scope_tree(source@),
{
    let result = ruby_prism::parse(source);
    scope_node_from(&result.node())
}

/// A prism node as a `ScopeNode`.
#[verifier::external_body]
fn scope_node_from(node: &ruby_prism::Node<'_>) -> ScopeNode {
    let location = node.location();
    ScopeNode { start: location.start() as usize, end: location.end() as usize, kind: scope_kind_from(node) }
}

/// The kind of a prism node, telling programs, statement lists, classes and
/// modules apart.
#[verifier::external_body]
fn scope_kind_from(node: &ruby_prism::Node<'_>) -> ScopeKind {
    if let Some(program) = node.as_program_node() {
        ScopeKind::Body(scope_list_from(&program.statements().body()))
    } else if let Some(statements) = node.as_statements_node() {
        ScopeKind::Body(scope_list_from(&statements.body()))
    } else if let Some(class) = node.as_class_node() {
        ScopeKind::Class { path: const_path_from(&class.constant_path()), body: scope_body_from(class.body()) }
    } else if let Some(module) = node.as_module_node() {
        ScopeKind::Module { path: const_path_from(&module.constant_path()), body: scope_body_from(module.body()) }
    } else {
        ScopeKind::Other
    }
}

/// The statements of a prism node list.
#[verifier::external_body]
fn scope_list_from(list: &ruby_prism::NodeList<'_>) -> Vec<ScopeNode> {
    let mut nodes = Vec::new();
    for child in list.iter() {
        nodes.push(scope_node_from(&child));
    }
    nodes
}

/// The optional body of a prism class or module node.
#[verifier::external_body]
fn scope_body_from(body: Option<ruby_prism::Node<'_>>) -> Option<Box<ScopeNode>> {
    match body {
        Some(body) => Some(Box::new(scope_node_from(&body))),
        None => None,
    }
}

/// A prism constant path node as a `ConstPathNode`.
#[verifier::external_body]
fn const_path_from(node: &ruby_prism::Node<'_>) -> ConstPathNode {
    if let Some(read) = node.as_constant_read_node() {
        ConstPathNode::Read(constant_name_from(read.name()))
    } else if let Some(path) = node.as_constant_path_node() {
        let parent = match path.parent() {
            Some(parent) => Some(Box::new(const_path_from(&parent))),
            None => None,
        };
        let name = match path.name() {
            Some(name) => Some(constant_name_from(name)),
            None => None,
        };
        ConstPathNode::Path { parent, name }
    } else {
        ConstPathNode::Other
    }
}

/// The text of a prism constant name.
#[verifier::external_body]
fn constant_name_from(name: ruby_prism::ConstantId<'_>) -> String {
    String::from_utf8_lossy(name.as_slice()).to_string()
}

} // verus!

verus! {

/// The name spelled by a class or module constant path: `A::B`, or `::B`
/// when anchored at the top level; `None` for any other expression.
pub fn constant_path_name_from_node(node: &ConstPathNode) -> (r: Option<String>)
    ensures
        opt_bytes(r) == const_path_name(*node),
    decreases node,
{
    match node {
        ConstPathNode::Read(name) => {
            let r = to_string_of(name.as_str());
            assert(opt_bytes(Some(r)) == const_path_name(*node));
            Some(r)
        },
        ConstPathNode::Path { parent, name } => {
            let child = match name {
                Some(child) => child,
                None => return None,
            };
            match parent {
                None => {
                    let mut out = to_string_of(dcolon_str());
                    push_str(&mut out, child.as_str());
                    assert(opt_bytes(Some(out)) == const_path_name(*node));
                    Some(out)
                },
                Some(p) => {
                    let parent_name = match constant_path_name_from_node(p) {
                        Some(n) => n,
                        None => return None,
                    };
                    if str_len(parent_name.as_str()) == 0 {
                        let r = to_string_of(child.as_str());
                        assert(opt_bytes(Some(r)) == const_path_name(*node));
                        Some(r)
                    } else {
                        let mut out = parent_name;
                        push_str(&mut out, dcolon_str());
                        push_str(&mut out, child.as_str());
                        assert(opt_bytes(Some(out)) == const_path_name(*node));
                        Some(out)
                    }
                },
            }
        },
        ConstPathNode::Other => None,
    }
}

/// The bytes of an optional string reference.
pub open spec fn opt_ref_bytes(o: Option<&String>) -> Option<Seq<u8>> {
    match o {
        Some(s) => Some(bytes_of(*s)),
        None => None,
    }
}

/// Full name of a class or module declared as `raw_name` inside `parent`: a
/// name holding `::` stands on its own (leading `::` removed), any other is
/// nested under a non-empty parent.
pub fn qualify_lexical_constant_name(parent: Option<&String>, raw_name: &str) -> (r: String)
    ensures
        bytes_of(r) == qualified_name(opt_ref_bytes(parent), raw_name.spec_bytes()),
{
    let b = raw_name.as_bytes();
    let dc: [u8; 2] = [0x3a, 0x3a];
    proof {
        assert(dc@ =~= dcolon());
    }
    if find_bytes(b, 0, b.len(), dc.as_slice()).is_some() {
        let mut k: usize = 0;
        proof {
            assert(b@.skip(0) =~= b@);
        }
        while b.len() - k >= 2 && b[k] == 0x3a && b[k + 1] == 0x3a
            invariant
                k <= b@.len(),
                b@ == raw_name.spec_bytes(),
                strip_leading_double_colons(b@.skip(k as int)) == strip_leading_double_colons(b@),
                k == 0 || b@[k - 1] == 0x3a,
            decreases b@.len() - k,
        {
            proof {
                assert(b@.skip(k as int).skip(2) =~= b@.skip(k + 2));
            }
            k = k + 2;
        }
        proof {
            lemma_str_valid(raw_name);
            if k > 0 {
                lemma_after_ascii(b@, k - 1);
            }
            assert(b@.skip(k as int) =~= b@.subrange(k as int, b@.len() as int));
        }
        to_string_of(str_slice(raw_name, k, b.len()))
    } else {
        match parent {
            Some(p) => {
                if str_len(p.as_str()) > 0 {
                    let mut out = to_string_of(p.as_str());
                    push_str(&mut out, dcolon_str());
                    push_str(&mut out, raw_name);
                    out
                } else {
                    to_string_of(raw_name)
                }
            },
            None => to_string_of(raw_name),
        }
    }
}

/// The bytes of the name on top of the stack of enclosing classes/modules.
pub open spec fn stack_top(stack: Seq<String>) -> Option<Seq<u8>> {
    if stack.len() > 0 {
        Some(bytes_of(stack.last()))
    } else {
        None
    }
}

/// Visits `node` looking for `byte_offset`: every class or module whose span
/// holds the offset and whose name resolves becomes the new `best`, and its
/// body is searched with its full name on the stack. The stack is left as it
/// was found.
pub fn collect_lexical_class_context(
    node: &ScopeNode,
    byte_offset: usize,
    stack: &mut Vec<String>,
    best: &mut Option<String>,
)
    ensures
        final(stack)@ == old(stack)@,
        opt_bytes(*final(best)) == lexical_best(
            *node,
            byte_offset as int,
            stack_top(old(stack)@),
            opt_bytes(*old(best)),
        ),
    decreases node,
{
    if byte_offset < node.start || byte_offset > node.end {
        return;
    }
    match &node.kind {
        ScopeKind::Body(children) => {
            let ghost best0 = opt_bytes(*best);
            let mut i: usize = 0;
            while i < children.len()
                invariant
                    i <= children@.len(),
                    stack@ == old(stack)@,
                    opt_bytes(*best) == lexical_best_list(
                        children@.take(i as int),
                        byte_offset as int,
                        stack_top(stack@),
                        best0,
                    ),
                    best0 == opt_bytes(*old(best)),
                    node.kind == ScopeKind::Body(*children),
                decreases children@.len() - i,
            {
                proof {
                    assert(children@.take(i + 1).drop_last() =~= children@.take(i as int));
                    assert(children@.take(i + 1).last() == children@[i as int]);
                }
                proof {
                    assert(decreases_to!(*node => node.kind));
                    assert(node.kind == ScopeKind::Body(*children));
                    assert(decreases_to!(node.kind => node.kind->Body_0));
                    assert(decreases_to!(node.kind->Body_0 => node.kind->Body_0@));
                    assert(decreases_to!(node.kind->Body_0@ => node.kind->Body_0@[i as int]));
                }
                collect_lexical_class_context(&children[i], byte_offset, stack, best);
                i = i + 1;
            }
            proof {
                assert(children@.take(children@.len() as int) =~= children@);
            }
        },
        ScopeKind::Class { path, body } => {
            if let Some(raw) = constant_path_name_from_node(path) {
                let full = {
                    let top = if stack.len() > 0 {
                        Some(&stack[stack.len() - 1])
                    } else {
                        None
                    };
                    qualify_lexical_constant_name(top, raw.as_str())
                };
                stack.push(full.clone());
                *best = Some(full);
                if let Some(b) = body {
                    collect_lexical_class_context(b, byte_offset, stack, best);
                }
                stack.pop();
                proof {
                    assert(stack@ =~= old(stack)@);
                }
            }
        },
        ScopeKind::Module { path, body } => {
            if let Some(raw) = constant_path_name_from_node(path) {
                let full = {
                    let top = if stack.len() > 0 {
                        Some(&stack[stack.len() - 1])
                    } else {
                        None
                    };
                    qualify_lexical_constant_name(top, raw.as_str())
                };
                stack.push(full.clone());
                *best = Some(full);
                if let Some(b) = body {
                    collect_lexical_class_context(b, byte_offset, stack, best);
                }
                stack.pop();
                proof {
                    assert(stack@ =~= old(stack)@);
                }
            }
        },
        ScopeKind::Other => {},
    }
}

/// The lexical class/module context at `byte_offset` in a parsed tree.
pub fn lexical_class_context_in(tree: &ScopeNode, byte_offset: usize) -> (r: Option<String>)
    ensures
        opt_bytes(r) == lexical_best(*tree, byte_offset as int, None, None),
{
    let mut stack: Vec<String> = Vec::new();
    let mut best: Option<String> = None;
    collect_lexical_class_context(tree, byte_offset, &mut stack, &mut best);
    best
}

/// The lexical class/module context at `byte_offset` of Ruby `source`.
pub fn lexical_class_context_at(source: &str, byte_offset: usize) -> (r: Option<String>)
    ensures
        opt_bytes(r) == lexical_best(
            prism_scope_tree(source.spec_bytes()),
            byte_offset as int,
            None,
            None,
        ),
{
    let tree = parse_scope_tree(source.as_bytes());
    lexical_class_context_in(&tree, byte_offset)
}

} // verus!
