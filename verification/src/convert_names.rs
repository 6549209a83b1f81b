//! C Convert Names pass: converts all names to C-safe versions.
use vstd::prelude::*;
use crate::ast::{group_ast_views, lemma_nodes_view, nodes_view, Node, NodeSpec};
use crate::errors::{Error, ResultLog};
use crate::text::{chars_of, push_char, push_str};
use crate::tree::{
    children, lemma_children_smaller, lemma_size_seq_element, put_children, size, size_seq,
    take_children, tree_all, with_children,
};

verus! {

broadcast use group_ast_views;

/// The C-safe spelling of one character of a name.
pub open spec fn c_safe_char(c: char) -> Seq<char> {
    if c == '/' {
        seq!['_', '_']
    } else if c == '-' {
        seq!['_']
    } else {
        seq![c]
    }
}

/// The C-safe version of a name: every `/` becomes `__` and every `-` becomes `_`.
pub open spec fn c_safe_name(s: Seq<char>) -> Seq<char>
    decreases s.len(),
{
    if s.len() == 0 {
        s
    } else {
        c_safe_name(s.drop_last()) + c_safe_char(s.last())
    }
}

/// Whether a name holds neither `/` nor `-`.
pub open spec fn is_c_safe(s: Seq<char>) -> bool {
    forall|i: int| 0 <= i < s.len() ==> #[trigger] s[i] != '/' && s[i] != '-'
}

/// A node whose own name (variable, accessed property, binding or function name) is made
/// C-safe.
pub open spec fn renamed(n: NodeSpec) -> NodeSpec {
    match n {
        NodeSpec::Variable { name, typ } => NodeSpec::Variable { name: c_safe_name(name), typ },
        NodeSpec::Access { target, property, typ } => NodeSpec::Access {
            target,
            property: c_safe_name(property),
            typ,
        },
        NodeSpec::Binding { name, binding } => NodeSpec::Binding {
            name: c_safe_name(name),
            binding,
        },
        NodeSpec::Function { name, arguments, return_type, body, typ } => NodeSpec::Function {
            name: c_safe_name(name),
            arguments,
            return_type,
            body,
            typ,
        },
        _ => n,
    }
}

/// The tree with every variable, accessed property, binding and function name made C-safe.
pub open spec fn converted_names(n: NodeSpec) -> NodeSpec
    decreases size(n), 0nat,
{
    proof {
        lemma_children_smaller(n);
    }
    renamed(with_children(n, converted_names_seq(children(n))))
}

/// [`converted_names`] of each tree of a sequence.
pub open spec fn converted_names_seq(s: Seq<NodeSpec>) -> Seq<NodeSpec>
    decreases size_seq(s), 1nat,
{
    if s.len() == 0 {
        s
    } else {
        proof {
            lemma_size_seq_element(s, s.len() - 1);
        }
        converted_names_seq(s.drop_last()).push(converted_names(s.last()))
    }
}

/// A C-safe name holds neither `/` nor `-`.
pub proof fn lemma_c_safe_name_is_safe(s: Seq<char>)
    ensures
        is_c_safe(c_safe_name(s)),
    decreases s.len(),
{
    if s.len() > 0 {
        lemma_c_safe_name_is_safe(s.drop_last());
        let a = c_safe_name(s.drop_last());
        let b = c_safe_char(s.last());
        assert forall|i: int| 0 <= i < (a + b).len() implies #[trigger] (a + b)[i] != '/' && (a
            + b)[i] != '-' by {
            if i >= a.len() {
                assert((a + b)[i] == b[i - a.len()]);
            }
        }
    }
}

/// Converting a name that is already C-safe leaves it unchanged.
pub proof fn lemma_c_safe_name_of_safe(s: Seq<char>)
    requires
        is_c_safe(s),
    ensures
        c_safe_name(s) == s,
    decreases s.len(),
{
    if s.len() > 0 {
        assert(is_c_safe(s.drop_last())) by {
            assert forall|i: int| 0 <= i < s.drop_last().len() implies #[trigger] s.drop_last()[i]
                != '/' && s.drop_last()[i] != '-' by {
                assert(s.drop_last()[i] == s[i]);
            }
        }
        lemma_c_safe_name_of_safe(s.drop_last());
        assert(s[s.len() - 1] != '/' && s[s.len() - 1] != '-');
        assert(s.drop_last() + seq![s.last()] =~= s);
    }
}

/// Converting names twice is the same as converting them once.
pub proof fn lemma_c_safe_name_idempotent(s: Seq<char>)
    ensures
        c_safe_name(c_safe_name(s)) == c_safe_name(s),
{
    lemma_c_safe_name_is_safe(s);
    lemma_c_safe_name_of_safe(c_safe_name(s));
}

/// Whether a node's own name (of a variable, accessed property, binding or function) is
/// C-safe.
pub open spec fn own_name_safe(n: NodeSpec) -> bool {
    match n {
        NodeSpec::Variable { name, .. } => is_c_safe(name),
        NodeSpec::Access { property, .. } => is_c_safe(property),
        NodeSpec::Binding { name, .. } => is_c_safe(name),
        NodeSpec::Function { name, .. } => is_c_safe(name),
        _ => true,
    }
}

/// The map over a sequence keeps its length and maps each element.
pub proof fn lemma_converted_names_seq(s: Seq<NodeSpec>)
    ensures
        converted_names_seq(s).len() == s.len(),
        forall|i: int| 0 <= i < s.len() ==> #[trigger] converted_names_seq(s)[i] == converted_names(s[i]),
    decreases s.len(),
{
    if s.len() > 0 {
        lemma_converted_names_seq(s.drop_last());
        assert forall|i: int| 0 <= i < s.len() implies #[trigger] converted_names_seq(s)[i]
            == converted_names(s[i]) by {
            if i < s.len() - 1 {
                assert(s.drop_last()[i] == s[i]);
            }
        }
    }
}

/// After the pass every name in the tree (of every variable, accessed property, binding and
/// function) is C-safe.
pub proof fn lemma_converted_names_safe(n: NodeSpec)
    ensures
        tree_all(converted_names(n), |m: NodeSpec| own_name_safe(m)),
    decreases size(n),
{
    lemma_children_smaller(n);
    let cs = children(n);
    lemma_converted_names_seq(cs);
    let rs = converted_names_seq(cs);
    assert forall|i: int| 0 <= i < rs.len() implies tree_all(#[trigger] rs[i], |m: NodeSpec| own_name_safe(m)) by {
        lemma_converted_names_safe(cs[i]);
    }
    crate::tree::lemma_fits_children(n);
    crate::flatten_definitions::lemma_children_of_with_children(n, rs);
    let m = with_children(n, rs);
    let out = renamed(m);
    assert(children(out) == children(m));
    match m {
        NodeSpec::Variable { name, .. } => lemma_c_safe_name_is_safe(name),
        NodeSpec::Access { property, .. } => lemma_c_safe_name_is_safe(property),
        NodeSpec::Binding { name, .. } => lemma_c_safe_name_is_safe(name),
        NodeSpec::Function { name, .. } => lemma_c_safe_name_is_safe(name),
        _ => {},
    }
    crate::tree::lemma_tree_all_seq(rs, |m: NodeSpec| own_name_safe(m));
}

/// A tree whose names are all C-safe is left exactly as it is.
pub proof fn lemma_safe_tree_unchanged(n: NodeSpec)
    requires
        tree_all(n, |m: NodeSpec| own_name_safe(m)),
    ensures
        converted_names(n) == n,
    decreases size(n),
{
    lemma_children_smaller(n);
    crate::tree::lemma_tree_all_children(n, |m: NodeSpec| own_name_safe(m));
    let cs = children(n);
    lemma_converted_names_seq(cs);
    assert forall|i: int| 0 <= i < cs.len() implies converted_names(#[trigger] cs[i]) == cs[i] by {
        lemma_safe_tree_unchanged(cs[i]);
    }
    assert(converted_names_seq(cs) =~= cs);
    crate::tree::lemma_with_own_children(n);
    match n {
        NodeSpec::Variable { name, .. } => lemma_c_safe_name_of_safe(name),
        NodeSpec::Access { property, .. } => lemma_c_safe_name_of_safe(property),
        NodeSpec::Binding { name, .. } => lemma_c_safe_name_of_safe(name),
        NodeSpec::Function { name, .. } => lemma_c_safe_name_of_safe(name),
        _ => {},
    }
}

/// A function and a variable with the same name get the same new name, and a definition is
/// renamed only by its own conversion: the pass keeps a function a function and a variable a
/// variable, each named by the C-safe version of its name.
pub proof fn lemma_definitions_and_references_agree(n: NodeSpec, v: NodeSpec)
    requires
        n is Function,
        v is Variable,
        n->Function_name == v->Variable_name,
    ensures
        converted_names(n) is Function,
        converted_names(v) is Variable,
        converted_names(n)->Function_name == converted_names(v)->Variable_name,
        is_c_safe(converted_names(n)->Function_name),
        is_c_safe(n->Function_name) ==> converted_names(n)->Function_name == n->Function_name,
{
    lemma_children_smaller(n);
    lemma_converted_names_seq(children(n));
    lemma_converted_names_seq(children(v));
    lemma_c_safe_name_is_safe(n->Function_name);
    if is_c_safe(n->Function_name) {
        lemma_c_safe_name_of_safe(n->Function_name);
    }
}

/// ## C Convert Names Pass
///
/// - Converts all names to C-safe versions
pub struct ConvertNames {}

impl ConvertNames {
    pub fn new() -> ConvertNames {
        ConvertNames {}
    }

    /// The C-safe version of a name.
    pub fn convert_name(&self, name: String) -> (r: String)
        ensures
            r@ == c_safe_name(name@),
    {
        let chars = chars_of(&name);
        let mut result = String::new();
        let mut i: usize = 0;
        while i < chars.len()
            invariant
                i <= chars.len(),
                chars@ == name@,
                result@ == c_safe_name(name@.subrange(0, i as int)),
            decreases chars.len() - i,
        {
            let c = chars[i];
            if c == '/' {
                push_str(&mut result, "__");
            } else if c == '-' {
                push_str(&mut result, "_");
            } else {
                push_char(&mut result, c);
            }
            proof {
                let t = name@.subrange(0, i + 1);
                assert(t.drop_last() =~= name@.subrange(0, i as int));
                assert(t.last() == c);
                reveal_strlit("__");
                reveal_strlit("_");
                assert(result@ =~= c_safe_name(t));
            }
            i += 1;
        }
        assert(name@.subrange(0, chars.len() as int) =~= name@);
        result
    }

    fn rename(&self, node: Node) -> (r: Node)
        ensures
            r@ == renamed(node@),
    {
        match node {
            Node::Variable { name, typ } => Node::Variable { name: self.convert_name(name), typ },
            Node::Access { target, property, typ } => Node::Access {
                target,
                property: self.convert_name(property),
                typ,
            },
            Node::Binding { name, binding } => Node::Binding {
                name: self.convert_name(name),
                binding,
            },
            Node::Function { name, arguments, return_type, body, typ } => Node::Function {
                name: self.convert_name(name),
                arguments,
                return_type,
                body,
                typ,
            },
            other => other,
        }
    }

    fn convert(&self, node: Node) -> (r: Node)
        ensures
            r@ == converted_names(node@),
        decreases size(node@),
    {
        let ghost n = node@;
        proof {
            lemma_children_smaller(n);
        }
        let (shell, kids) = take_children(node);
        let ghost cs = children(n);
        let mut done: Vec<Node> = Vec::new();
        let mut rest = kids;
        proof {
            lemma_nodes_view(rest);
        }
        while rest.len() > 0
            invariant
                n == node@,
                done.len() + rest.len() == cs.len(),
                nodes_view(done) == converted_names_seq(cs.take(done.len() as int)),
                forall|j: int| 0 <= j < rest.len() ==> (#[trigger] rest@[j])@ == cs[done.len() + j],
                forall|j: int| 0 <= j < cs.len() ==> size(#[trigger] cs[j]) < size(n),
            decreases rest.len(),
        {
            let ghost i = done.len() as int;
            let ghost before = rest@;
            let k = rest.remove(0);
            assert(k@ == cs[i]);
            let k2 = self.convert(k);
            done.push(k2);
            proof {
                lemma_nodes_view(done);
                let t = cs.take(i + 1);
                assert(t.drop_last() =~= cs.take(i));
                assert(t.last() == cs[i]);
                assert(nodes_view(done) =~= converted_names_seq(t));
                assert forall|j: int| 0 <= j < rest.len() implies (#[trigger] rest@[j])@ == cs[done.len()
                    + j] by {
                    assert(rest@[j] == before[j + 1]);
                }
            }
        }
        assert(cs.take(cs.len() as int) =~= cs);
        let rebuilt = put_children(shell, done);
        self.rename(rebuilt)
    }

    /// Converts all variable, accessed property, binding and function names of the tree to
    /// C-safe versions.
    pub fn apply(&mut self, node: &mut Node) -> (r: ResultLog<(), Error>)
        ensures
            final(node)@ == converted_names(old(node)@),
            r is Success,
    {
        let n = node.extract_temp();
        *node = self.convert(n);
        ResultLog::Success(())
    }
}

} // verus!
