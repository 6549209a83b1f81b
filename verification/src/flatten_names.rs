//! Flatten Names pass: gives every definition a name that is unique in the whole program.
use vstd::prelude::*;
use crate::ast::{
    arguments_view, group_ast_views, lemma_arguments_view, lemma_nodes_view, nodes_view,
    Argument, ArgumentSpec, Node, NodeSpec, SequenceMode,
};
use crate::bindings::{
    function_name, function_spec_name, functions_of, functions_spec, lemma_added_bindings,
    lemma_added_definitions, lemma_functions_of, state_add_binding, state_add_bindings,
    state_add_definitions, state_enter, state_leave, state_lookup, state_root, state_wf,
    BindingState, StateSpec,
};
use crate::errors::{Error, ResultLog};
use crate::names::{next_count, temp_name, TempNameGenerator};
use crate::text::{push_char, push_string};
use crate::tree::{
    children, lemma_children_smaller, lemma_size_seq_element, put_children, size, size_seq,
    take_children, with_children,
};

verus! {

broadcast use group_ast_views;

/// The scope that encloses a node, which prefixes the names of the definitions in it.
#[derive(Debug)]
pub enum ParentScope {
    /// Outside the program.
    Outside,
    /// The program's root sequence.
    Root,
    /// The body of the named function.
    Function(String),
    /// A nested sequence with the given name.
    Sequence(String),
}

/// Model of [`ParentScope`].
pub enum ScopeSpec {
    Outside,
    Root,
    Function(Seq<char>),
    Sequence(Seq<char>),
}

impl View for ParentScope {
    type V = ScopeSpec;

    open spec fn view(&self) -> ScopeSpec {
        match self {
            ParentScope::Outside => ScopeSpec::Outside,
            ParentScope::Root => ScopeSpec::Root,
            ParentScope::Function(name) => ScopeSpec::Function(name@),
            ParentScope::Sequence(name) => ScopeSpec::Sequence(name@),
        }
    }
}

/// The name of a scope (empty outside any function or nested sequence).
pub open spec fn scope_name(s: ScopeSpec) -> Seq<char> {
    match s {
        ScopeSpec::Outside | ScopeSpec::Root => Seq::empty(),
        ScopeSpec::Function(name) | ScopeSpec::Sequence(name) => name,
    }
}

/// The full name of `name` defined in scope `s`: `scope/name`, or `name` at the top level.
pub open spec fn scoped_name(s: ScopeSpec, name: Seq<char>) -> Seq<char> {
    match s {
        ScopeSpec::Outside | ScopeSpec::Root => name,
        ScopeSpec::Function(scope) | ScopeSpec::Sequence(scope) => scope + seq!['/'] + name,
    }
}

impl ParentScope {
    /// The name of this scope.
    pub fn get_name(&self) -> (r: &str)
        ensures
            r@ == scope_name(self@),
    {
        match self {
            ParentScope::Outside | ParentScope::Root => {
                proof {
                    reveal_strlit("");
                }
                ""
            },
            ParentScope::Function(name) | ParentScope::Sequence(name) => name.as_str(),
        }
    }

    /// The full name of a definition named `child_name` in this scope.
    pub fn get_child_name(&self, child_name: &String) -> (r: String)
        ensures
            r@ == scoped_name(self@, child_name@),
    {
        match self {
            ParentScope::Outside | ParentScope::Root => child_name.clone(),
            ParentScope::Function(name) | ParentScope::Sequence(name) => {
                let mut r = name.clone();
                push_char(&mut r, '/');
                push_string(&mut r, child_name);
                assert(r@ =~= scoped_name(self@, child_name@));
                r
            },
        }
    }

    fn copy(&self) -> (r: ParentScope)
        ensures
            r@ == self@,
    {
        match self {
            ParentScope::Outside => ParentScope::Outside,
            ParentScope::Root => ParentScope::Root,
            ParentScope::Function(name) => ParentScope::Function(name.clone()),
            ParentScope::Sequence(name) => ParentScope::Sequence(name.clone()),
        }
    }
}

/// The binding of a name that is kept as it is.
pub open spec fn kept_name() -> Option<Seq<char>> {
    None
}

/// The binding of a definition named `name` in scope `s`: its full name.
pub open spec fn renamed_to(s: ScopeSpec, name: Seq<char>) -> Option<Seq<char>> {
    Some(scoped_name(s, name))
}

/// The prefix of the names given to anonymous scopes.
pub open spec fn scope_prefix() -> Seq<char> {
    seq!['s', 'c', 'o', 'p', 'e']
}

/// The definitions that a scope adds for its functions: each function's name, bound to its
/// full name in the scope.
pub open spec fn renamed_definitions(nodes: Seq<NodeSpec>, scope: ScopeSpec) -> Seq<
    (Seq<char>, Option<Seq<char>>),
> {
    functions_spec(nodes).map_values(
        |f: NodeSpec| (function_spec_name(f), renamed_to(scope, function_spec_name(f))),
    )
}

/// The definitions of the root level: each function's name, bound to nothing (kept as is).
pub open spec fn kept_definitions(nodes: Seq<NodeSpec>) -> Seq<(Seq<char>, Option<Seq<char>>)> {
    functions_spec(nodes).map_values(
        |f: NodeSpec| (function_spec_name(f), kept_name()),
    )
}

/// The bindings of a function's arguments: each argument's name, bound to nothing (so that
/// it shadows definitions of the same name).
pub open spec fn argument_entries(arguments: Seq<ArgumentSpec>) -> Seq<
    (Seq<char>, Option<Seq<char>>),
> {
    arguments.map_values(|a: ArgumentSpec| (a.name, kept_name()))
}

/// Whether the children of a node get a scope of their own.
pub open spec fn opens_scope(n: NodeSpec) -> bool {
    n matches NodeSpec::Sequence { mode: SequenceMode::Scope, .. } || n is Function
}

/// The scope of the children of a node, and the count of anonymous scope names after
/// naming it.
pub open spec fn inner_scope(n: NodeSpec, scope: ScopeSpec, c: nat) -> (ScopeSpec, nat) {
    match n {
        NodeSpec::Sequence { mode: SequenceMode::Scope, .. } => match scope {
            ScopeSpec::Outside => (ScopeSpec::Root, c),
            ScopeSpec::Function(f) => (ScopeSpec::Sequence(f), c),
            _ => (
                ScopeSpec::Sequence(scoped_name(scope, temp_name(scope_prefix(), next_count(c)))),
                next_count(c),
            ),
        },
        NodeSpec::Function { name, .. } => (ScopeSpec::Function(scoped_name(scope, name)), c),
        _ => (scope, c),
    }
}

/// The binding state of the children of a node.
pub open spec fn inner_state(
    n: NodeSpec,
    scope: ScopeSpec,
    st: StateSpec<Option<Seq<char>>>,
) -> StateSpec<Option<Seq<char>>> {
    match n {
        NodeSpec::Sequence { mode: SequenceMode::Scope, nodes, .. } => state_add_definitions(
            state_enter(st, true, true),
            renamed_definitions(nodes, scope),
        ),
        NodeSpec::Function { arguments, .. } => state_add_bindings(
            state_enter(st, true, false),
            argument_entries(arguments),
        ),
        _ => st,
    }
}

/// A node after its children: variables bound to a renamed definition take the new name,
/// bindings shadow definitions for the rest of their scope, and functions take their full
/// name.
pub open spec fn names_exit(
    n: NodeSpec,
    scope: ScopeSpec,
    st: StateSpec<Option<Seq<char>>>,
) -> (NodeSpec, StateSpec<Option<Seq<char>>>) {
    match n {
        NodeSpec::Variable { name, typ } => match state_lookup(st, name) {
            Some(Some(new_name)) => (NodeSpec::Variable { name: new_name, typ }, st),
            _ => (n, st),
        },
        NodeSpec::Binding { name, .. } => (n, state_add_binding(st, name, None)),
        NodeSpec::Function { name, arguments, return_type, body, typ } => (
            NodeSpec::Function { name: scoped_name(scope, name), arguments, return_type, body, typ },
            st,
        ),
        _ => (n, st),
    }
}

/// The tree `n`, in scope `scope` with binding state `st` and `c` anonymous scope names
/// drawn, with its definitions renamed; with the binding state after it and the count of
/// anonymous scope names drawn.
pub open spec fn flattened_names(
    n: NodeSpec,
    scope: ScopeSpec,
    st: StateSpec<Option<Seq<char>>>,
    c: nat,
) -> (NodeSpec, StateSpec<Option<Seq<char>>>, nat)
    decreases size(n), 0nat,
{
    proof {
        lemma_children_smaller(n);
    }
    let (scope1, c1) = inner_scope(n, scope, c);
    let st1 = inner_state(n, scope1, st);
    let r = flattened_names_seq(children(n), scope1, st1, c1);
    let st2 = if opens_scope(n) {
        state_leave(r.1)
    } else {
        r.1
    };
    let e = names_exit(with_children(n, r.0), scope, st2);
    (e.0, e.1, r.2)
}

/// [`flattened_names`] of each tree of a sequence, in order, threading the state.
pub open spec fn flattened_names_seq(
    s: Seq<NodeSpec>,
    scope: ScopeSpec,
    st: StateSpec<Option<Seq<char>>>,
    c: nat,
) -> (Seq<NodeSpec>, StateSpec<Option<Seq<char>>>, nat)
    decreases size_seq(s), 1nat,
{
    if s.len() == 0 {
        (s, st, c)
    } else {
        proof {
            lemma_size_seq_element(s, s.len() - 1);
        }
        let r = flattened_names_seq(s.drop_last(), scope, st, c);
        let e = flattened_names(s.last(), scope, r.1, r.2);
        (r.0.push(e.0), e.1, e.2)
    }
}

/// The binding state at the root: the functions of a root sequence keep their names.
pub open spec fn root_names_state(root: NodeSpec) -> StateSpec<Option<Seq<char>>> {
    match root {
        NodeSpec::Sequence { nodes, .. } => state_add_definitions(
            state_root(),
            kept_definitions(nodes),
        ),
        _ => state_root(),
    }
}

/// ## FlattenNames Pass
///
/// - Makes all definition names unique (such that they can appear as top-level definitions in C)
///     - ex. nested `fn Foo { fn Bar }` to `fn Foo { fn Foo/Bar }`
///     - Generates unique names for anonymous sequence scopes
/// - Updates variable references to renamed definitions (respecting shadowing / scope binding rules)
/// - Leaves definition nodes in-place for `FlattenDefinitions` to extract
pub struct FlattenNames {
    anonymous_scope_names: TempNameGenerator,
}

impl FlattenNames {
    /// How many anonymous scope names were drawn so far.
    pub closed spec fn count(&self) -> nat {
        self.anonymous_scope_names.count()
    }

    /// Whether the names drawn are those of anonymous scopes.
    pub closed spec fn wf(&self) -> bool {
        self.anonymous_scope_names.prefix() == scope_prefix()
    }

    pub fn new() -> (r: FlattenNames)
        ensures
            r.wf(),
            r.count() == 0,
    {
        proof {
            reveal_strlit("scope");
            assert("scope"@ =~= scope_prefix());
        }
        FlattenNames { anonymous_scope_names: TempNameGenerator::new("scope") }
    }

    fn exit(&self, node: Node, scope: &ParentScope, state: &mut BindingState<Option<String>>) -> (r: Node)
        requires
            state_wf(old(state).model()),
        ensures
            state_wf(final(state).model()),
            final(state).model().bindings.len() == old(state).model().bindings.len(),
            (r@, final(state).model()) == names_exit(node@, scope@, old(state).model()),
    {
        match node {
            Node::Variable { name, typ } => {
                let new_name: Option<String> = match state.lookup(&name) {
                    Some(Some(new_name)) => Some(new_name.clone()),
                    _ => None,
                };
                match new_name {
                    Some(new_name) => Node::Variable { name: new_name, typ },
                    None => Node::Variable { name, typ },
                }
            },
            Node::Binding { name, binding } => {
                state.add_binding(&name, None);
                Node::Binding { name, binding }
            },
            Node::Function { name, arguments, return_type, body, typ } => {
                let name = scope.get_child_name(&name);
                Node::Function { name, arguments, return_type, body, typ }
            },
            other => other,
        }
    }

    /// Opens the scope of the children of a scoped sequence.
    fn enter_sequence(state: &mut BindingState<Option<String>>, nodes: &Vec<Node>, scope: &ParentScope)
        requires
            state_wf(old(state).model()),
        ensures
            state_wf(final(state).model()),
            final(state).model().bindings.len() == old(state).model().bindings.len() + 1,
            final(state).model() == state_add_definitions(
                state_enter(old(state).model(), true, true),
                renamed_definitions(nodes_view(*nodes), scope@),
            ),
    {
        state.enter(true, true);
        let ghost entered = state.model();
        let get_binding = |function: &Node| -> (r: Option<String>)
            ensures
                function is Function ==> r.deep_view() == renamed_to(scope@, function_name(*function)),
        {
            match function {
                Node::Function { name, .. } => Some(scope.get_child_name(name)),
                _ => None,
            }
        };
        state.add_definitions_from_functions(nodes, get_binding);
        proof {
            lemma_functions_of(*nodes);
            let entries = renamed_definitions(nodes_view(*nodes), scope@);
            let after = state.model().definitions.last().local;
            assert(entered.definitions.last().local.len() == 0);
            assert forall|j: int| 0 <= j < entries.len() implies after[j] == entries[j] by {
                assert(after[entered.definitions.last().local.len() + j] == after[j]);
            }
            assert(after =~= entered.definitions.last().local + entries);
            lemma_added_definitions(entered, state.model(), entries);
        }
    }

    /// Opens the scope of the body of a function.
    fn enter_function(state: &mut BindingState<Option<String>>, arguments: &Vec<Argument>)
        requires
            state_wf(old(state).model()),
        ensures
            state_wf(final(state).model()),
            final(state).model().bindings.len() == old(state).model().bindings.len() + 1,
            final(state).model() == state_add_bindings(
                state_enter(old(state).model(), true, false),
                argument_entries(arguments_view(*arguments)),
            ),
    {
        state.enter(true, false);
        let ghost entered = state.model();
        let get_binding = |argument: &Argument| -> (r: Option<String>)
            ensures
                r.deep_view() == kept_name(),
        {
            None
        };
        state.add_bindings_from_arguments(arguments, get_binding);
        proof {
            lemma_arguments_view(*arguments);
            let entries = argument_entries(arguments_view(*arguments));
            let after = state.model().bindings.last().local;
            assert(entered.bindings.last().local.len() == 0);
            assert forall|j: int| 0 <= j < entries.len() implies after[j] == entries[j] by {
                assert(after[entered.bindings.last().local.len() + j] == after[j]);
            }
            assert(after =~= entered.bindings.last().local + entries);
            lemma_added_bindings(entered, state.model(), entries);
        }
    }

    fn walk(&mut self, node: Node, scope: &ParentScope, state: &mut BindingState<Option<String>>) -> (r: Node)
        requires
            old(self).wf(),
            state_wf(old(state).model()),
        ensures
            final(self).wf(),
            state_wf(final(state).model()),
            final(state).model().bindings.len() == old(state).model().bindings.len(),
            (r@, final(state).model(), final(self).count()) == flattened_names(
                node@,
                scope@,
                old(state).model(),
                old(self).count(),
            ),
        decreases size(node@),
    {
        let ghost n = node@;
        let ghost st0 = state.model();
        proof {
            lemma_children_smaller(n);
        }
        let opens = match &node {
            Node::Sequence { mode: SequenceMode::Scope, .. } => true,
            Node::Function { .. } => true,
            _ => false,
        };
        let inner: ParentScope = match &node {
            Node::Sequence { mode: SequenceMode::Scope, .. } => match scope {
                ParentScope::Outside => ParentScope::Root,
                ParentScope::Function(f) => ParentScope::Sequence(f.clone()),
                _ => {
                    let anonymous = self.anonymous_scope_names.next();
                    ParentScope::Sequence(scope.get_child_name(&anonymous))
                },
            },
            Node::Function { name, .. } => ParentScope::Function(scope.get_child_name(name)),
            _ => scope.copy(),
        };
        assert((inner@, self.count()) == inner_scope(n, scope@, old(self).count()));
        match &node {
            Node::Sequence { mode: SequenceMode::Scope, nodes, .. } => {
                Self::enter_sequence(state, nodes, &inner);
            },
            Node::Function { arguments, .. } => {
                Self::enter_function(state, arguments);
            },
            _ => {},
        }
        let ghost st1 = state.model();
        let ghost c1 = self.count();
        let ghost depth = state.model().bindings.len();
        assert(st1 == inner_state(n, inner@, st0));
        let (shell, kids) = take_children(node);
        let ghost cs = children(n);
        let mut done: Vec<Node> = Vec::new();
        let mut rest = kids;
        proof {
            lemma_nodes_view(rest);
            assert(cs.take(0) =~= Seq::<NodeSpec>::empty());
            lemma_nodes_view(done);
        }
        while rest.len() > 0
            invariant
                n == node@,
                self.wf(),
                state_wf(state.model()),
                state.model().bindings.len() == depth,
                done.len() + rest.len() == cs.len(),
                forall|j: int| 0 <= j < rest.len() ==> (#[trigger] rest@[j])@ == cs[done.len() + j],
                forall|j: int| 0 <= j < cs.len() ==> size(#[trigger] cs[j]) < size(n),
                (nodes_view(done), state.model(), self.count()) == flattened_names_seq(
                    cs.take(done.len() as int),
                    inner@,
                    st1,
                    c1,
                ),
            decreases rest.len(),
        {
            let ghost i = done.len() as int;
            let ghost before = rest@;
            let k = rest.remove(0);
            assert(k@ == cs[i]);
            let k2 = self.walk(k, &inner, state);
            done.push(k2);
            proof {
                lemma_nodes_view(done);
                let t = cs.take(i + 1);
                assert(t.drop_last() =~= cs.take(i));
                assert(t.last() == cs[i]);
                assert(nodes_view(done) =~= flattened_names_seq(t, inner@, st1, c1).0);
                assert forall|j: int| 0 <= j < rest.len() implies (#[trigger] rest@[j])@
                    == cs[done.len() + j] by {
                    assert(rest@[j] == before[j + 1]);
                }
            }
        }
        assert(cs.take(cs.len() as int) =~= cs);
        if opens {
            state.leave();
        }
        let rebuilt = put_children(shell, done);
        self.exit(rebuilt, scope, state)
    }

    /// Renames every definition to its full scoped name, and every variable that refers to a
    /// renamed definition.
    pub fn apply(&mut self, node: &mut Node) -> (r: ResultLog<(), Error>)
        requires
            old(self).wf(),
        ensures
            final(self).wf(),
            final(node)@ == flattened_names(
                old(node)@,
                ScopeSpec::Outside,
                root_names_state(old(node)@),
                old(self).count(),
            ).0,
            final(self).count() == flattened_names(
                old(node)@,
                ScopeSpec::Outside,
                root_names_state(old(node)@),
                old(self).count(),
            ).2,
            r is Success,
    {
        let n = node.extract_temp();
        let mut state: BindingState<Option<String>> = BindingState::root();
        match &n {
            Node::Sequence { nodes, .. } => {
                let ghost root = state.model();
                let get_binding = |function: &Node| -> (r: Option<String>)
                    ensures
                        r.deep_view() == kept_name(),
                {
                    None
                };
                state.add_definitions_from_functions(nodes, get_binding);
                proof {
                    lemma_functions_of(*nodes);
                    let entries = kept_definitions(nodes_view(*nodes));
                    let after = state.model().definitions.last().local;
                    assert(root.definitions.last().local.len() == 0);
                    assert forall|j: int| 0 <= j < entries.len() implies after[j] == entries[j] by {
                        assert(after[root.definitions.last().local.len() + j] == after[j]);
                    }
                    assert(after =~= root.definitions.last().local + entries);
                    lemma_added_definitions(root, state.model(), entries);
                }
            },
            _ => {},
        }
        let scope = ParentScope::Outside;
        *node = self.walk(n, &scope, &mut state);
        ResultLog::Success(())
    }
}

} // verus!
