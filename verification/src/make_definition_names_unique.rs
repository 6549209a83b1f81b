//! Unique names for function definitions: each function is renamed after the scopes that
//! enclose it (`_outer/inner`), and the variables that refer to it follow.
use vstd::prelude::*;
use crate::ast::{group_ast_views, lemma_nodes_view, nodes_view, Node, NodeSpec};
use crate::entry_list::{
    entries_map, keys_distinct, lemma_entries_map_index, lemma_entries_map_push,
    lemma_entries_map_remove, lemma_entries_map_update,
};
use crate::names::{next_count, temp_name, TempNameGenerator};
use crate::text::{push_char, push_string};
use crate::tree::{
    children, lemma_children_smaller, lemma_fits_children, lemma_size_seq_element, put_children,
    size, size_seq, take_children, with_children,
};

verus! {

broadcast use group_ast_views;

/// What a scope stands for.
#[derive(Clone, Copy, PartialEq, Eq, Structural, Debug)]
pub enum Context {
    /// The body of a named function.
    FunctionBody,
    /// A scope opened for the definitions of a sequence (or no scope at all).
    Generic,
}

/// Model of an [`Environment`]: the enclosing scopes (innermost last), the new names of the
/// functions in view, and how many anonymous scope names were drawn.
pub struct EnvironmentSpec {
    pub scopes: Seq<(Seq<char>, Context)>,
    pub overrides: Map<Seq<char>, Seq<char>>,
    pub count: nat,
}

/// The prefix of the names of anonymous scopes.
pub open spec fn scope_prefix() -> Seq<char> {
    seq!['s', 'c', 'o', 'p', 'e']
}

/// The names of the scopes, each followed by `/`.
pub open spec fn scope_path(scopes: Seq<(Seq<char>, Context)>) -> Seq<char>
    decreases scopes.len(),
{
    if scopes.len() == 0 {
        Seq::empty()
    } else {
        scope_path(scopes.drop_last()) + scopes.last().0 + seq!['/']
    }
}

/// The name of `name` inside the given scopes: the name itself at the top level, else `_`,
/// the scope path and the name.
pub open spec fn scoped_name(scopes: Seq<(Seq<char>, Context)>, name: Seq<char>) -> Seq<char> {
    if scopes.len() == 0 {
        name
    } else {
        seq!['_'] + scope_path(scopes) + name
    }
}

/// The context of the innermost scope (generic when there is none).
pub open spec fn current_context(e: EnvironmentSpec) -> Context {
    if e.scopes.len() == 0 {
        Context::Generic
    } else {
        e.scopes.last().1
    }
}

/// The environment with a new innermost scope.
pub open spec fn env_push(e: EnvironmentSpec, name: Seq<char>, context: Context) -> EnvironmentSpec {
    EnvironmentSpec { scopes: e.scopes.push((name, context)), ..e }
}

/// The environment with a new anonymous generic scope, named by the next scope name.
pub open spec fn env_push_anonymous(e: EnvironmentSpec) -> EnvironmentSpec {
    let c = next_count(e.count);
    EnvironmentSpec {
        scopes: e.scopes.push((temp_name(scope_prefix(), c), Context::Generic)),
        overrides: e.overrides,
        count: c,
    }
}

/// The environment with its innermost scope removed (if it has one).
pub open spec fn env_pop(e: EnvironmentSpec) -> EnvironmentSpec {
    if e.scopes.len() == 0 {
        e
    } else {
        EnvironmentSpec { scopes: e.scopes.drop_last(), ..e }
    }
}

/// The environment in which `name` stands for its name in the current scopes.
pub open spec fn env_add_override(e: EnvironmentSpec, name: Seq<char>) -> EnvironmentSpec {
    EnvironmentSpec { overrides: e.overrides.insert(name, scoped_name(e.scopes, name)), ..e }
}

/// The environment in which `name` is not renamed.
pub open spec fn env_remove_override(e: EnvironmentSpec, name: Seq<char>) -> EnvironmentSpec {
    EnvironmentSpec { overrides: e.overrides.remove(name), ..e }
}

/// The names of the functions among `nodes`, in order.
pub open spec fn function_names(nodes: Seq<NodeSpec>) -> Seq<Seq<char>>
    decreases nodes.len(),
{
    if nodes.len() == 0 {
        Seq::empty()
    } else {
        let rest = function_names(nodes.drop_last());
        match nodes.last() {
            NodeSpec::Function { name, .. } => rest.push(name),
            _ => rest,
        }
    }
}

/// The environment with an override added for each name, in order.
pub open spec fn env_add_overrides(e: EnvironmentSpec, names: Seq<Seq<char>>) -> EnvironmentSpec
    decreases names.len(),
{
    if names.len() == 0 {
        e
    } else {
        env_add_override(env_add_overrides(e, names.drop_last()), names.last())
    }
}

/// The environment with the override of each name removed, in order.
pub open spec fn env_remove_overrides(e: EnvironmentSpec, names: Seq<Seq<char>>) -> EnvironmentSpec
    decreases names.len(),
{
    if names.len() == 0 {
        e
    } else {
        env_remove_override(env_remove_overrides(e, names.drop_last()), names.last())
    }
}

/// Whether a sequence opens an anonymous scope: it is not directly inside a function body
/// and it defines some function.
pub open spec fn opens_anonymous_scope(e: EnvironmentSpec, nodes: Seq<NodeSpec>) -> bool {
    current_context(e) == Context::Generic && function_names(nodes).len() > 0
}

/// The tree `n` with function definitions renamed after their scopes and references renamed
/// along, in the environment `e`; and the environment after it.
///
/// - A variable takes the new name of the function it names, if one is in view.
/// - A function takes its scoped name; its body is handled inside a scope named after it.
/// - After a binding, its name no longer refers to a renamed function.
/// - A sequence opens an anonymous scope when it defines functions outside a function body;
///   its functions are in view (by their new names) in all of it, and no longer after it.
pub open spec fn names_unique(n: NodeSpec, e: EnvironmentSpec) -> (NodeSpec, EnvironmentSpec)
    decreases size(n), 0nat,
{
    proof {
        lemma_children_smaller(n);
    }
    match n {
        NodeSpec::Variable { name, typ } => {
            if e.overrides.contains_key(name) {
                (NodeSpec::Variable { name: e.overrides[name], typ }, e)
            } else {
                (n, e)
            }
        },
        NodeSpec::Function { name, arguments, return_type, body, typ } => {
            let new_name = scoped_name(e.scopes, name);
            let r = names_unique(*body, env_push(e, name, Context::FunctionBody));
            (
                NodeSpec::Function { name: new_name, arguments, return_type, body: Box::new(r.0), typ },
                env_pop(r.1),
            )
        },
        NodeSpec::Binding { name, binding } => {
            let r = names_unique(*binding, e);
            (
                NodeSpec::Binding { name, binding: Box::new(r.0) },
                if r.1.overrides.contains_key(name) { env_remove_override(r.1, name) } else { r.1 },
            )
        },
        NodeSpec::Sequence { mode, nodes, typ } => {
            let added = opens_anonymous_scope(e, nodes);
            let e1 = if added { env_push_anonymous(e) } else { e };
            let names = function_names(nodes);
            let e2 = env_add_overrides(e1, names);
            let r = names_unique_seq(nodes, e2);
            let e3 = if added { env_pop(r.1) } else { r.1 };
            (NodeSpec::Sequence { mode, nodes: r.0, typ }, env_remove_overrides(e3, names))
        },
        _ => {
            let r = names_unique_seq(children(n), e);
            (with_children(n, r.0), r.1)
        },
    }
}

/// [`names_unique`] of each tree of a sequence, in order, threading the environment.
pub open spec fn names_unique_seq(s: Seq<NodeSpec>, e: EnvironmentSpec) -> (
    Seq<NodeSpec>,
    EnvironmentSpec,
)
    decreases size_seq(s), 1nat,
{
    if s.len() == 0 {
        (s, e)
    } else {
        proof {
            lemma_size_seq_element(s, s.len() - 1);
        }
        let r = names_unique_seq(s.drop_last(), e);
        let x = names_unique(s.last(), r.1);
        (r.0.push(x.0), x.1)
    }
}

/// The renamed sequence has as many trees as the given one.
pub proof fn lemma_names_unique_seq_len(s: Seq<NodeSpec>, e: EnvironmentSpec)
    ensures
        names_unique_seq(s, e).0.len() == s.len(),
    decreases s.len(),
{
    if s.len() > 0 {
        lemma_names_unique_seq_len(s.drop_last(), e);
    }
}

/// The environment at the start of the pass.
pub open spec fn initial_environment() -> EnvironmentSpec {
    EnvironmentSpec { scopes: Seq::empty(), overrides: Map::empty(), count: 0 }
}

/// What the pass does to the whole tree: each child of the root is handled in turn, starting
/// from an empty environment.
pub open spec fn unique_definition_names(root: NodeSpec) -> NodeSpec {
    with_children(root, names_unique_seq(children(root), initial_environment()).0)
}

/// Adding or removing overrides leaves the scopes and the scope count alone.
pub proof fn lemma_overrides_keep_scopes(e: EnvironmentSpec, names: Seq<Seq<char>>)
    ensures
        env_add_overrides(e, names).scopes == e.scopes,
        env_add_overrides(e, names).count == e.count,
        env_remove_overrides(e, names).scopes == e.scopes,
        env_remove_overrides(e, names).count == e.count,
    decreases names.len(),
{
    if names.len() > 0 {
        lemma_overrides_keep_scopes(e, names.drop_last());
    }
}

/// Renaming in a tree leaves the environment's scopes as they were, and never lowers the
/// count of anonymous scope names: every scope entered is left again.
pub proof fn lemma_scopes_restored(n: NodeSpec, e: EnvironmentSpec)
    ensures
        names_unique(n, e).1.scopes == e.scopes,
        names_unique(n, e).1.count >= e.count,
    decreases size(n), 0nat,
{
    lemma_children_smaller(n);
    match n {
        NodeSpec::Function { name, body, .. } => {
            let e1 = env_push(e, name, Context::FunctionBody);
            lemma_scopes_restored(*body, e1);
            assert(e1.scopes.drop_last() =~= e.scopes);
        },
        NodeSpec::Binding { binding, .. } => {
            lemma_scopes_restored(*binding, e);
        },
        NodeSpec::Sequence { nodes, .. } => {
            let added = opens_anonymous_scope(e, nodes);
            let e1 = if added { env_push_anonymous(e) } else { e };
            let names = function_names(nodes);
            let e2 = env_add_overrides(e1, names);
            lemma_overrides_keep_scopes(e1, names);
            lemma_scopes_restored_seq(nodes, e2);
            let r = names_unique_seq(nodes, e2);
            let e3 = if added { env_pop(r.1) } else { r.1 };
            if added {
                assert(e1.scopes.drop_last() =~= e.scopes);
            }
            lemma_overrides_keep_scopes(e3, names);
        },
        NodeSpec::Variable { .. } => {},
        _ => {
            lemma_scopes_restored_seq(children(n), e);
        },
    }
}

/// [`lemma_scopes_restored`] for a sequence of trees.
pub proof fn lemma_scopes_restored_seq(s: Seq<NodeSpec>, e: EnvironmentSpec)
    ensures
        names_unique_seq(s, e).1.scopes == e.scopes,
        names_unique_seq(s, e).1.count >= e.count,
    decreases size_seq(s), 1nat,
{
    if s.len() > 0 {
        lemma_size_seq_element(s, s.len() - 1);
        lemma_scopes_restored_seq(s.drop_last(), e);
        lemma_scopes_restored(s.last(), names_unique_seq(s.drop_last(), e).1);
    }
}

/// After the overrides of some names are removed, none of those names is renamed.
pub proof fn lemma_removed_overrides(e: EnvironmentSpec, names: Seq<Seq<char>>)
    ensures
        forall|i: int| 0 <= i < names.len() ==> !env_remove_overrides(e, names).overrides.contains_key(
            #[trigger] names[i],
        ),
    decreases names.len(),
{
    if names.len() > 0 {
        lemma_removed_overrides(e, names.drop_last());
        assert forall|i: int| 0 <= i < names.len() implies !env_remove_overrides(e, names).overrides.contains_key(
            #[trigger] names[i],
        ) by {
            if i < names.len() - 1 {
                assert(names.drop_last()[i] == names[i]);
            }
        }
    }
}

/// The functions of a sequence are renamed inside it only: after the sequence, a reference
/// to the name of one of its functions is not renamed.
pub proof fn lemma_sequence_definitions_do_not_leak(n: NodeSpec, e: EnvironmentSpec)
    requires
        n is Sequence,
    ensures
        forall|i: int| 0 <= i < function_names(n->Sequence_nodes).len()
            ==> !names_unique(n, e).1.overrides.contains_key(#[trigger] function_names(n->Sequence_nodes)[i]),
{
    let nodes = n->Sequence_nodes;
    let added = opens_anonymous_scope(e, nodes);
    let e1 = if added { env_push_anonymous(e) } else { e };
    let names = function_names(nodes);
    let e2 = env_add_overrides(e1, names);
    let r = names_unique_seq(nodes, e2);
    let e3 = if added { env_pop(r.1) } else { r.1 };
    lemma_removed_overrides(e3, names);
}

/// A call that changes an environment: entering a named or an anonymous scope, leaving
/// the innermost scope, or adding or removing the renaming of a name.
pub enum EnvironmentStep {
    PushScope(Seq<char>, Context),
    PushAnonymousScope,
    PopScope,
    AddOverride(Seq<char>),
    RemoveOverride(Seq<char>),
}

/// The environment after one step (what the method of the step does to the model).
pub open spec fn env_step(e: EnvironmentSpec, step: EnvironmentStep) -> EnvironmentSpec {
    match step {
        EnvironmentStep::PushScope(name, context) => env_push(e, name, context),
        EnvironmentStep::PushAnonymousScope => env_push_anonymous(e),
        EnvironmentStep::PopScope => env_pop(e),
        EnvironmentStep::AddOverride(name) => env_add_override(e, name),
        EnvironmentStep::RemoveOverride(name) => env_remove_override(e, name),
    }
}

/// The environment after the steps, in order.
pub open spec fn env_run(e: EnvironmentSpec, steps: Seq<EnvironmentStep>) -> EnvironmentSpec
    decreases steps.len(),
{
    if steps.len() == 0 {
        e
    } else {
        env_step(env_run(e, steps.drop_last()), steps.last())
    }
}

/// Whether a step adds or removes the renaming of `name`.
pub open spec fn touches_override(step: EnvironmentStep, name: Seq<char>) -> bool {
    step == EnvironmentStep::AddOverride(name) || step == EnvironmentStep::RemoveOverride(name)
}

/// The index of the last step that adds or removes the renaming of `name` (-1 if none).
pub open spec fn last_override_step(steps: Seq<EnvironmentStep>, name: Seq<char>) -> int
    decreases steps.len(),
{
    if steps.len() == 0 {
        -1
    } else if touches_override(steps.last(), name) {
        steps.len() - 1
    } else {
        last_override_step(steps.drop_last(), name)
    }
}

/// The last step that touches the renaming of `name` is one that does, and none after it
/// does.
pub proof fn lemma_last_override_step(steps: Seq<EnvironmentStep>, name: Seq<char>)
    ensures
        -1 <= last_override_step(steps, name) < steps.len(),
        last_override_step(steps, name) >= 0 ==> touches_override(
            steps[last_override_step(steps, name)],
            name,
        ),
        forall|j: int|
            last_override_step(steps, name) < j < steps.len() ==> !touches_override(
                #[trigger] steps[j],
                name,
            ),
    decreases steps.len(),
{
    if steps.len() > 0 && !touches_override(steps.last(), name) {
        let p = steps.drop_last();
        lemma_last_override_step(p, name);
        assert forall|j: int| last_override_step(steps, name) < j < steps.len() implies !touches_override(
            #[trigger] steps[j],
            name,
        ) by {
            if j < steps.len() - 1 {
                assert(steps[j] == p[j]);
            }
        }
    }
}

/// What a sequence of calls leaves of the renaming of `name`: after the last call that adds
/// or removes it, the name is renamed exactly when that call added it, and then to its name
/// in the scopes of that moment; when no call touched it, it is renamed as before.
pub proof fn lemma_override_history(e: EnvironmentSpec, steps: Seq<EnvironmentStep>, name: Seq<char>)
    ensures
        ({
            let k = last_override_step(steps, name);
            let r = env_run(e, steps);
            &&& k == -1 ==> (r.overrides.contains_key(name) == e.overrides.contains_key(name) && (
            e.overrides.contains_key(name) ==> r.overrides[name] == e.overrides[name]))
            &&& (k >= 0 && steps[k] == EnvironmentStep::AddOverride(name)) ==> (
            r.overrides.contains_key(name) && r.overrides[name] == scoped_name(
                env_run(e, steps.take(k)).scopes,
                name,
            ))
            &&& (k >= 0 && steps[k] == EnvironmentStep::RemoveOverride(name))
                ==> !r.overrides.contains_key(name)
        }),
    decreases steps.len(),
{
    if steps.len() > 0 {
        let p = steps.drop_last();
        lemma_override_history(e, p, name);
        if touches_override(steps.last(), name) {
            assert(steps.take(steps.len() - 1) =~= p);
        } else {
            let k = last_override_step(p, name);
            lemma_last_override_step(p, name);
            if k >= 0 {
                assert(steps[k] == p[k]);
                assert(steps.take(k) =~= p.take(k));
            }
        }
    }
}

/// From a new environment, a name is renamed after a sequence of calls exactly when some
/// call added its renaming and no later call removed it.
pub proof fn lemma_override_added_and_not_removed(steps: Seq<EnvironmentStep>, name: Seq<char>)
    ensures
        env_run(initial_environment(), steps).overrides.contains_key(name) <==> exists|i: int|
            0 <= i < steps.len() && steps[i] == EnvironmentStep::AddOverride(name) && forall|j: int|
                i < j < steps.len() ==> #[trigger] steps[j] != EnvironmentStep::RemoveOverride(name),
{
    let k = last_override_step(steps, name);
    lemma_override_history(initial_environment(), steps, name);
    lemma_last_override_step(steps, name);
    if env_run(initial_environment(), steps).overrides.contains_key(name) {
        assert(k >= 0);
        assert(steps[k] == EnvironmentStep::AddOverride(name));
        assert forall|j: int| k < j < steps.len() implies #[trigger] steps[j]
            != EnvironmentStep::RemoveOverride(name) by {
            assert(!touches_override(steps[j], name));
        }
    }
    if exists|i: int|
        0 <= i < steps.len() && steps[i] == EnvironmentStep::AddOverride(name) && forall|j: int|
            i < j < steps.len() ==> #[trigger] steps[j] != EnvironmentStep::RemoveOverride(name) {
        let i = choose|i: int|
            0 <= i < steps.len() && steps[i] == EnvironmentStep::AddOverride(name) && forall|j: int|
                i < j < steps.len() ==> #[trigger] steps[j] != EnvironmentStep::RemoveOverride(name);
        assert(touches_override(steps[i], name));
        assert(k >= i);
        if k > i {
            assert(steps[k] != EnvironmentStep::RemoveOverride(name));
        }
    }
}

/// Each renamed tree of a sequence is its tree renamed in the environment left by the trees
/// before it.
pub proof fn lemma_names_unique_seq_index(s: Seq<NodeSpec>, e: EnvironmentSpec, i: int)
    requires
        0 <= i < s.len(),
    ensures
        names_unique_seq(s, e).0[i] == names_unique(s[i], names_unique_seq(s.take(i), e).1).0,
    decreases s.len(),
{
    lemma_names_unique_seq_len(s.drop_last(), e);
    if i < s.len() - 1 {
        lemma_names_unique_seq_index(s.drop_last(), e, i);
        assert(s.drop_last().take(i) =~= s.take(i));
    } else {
        assert(s.take(i) =~= s.drop_last());
    }
}

/// Functions defined at the top of the program (children of the root) keep their names.
pub proof fn lemma_top_level_names_kept(root: NodeSpec, i: int)
    requires
        0 <= i < children(root).len(),
        children(root)[i] is Function,
    ensures
        children(unique_definition_names(root))[i] is Function,
        children(unique_definition_names(root))[i]->Function_name == children(root)[i]->Function_name,
{
    let cs = children(root);
    let e0 = initial_environment();
    let rs = names_unique_seq(cs, e0);
    lemma_names_unique_seq_len(cs, e0);
    lemma_fits_children(root);
    crate::flatten_definitions::lemma_children_of_with_children(root, rs.0);
    lemma_names_unique_seq_index(cs, e0, i);
    lemma_scopes_restored_seq(cs.take(i), e0);
}

/// Model of the entries of an environment's override list.
pub open spec fn override_entries(v: Seq<(String, String)>) -> Seq<(Seq<char>, Seq<char>)> {
    v.map_values(|p: (String, String)| (p.0@, p.1@))
}

/// Scopes, with their names and what they stand for, and the new names of the functions in
/// view.
pub struct Environment {
    scopes: Vec<(String, Context)>,
    overrides: Vec<(String, String)>,
    anonymous_names: TempNameGenerator,
}

impl Environment {
    /// The model of the environment.
    pub closed spec fn model(&self) -> EnvironmentSpec {
        EnvironmentSpec {
            scopes: self.scopes@.map_values(|p: (String, Context)| (p.0@, p.1)),
            overrides: entries_map(override_entries(self.overrides@)),
            count: self.anonymous_names.count(),
        }
    }

    /// Whether the override list has one entry per name and anonymous scopes are named by
    /// the scope generator.
    pub closed spec fn wf(&self) -> bool {
        &&& keys_distinct(override_entries(self.overrides@))
        &&& self.anonymous_names.prefix() == scope_prefix()
    }

    /// An environment with no scope and no override.
    pub fn new() -> (r: Self)
        ensures
            r.wf(),
            r.model() == initial_environment(),
    {
        proof {
            reveal_strlit("scope");
            assert("scope"@ =~= scope_prefix());
        }
        let r = Self {
            scopes: Vec::new(),
            overrides: Vec::new(),
            anonymous_names: TempNameGenerator::new("scope"),
        };
        assert(r.model().scopes =~= Seq::<(Seq<char>, Context)>::empty());
        assert(r.model().overrides =~= Map::<Seq<char>, Seq<char>>::empty());
        r
    }

    /// Enters a scope with the given name.
    pub fn push_scope(&mut self, name: String, context: Context)
        requires
            old(self).wf(),
        ensures
            final(self).wf(),
            final(self).model() == env_push(old(self).model(), name@, context),
    {
        let ghost nv = name@;
        self.scopes.push((name, context));
        assert(self.model().scopes =~= old(self).model().scopes.push((nv, context)));
    }

    /// Enters a new anonymous generic scope.
    pub fn push_anonymous_scope(&mut self)
        requires
            old(self).wf(),
        ensures
            final(self).wf(),
            final(self).model() == env_push_anonymous(old(self).model()),
    {
        let name = self.anonymous_names.next();
        self.push_scope(name, Context::Generic);
    }

    /// Leaves the innermost scope (if any).
    pub fn pop_scope(&mut self)
        requires
            old(self).wf(),
        ensures
            final(self).wf(),
            final(self).model() == env_pop(old(self).model()),
    {
        self.scopes.pop();
        assert(self.model().scopes =~= env_pop(old(self).model()).scopes);
    }

    /// The name of `name` inside the current scopes.
    pub fn get_scoped_name(&self, name: &String) -> (r: String)
        ensures
            r@ == scoped_name(self.model().scopes, name@),
    {
        let ghost sv = self.model().scopes;
        let mut new_name = String::new();
        let mut i: usize = 0;
        while i < self.scopes.len()
            invariant
                i <= self.scopes.len(),
                sv == self.model().scopes,
                new_name@ == scope_path(sv.take(i as int)),
            decreases self.scopes.len() - i,
        {
            push_string(&mut new_name, &self.scopes[i].0);
            push_char(&mut new_name, '/');
            proof {
                let t = sv.take(i + 1);
                assert(t.drop_last() =~= sv.take(i as int));
                assert(t.last().0 == self.scopes@[i as int].0@);
            }
            i += 1;
        }
        assert(sv.take(sv.len() as int) =~= sv);
        push_string(&mut new_name, name);
        if self.scopes.len() == 0 {
            assert(new_name@ =~= name@);
            new_name
        } else {
            let mut r = String::new();
            push_char(&mut r, '_');
            push_string(&mut r, &new_name);
            assert(r@ =~= scoped_name(sv, name@));
            r
        }
    }

    /// The index of the override entry for `name`, if any.
    fn find_override(&self, name: &String) -> (r: Option<usize>)
        ensures
            match r {
                Some(i) => i < self.overrides.len() && self.overrides@[i as int].0@ == name@,
                None => forall|i: int| 0 <= i < self.overrides.len() ==> #[trigger] self.overrides@[i].0@ != name@,
            },
    {
        let mut i: usize = 0;
        while i < self.overrides.len()
            invariant
                i <= self.overrides.len(),
                forall|j: int| 0 <= j < i ==> #[trigger] self.overrides@[j].0@ != name@,
            decreases self.overrides.len() - i,
        {
            if self.overrides[i].0 == *name {
                return Some(i);
            }
            i += 1;
        }
        None
    }

    /// Makes `name` stand for its name in the current scopes.
    pub fn add_override(&mut self, name: &String)
        requires
            old(self).wf(),
        ensures
            final(self).wf(),
            final(self).model() == env_add_override(old(self).model(), name@),
    {
        let scoped = self.get_scoped_name(name);
        let ghost sv = scoped@;
        let ghost old_entries = override_entries(self.overrides@);
        let ghost k = name@;
        match self.find_override(name) {
            Some(i) => {
                self.overrides.set(i, (name.clone(), scoped));
                proof {
                    let new_entries = override_entries(self.overrides@);
                    assert(new_entries =~= old_entries.update(i as int, (k, sv)));
                    lemma_entries_map_update(old_entries, i as int, sv);
                }
            },
            None => {
                self.overrides.push((name.clone(), scoped));
                proof {
                    let new_entries = override_entries(self.overrides@);
                    assert(new_entries =~= old_entries.push((k, sv)));
                    assert forall|j: int| 0 <= j < old_entries.len() implies #[trigger] old_entries[j].0 != k by {
                        assert(old_entries[j].0 == self.overrides@[j].0@);
                    }
                    lemma_entries_map_push(old_entries, k, sv);
                }
            },
        }
        assert(self.model().scopes =~= old(self).model().scopes);
    }

    /// Stops renaming `name`.
    pub fn remove_override(&mut self, name: &String)
        requires
            old(self).wf(),
        ensures
            final(self).wf(),
            final(self).model() == env_remove_override(old(self).model(), name@),
    {
        let ghost old_entries = override_entries(self.overrides@);
        let ghost k = name@;
        match self.find_override(name) {
            Some(i) => {
                self.overrides.remove(i);
                proof {
                    let new_entries = override_entries(self.overrides@);
                    assert(new_entries =~= old_entries.remove(i as int));
                    lemma_entries_map_remove(old_entries, i as int);
                }
            },
            None => {
                proof {
                    assert forall|j: int| 0 <= j < old_entries.len() implies #[trigger] old_entries[j].0 != k by {
                        assert(old_entries[j].0 == self.overrides@[j].0@);
                    }
                    assert(!entries_map(old_entries).contains_key(k));
                    assert(entries_map(old_entries).remove(k) =~= entries_map(old_entries));
                }
            },
        }
        assert(self.model().scopes =~= old(self).model().scopes);
    }

    /// The new name of `name`, if it is renamed.
    pub fn get_override(&self, name: &String) -> (r: Option<&String>)
        requires
            self.wf(),
        ensures
            match r {
                Some(s) => self.model().overrides.contains_key(name@) && self.model().overrides[name@] == s@,
                None => !self.model().overrides.contains_key(name@),
            },
    {
        let ghost entries = override_entries(self.overrides@);
        match self.find_override(name) {
            Some(i) => {
                proof {
                    lemma_entries_map_index(entries, i as int);
                }
                Some(&self.overrides[i].1)
            },
            None => {
                proof {
                    assert forall|j: int| 0 <= j < entries.len() implies #[trigger] entries[j].0 != name@ by {
                        assert(entries[j].0 == self.overrides@[j].0@);
                    }
                }
                None
            },
        }
    }

    /// The context of the innermost scope (generic when there is none).
    pub fn get_current_context(&self) -> (r: Context)
        ensures
            r == current_context(self.model()),
    {
        if self.scopes.len() == 0 {
            Context::Generic
        } else {
            self.scopes[self.scopes.len() - 1].1
        }
    }
}

/// The names of the functions among `nodes`, in order.
fn get_function_names(nodes: &Vec<Node>) -> (r: Vec<String>)
    ensures
        r@.map_values(|s: String| s@) == function_names(nodes_view(*nodes)),
{
    let ghost nv = nodes_view(*nodes);
    proof {
        lemma_nodes_view(*nodes);
    }
    let mut r: Vec<String> = Vec::new();
    let mut i: usize = 0;
    while i < nodes.len()
        invariant
            i <= nodes.len(),
            nv == nodes_view(*nodes),
            nv.len() == nodes.len(),
            forall|j: int| 0 <= j < nodes.len() ==> nv[j] == (#[trigger] nodes@[j])@,
            r@.map_values(|s: String| s@) == function_names(nv.take(i as int)),
        decreases nodes.len() - i,
    {
        let ghost before = r@;
        proof {
            let t = nv.take(i + 1);
            assert(t.drop_last() =~= nv.take(i as int));
            assert(t.last() == nv[i as int]);
        }
        match &nodes[i] {
            Node::Function { name, .. } => {
                r.push(name.clone());
                assert(r@.map_values(|s: String| s@) =~= before.map_values(|s: String| s@).push(name@));
            },
            _ => {},
        }
        i += 1;
    }
    assert(nv.take(nodes.len() as int) =~= nv);
    r
}

/// The names of the scopes up to `i`, each followed by `/`, extend by one scope at a time.
proof fn lemma_names_prefix(names: Seq<Seq<char>>, i: int)
    requires
        0 <= i < names.len(),
    ensures
        names.take(i + 1).drop_last() == names.take(i),
        names.take(i + 1).last() == names[i],
{
    assert(names.take(i + 1).drop_last() =~= names.take(i));
}

/// Renames the function definitions in `node` after their scopes, and the references to
/// them along, updating the environment as it goes.
fn make_function_names_unique(node: &mut Node, environment: &mut Environment)
    requires
        old(environment).wf(),
    ensures
        final(environment).wf(),
        (final(node)@, final(environment).model()) == names_unique(old(node)@, old(environment).model()),
    decreases size(old(node)@), 0nat,
{
    let ghost n = node@;
    let ghost e = environment.model();
    proof {
        lemma_children_smaller(n);
    }
    let current = node.extract_temp();
    match current {
        Node::Variable { name, typ } => {
            let new_name = match environment.get_override(&name) {
                Some(new_name) => new_name.clone(),
                None => name,
            };
            *node = Node::Variable { name: new_name, typ };
        },
        Node::Function { name, arguments, return_type, body, typ } => {
            let new_name = environment.get_scoped_name(&name);
            environment.push_scope(name, Context::FunctionBody);
            let mut body = body;
            make_function_names_unique(&mut *body, environment);
            environment.pop_scope();
            *node = Node::Function { name: new_name, arguments, return_type, body, typ };
        },
        Node::Binding { name, binding } => {
            let mut binding = binding;
            make_function_names_unique(&mut *binding, environment);
            // Remove overrides so they don't affect nodes after a binding with the same name
            if environment.get_override(&name).is_some() {
                environment.remove_override(&name);
            }
            *node = Node::Binding { name, binding };
        },
        Node::Sequence { mode, nodes, typ } => {
            let ghost nv = nodes_view(nodes);
            // Push an anonymous scope if this sequence isn't a function body and contains some
            // definition
            let overrides = get_function_names(&nodes);
            let ghost names = function_names(nv);
            assert(overrides@.len() == names.len());
            let added_anonymous_scope = environment.get_current_context() == Context::Generic
                && overrides.len() > 0;
            if added_anonymous_scope {
                environment.push_anonymous_scope();
            }
            let ghost e1 = environment.model();
            // Collect definitions in the sequence to preserve order-independence
            let mut i: usize = 0;
            while i < overrides.len()
                invariant
                    i <= overrides.len(),
                    environment.wf(),
                    overrides@.map_values(|s: String| s@) == names,
                    environment.model() == env_add_overrides(e1, names.take(i as int)),
                decreases overrides.len() - i,
            {
                assert(overrides@[i as int]@ == names[i as int]);
                environment.add_override(&overrides[i]);
                proof {
                    lemma_names_prefix(names, i as int);
                }
                i += 1;
            }
            assert(names.take(names.len() as int) =~= names);
            let new_nodes = names_unique_all(nodes, environment);
            if added_anonymous_scope {
                environment.pop_scope();
            }
            let ghost e3 = environment.model();
            // Restore overrides to what they were before this sequence
            let mut i: usize = 0;
            while i < overrides.len()
                invariant
                    i <= overrides.len(),
                    environment.wf(),
                    overrides@.map_values(|s: String| s@) == names,
                    environment.model() == env_remove_overrides(e3, names.take(i as int)),
                decreases overrides.len() - i,
            {
                assert(overrides@[i as int]@ == names[i as int]);
                environment.remove_override(&overrides[i]);
                proof {
                    lemma_names_prefix(names, i as int);
                }
                i += 1;
            }
            *node = Node::Sequence { mode, nodes: new_nodes, typ };
        },
        other => {
            let (shell, kids) = take_children(other);
            proof {
                lemma_nodes_view(kids);
            }
            let done = names_unique_all(kids, environment);
            proof {
                lemma_fits_children(n);
                lemma_nodes_view(done);
                lemma_names_unique_seq_len(children(n), e);
            }
            *node = put_children(shell, done);
        },
    }
}

/// [`make_function_names_unique`] on each node of a list, in order.
fn names_unique_all(nodes: Vec<Node>, environment: &mut Environment) -> (r: Vec<Node>)
    requires
        old(environment).wf(),
    ensures
        final(environment).wf(),
        (nodes_view(r), final(environment).model()) == names_unique_seq(
            nodes_view(nodes),
            old(environment).model(),
        ),
    decreases size_seq(nodes_view(nodes)), 1nat,
{
    let ghost cs = nodes_view(nodes);
    let ghost e0 = environment.model();
    let mut done: Vec<Node> = Vec::new();
    let mut rest = nodes;
    proof {
        lemma_nodes_view(rest);
        lemma_nodes_view(done);
        assert forall|j: int| 0 <= j < cs.len() implies size(#[trigger] cs[j]) <= size_seq(cs) by {
            lemma_size_seq_element(cs, j);
        }
    }
    while rest.len() > 0
        invariant
            cs == nodes_view(nodes),
            environment.wf(),
            done.len() + rest.len() == cs.len(),
            forall|j: int| 0 <= j < rest.len() ==> (#[trigger] rest@[j])@ == cs[done.len() + j],
            forall|j: int| 0 <= j < cs.len() ==> size(#[trigger] cs[j]) <= size_seq(cs),
            (nodes_view(done), environment.model()) == names_unique_seq(
                cs.take(done.len() as int),
                e0,
            ),
        decreases rest.len(),
    {
        let ghost i = done.len() as int;
        let ghost before = rest@;
        let mut k = rest.remove(0);
        assert(k@ == cs[i]);
        make_function_names_unique(&mut k, environment);
        done.push(k);
        proof {
            lemma_nodes_view(done);
            let t = cs.take(i + 1);
            assert(t.drop_last() =~= cs.take(i));
            assert(t.last() == cs[i]);
            assert(nodes_view(done) =~= names_unique_seq(t, e0).0);
            assert forall|j: int| 0 <= j < rest.len() implies (#[trigger] rest@[j])@
                == cs[done.len() + j] by {
                assert(rest@[j] == before[j + 1]);
            }
        }
    }
    assert(cs.take(cs.len() as int) =~= cs);
    done
}

/// Renames every function definition below the root after the scopes that enclose it, and
/// every reference to it along.
pub fn apply(root_node: &mut Node)
    ensures
        final(root_node)@ == unique_definition_names(old(root_node)@),
{
    let mut environment = Environment::new();
    let root = root_node.extract_temp();
    let ghost n = root@;
    let (shell, kids) = take_children(root);
    proof {
        lemma_nodes_view(kids);
    }
    let done = names_unique_all(kids, &mut environment);
    proof {
        lemma_fits_children(n);
        lemma_nodes_view(done);
        lemma_names_unique_seq_len(children(n), initial_environment());
    }
    *root_node = put_children(shell, done);
}

} // verus!
