//! Scoped maps from names to data, as used by the passes that resolve names.
//!
//! A binding state is a stack of scopes. Each scope holds a map of local bindings (variables
//! bound by `let` or by function arguments) and a map of definitions (functions of the
//! scope). A scope sees the bindings of the scope below it only if it inherits bindings, and
//! the definitions below it only if it inherits definitions.
use vstd::prelude::*;
use crate::ast::{
    arguments_view, lemma_arguments_view, lemma_nodes_view, node_view, nodes_view, nodes_view_upto,
    Argument, ArgumentSpec, Node, NodeSpec,
};

verus! {

/// Model of one map of a scope: its entries in insertion order, and whether the map of the
/// scope below is visible through it.
pub struct MapSpec<V> {
    pub local: Seq<(Seq<char>, V)>,
    pub inherit: bool,
}

/// Model of a binding state: the binding maps and the definition maps of its scopes, the
/// innermost scope last.
pub struct StateSpec<V> {
    pub bindings: Seq<MapSpec<V>>,
    pub definitions: Seq<MapSpec<V>>,
}

/// The value of the last entry for `name`, if any (a later entry replaces an earlier one).
pub open spec fn entry_get<V>(local: Seq<(Seq<char>, V)>, name: Seq<char>) -> Option<V>
    decreases local.len(),
{
    if local.len() == 0 {
        None
    } else if local.last().0 == name {
        Some(local.last().1)
    } else {
        entry_get(local.drop_last(), name)
    }
}

/// Looks `name` up from scope `k` downwards: at each scope, its bindings (while the binding
/// chain reaches it) and then its definitions (while the definition chain reaches it).
pub open spec fn lookup_from<V>(
    s: StateSpec<V>,
    k: int,
    bindings_live: bool,
    definitions_live: bool,
    name: Seq<char>,
) -> Option<V>
    decreases k + 1,
{
    if k < 0 || k >= s.bindings.len() || k >= s.definitions.len() || (!bindings_live
        && !definitions_live) {
        None
    } else {
        let b = if bindings_live { entry_get(s.bindings[k].local, name) } else { None };
        let d = if definitions_live { entry_get(s.definitions[k].local, name) } else { None };
        if b is Some {
            b
        } else if d is Some {
            d
        } else {
            lookup_from(
                s,
                k - 1,
                bindings_live && s.bindings[k].inherit,
                definitions_live && s.definitions[k].inherit,
                name,
            )
        }
    }
}

/// What a name is bound to in a state, looked up from the innermost scope.
pub open spec fn state_lookup<V>(s: StateSpec<V>, name: Seq<char>) -> Option<V> {
    lookup_from(s, s.bindings.len() - 1, true, true, name)
}

/// What `name` is defined as in a state, looked up from the innermost scope in the
/// definitions only.
pub open spec fn state_lookup_definition<V>(s: StateSpec<V>, name: Seq<char>) -> Option<V> {
    lookup_from(s, s.bindings.len() - 1, false, true, name)
}

/// The state with a new innermost scope.
pub open spec fn state_enter<V>(
    s: StateSpec<V>,
    inherit_definitions: bool,
    inherit_bindings: bool,
) -> StateSpec<V> {
    StateSpec {
        bindings: s.bindings.push(MapSpec { local: Seq::empty(), inherit: inherit_bindings }),
        definitions: s.definitions.push(
            MapSpec { local: Seq::empty(), inherit: inherit_definitions },
        ),
    }
}

/// The state with its innermost scope removed.
pub open spec fn state_leave<V>(s: StateSpec<V>) -> StateSpec<V> {
    StateSpec { bindings: s.bindings.drop_last(), definitions: s.definitions.drop_last() }
}

/// The state with entries added to the bindings of its innermost scope.
pub open spec fn state_add_bindings<V>(s: StateSpec<V>, entries: Seq<(Seq<char>, V)>) -> StateSpec<
    V,
> {
    StateSpec {
        bindings: s.bindings.update(
            s.bindings.len() - 1,
            MapSpec {
                local: s.bindings.last().local + entries,
                inherit: s.bindings.last().inherit,
            },
        ),
        definitions: s.definitions,
    }
}

/// The state with entries added to the definitions of its innermost scope.
pub open spec fn state_add_definitions<V>(
    s: StateSpec<V>,
    entries: Seq<(Seq<char>, V)>,
) -> StateSpec<V> {
    StateSpec {
        bindings: s.bindings,
        definitions: s.definitions.update(
            s.definitions.len() - 1,
            MapSpec {
                local: s.definitions.last().local + entries,
                inherit: s.definitions.last().inherit,
            },
        ),
    }
}

/// The state with `name` bound to `v` in its innermost scope.
pub open spec fn state_add_binding<V>(s: StateSpec<V>, name: Seq<char>, v: V) -> StateSpec<V> {
    state_add_bindings(s, seq![(name, v)])
}

/// The root state: one scope, with nothing in it.
pub open spec fn state_root<V>() -> StateSpec<V> {
    StateSpec {
        bindings: seq![MapSpec { local: Seq::empty(), inherit: false }],
        definitions: seq![MapSpec { local: Seq::empty(), inherit: false }],
    }
}

/// Whether a state model has at least one scope, and as many binding maps as definition maps.
pub open spec fn state_wf<V>(s: StateSpec<V>) -> bool {
    s.bindings.len() >= 1 && s.bindings.len() == s.definitions.len()
}

/// A map of names to data for one scope.
pub struct BindingMap<T> {
    local: Vec<(String, T)>,
    inherit: bool,
}

/// The models of the entries of a map.
pub open spec fn entries_view<T: DeepView>(local: Seq<(String, T)>) -> Seq<(Seq<char>, T::V)> {
    Seq::new(local.len(), |i: int| (local[i].0@, local[i].1.deep_view()))
}

impl<T: DeepView> BindingMap<T> {
    /// The model of this map.
    pub closed spec fn model(&self) -> MapSpec<T::V> {
        MapSpec { local: entries_view(self.local@), inherit: self.inherit }
    }

    /// An empty map that does not see the map of the scope below.
    pub fn new_root() -> (r: Self)
        ensures
            r.model() == (MapSpec::<T::V> { local: Seq::empty(), inherit: false }),
    {
        let r = BindingMap { local: Vec::new(), inherit: false };
        assert(r.model().local =~= Seq::empty());
        r
    }

    /// An empty map that sees the map of the scope below.
    pub fn new_child() -> (r: Self)
        ensures
            r.model() == (MapSpec::<T::V> { local: Seq::empty(), inherit: true }),
    {
        let r = BindingMap { local: Vec::new(), inherit: true };
        assert(r.model().local =~= Seq::empty());
        r
    }

    fn push(&mut self, name: String, binding: T)
        ensures
            final(self).model() == (MapSpec {
                local: old(self).model().local.push((name@, binding.deep_view())),
                inherit: old(self).model().inherit,
            }),
    {
        self.local.push((name, binding));
        assert(entries_view(self.local@) =~= entries_view(old(self).local@).push(
            (name@, binding.deep_view()),
        ));
    }

    /// The last entry for `name`, if any.
    fn get(&self, name: &String) -> (r: Option<&T>)
        ensures
            match r {
                Some(t) => entry_get(self.model().local, name@) == Some(t.deep_view()),
                None => entry_get(self.model().local, name@) is None,
            },
    {
        let ghost all = self.model().local;
        let mut i = self.local.len();
        assert(all.take(i as int) =~= all);
        while i > 0
            invariant
                i <= self.local.len(),
                all == self.model().local,
                entry_get(all, name@) == entry_get(all.take(i as int), name@),
            decreases i,
        {
            let ghost t = all.take(i as int);
            assert(t.last() == (self.local@[i - 1].0@, self.local@[i - 1].1.deep_view()));
            assert(t.drop_last() =~= all.take(i - 1));
            if self.local[i - 1].0 == *name {
                return Some(&self.local[i - 1].1);
            }
            i -= 1;
        }
        assert(all.take(0) =~= Seq::<(Seq<char>, T::V)>::empty());
        None
    }
}

/// A general-purpose scoped state mapping names to some sort of data.
pub struct BindingState<T> {
    bindings: Vec<BindingMap<T>>,
    definitions: Vec<BindingMap<T>>,
}

impl<T: DeepView> BindingState<T> {
    /// The model of this state.
    pub closed spec fn model(&self) -> StateSpec<T::V> {
        StateSpec {
            bindings: Seq::new(self.bindings.len() as nat, |i: int| self.bindings@[i].model()),
            definitions: Seq::new(
                self.definitions.len() as nat,
                |i: int| self.definitions@[i].model(),
            ),
        }
    }

    /// Create an empty state with no parent.
    pub fn root() -> (r: Self)
        ensures
            r.model() == state_root::<T::V>(),
    {
        let mut bindings = Vec::new();
        bindings.push(BindingMap::new_root());
        let mut definitions = Vec::new();
        definitions.push(BindingMap::new_root());
        let r = BindingState { bindings, definitions };
        assert(r.model().bindings =~= state_root::<T::V>().bindings);
        assert(r.model().definitions =~= state_root::<T::V>().definitions);
        r
    }

    /// Opens a new innermost scope, specifying whether the definitions and the bindings of
    /// the enclosing scope stay visible in it.
    pub fn enter(&mut self, inherit_definitions: bool, inherit_bindings: bool)
        requires
            state_wf(old(self).model()),
        ensures
            final(self).model() == state_enter(
                old(self).model(),
                inherit_definitions,
                inherit_bindings,
            ),
    {
        let b = if inherit_bindings {
            BindingMap::new_child()
        } else {
            BindingMap::new_root()
        };
        let d = if inherit_definitions {
            BindingMap::new_child()
        } else {
            BindingMap::new_root()
        };
        self.bindings.push(b);
        self.definitions.push(d);
        let ghost e = state_enter(old(self).model(), inherit_definitions, inherit_bindings);
        assert(self.model().bindings =~= e.bindings);
        assert(self.model().definitions =~= e.definitions);
    }

    /// Closes the innermost scope.
    pub fn leave(&mut self)
        requires
            state_wf(old(self).model()),
            old(self).model().bindings.len() > 1,
        ensures
            final(self).model() == state_leave(old(self).model()),
    {
        self.bindings.pop();
        self.definitions.pop();
        let ghost e = state_leave(old(self).model());
        assert(self.model().bindings =~= e.bindings);
        assert(self.model().definitions =~= e.definitions);
    }

    /// The state of a new scope whose enclosing scope is `parent`, specifying whether the
    /// parent's definitions and bindings are visible in it.
    pub fn empty(parent: Self, inherit_definitions: bool, inherit_bindings: bool) -> (r: Self)
        requires
            state_wf(parent.model()),
        ensures
            r.model() == state_enter(parent.model(), inherit_definitions, inherit_bindings),
    {
        let mut r = parent;
        r.enter(inherit_definitions, inherit_bindings);
        r
    }

    fn push_binding(&mut self, name: String, binding: T)
        requires
            state_wf(old(self).model()),
        ensures
            final(self).model() == state_add_binding(old(self).model(), name@, binding.deep_view()),
    {
        let mut top = self.bindings.pop().unwrap();
        top.push(name, binding);
        self.bindings.push(top);
        let ghost e = state_add_binding(old(self).model(), name@, binding.deep_view());
        assert(e.bindings.last().local =~= old(self).model().bindings.last().local.push(
            (name@, binding.deep_view()),
        ));
        assert(self.model().bindings =~= e.bindings);
        assert(self.model().definitions =~= e.definitions);
    }

    fn push_definition(&mut self, name: String, binding: T)
        requires
            state_wf(old(self).model()),
        ensures
            final(self).model() == state_add_definitions(
                old(self).model(),
                seq![(name@, binding.deep_view())],
            ),
    {
        let mut top = self.definitions.pop().unwrap();
        top.push(name, binding);
        self.definitions.push(top);
        let ghost e = state_add_definitions(old(self).model(), seq![(name@, binding.deep_view())]);
        assert(e.definitions.last().local =~= old(self).model().definitions.last().local.push(
            (name@, binding.deep_view()),
        ));
        assert(self.model().bindings =~= e.bindings);
        assert(self.model().definitions =~= e.definitions);
    }

    /// Binds `name` to `binding` in the innermost scope.
    pub fn add_binding(&mut self, name: &String, binding: T)
        requires
            state_wf(old(self).model()),
        ensures
            final(self).model() == state_add_binding(old(self).model(), name@, binding.deep_view()),
    {
        self.push_binding(name.clone(), binding);
    }

    /// Looks `name` up from the innermost scope, starting with its bindings only when
    /// `check_bindings` holds.
    fn lookup_from_top(&self, name: &String, check_bindings: bool) -> (r: Option<&T>)
        requires
            state_wf(self.model()),
        ensures
            match r {
                Some(t) => lookup_from(
                    self.model(),
                    self.model().bindings.len() - 1,
                    check_bindings,
                    true,
                    name@,
                ) == Some(t.deep_view()),
                None => lookup_from(
                    self.model(),
                    self.model().bindings.len() - 1,
                    check_bindings,
                    true,
                    name@,
                ) is None,
            },
    {
        let ghost s = self.model();
        let mut k = self.bindings.len();
        let mut bindings_live = check_bindings;
        let mut definitions_live = true;
        while k > 0
            invariant
                k <= self.bindings.len(),
                self.bindings.len() == self.definitions.len(),
                s == self.model(),
                lookup_from(s, s.bindings.len() - 1, check_bindings, true, name@) == lookup_from(
                    s,
                    k - 1,
                    bindings_live,
                    definitions_live,
                    name@,
                ),
            decreases k,
        {
            if !bindings_live && !definitions_live {
                return None;
            }
            let i = k - 1;
            assert(s.bindings[i as int] == self.bindings@[i as int].model());
            assert(s.definitions[i as int] == self.definitions@[i as int].model());
            if bindings_live {
                match self.bindings[i].get(name) {
                    Some(t) => {
                        return Some(t);
                    },
                    None => {},
                }
            }
            if definitions_live {
                match self.definitions[i].get(name) {
                    Some(t) => {
                        return Some(t);
                    },
                    None => {},
                }
            }
            bindings_live = bindings_live && self.bindings[i].inherit;
            definitions_live = definitions_live && self.definitions[i].inherit;
            k = i;
        }
        None
    }

    /// What `name` is bound to: the innermost scope's bindings, then its definitions, then
    /// those of the enclosing scopes as far as they are visible.
    pub fn lookup(&self, name: &String) -> (r: Option<&T>)
        requires
            state_wf(self.model()),
        ensures
            match r {
                Some(t) => state_lookup(self.model(), name@) == Some(t.deep_view()),
                None => state_lookup(self.model(), name@) is None,
            },
    {
        self.lookup_from_top(name, true)
    }

    /// A symbol from the current scope, or looked up in the enclosing scopes (the same as
    /// [`BindingState::lookup`]).
    pub fn get(&self, name: &String) -> (r: Option<&T>)
        requires
            state_wf(self.model()),
        ensures
            match r {
                Some(t) => state_lookup(self.model(), name@) == Some(t.deep_view()),
                None => state_lookup(self.model(), name@) is None,
            },
    {
        self.lookup_from_top(name, true)
    }

    /// A symbol from the definitions of the current scope, or of the enclosing scopes as far
    /// as they are visible; bindings are not looked at.
    pub fn get_definition(&self, name: &String) -> (r: Option<&T>)
        requires
            state_wf(self.model()),
        ensures
            match r {
                Some(t) => state_lookup_definition(self.model(), name@) == Some(t.deep_view()),
                None => state_lookup_definition(self.model(), name@) is None,
            },
    {
        self.lookup_from_top(name, false)
    }

    /// Defines `name` as `value` in the innermost scope; says whether it was defined there
    /// already (the new value replaces the old one).
    pub fn add_definition(&mut self, name: String, value: T) -> (r: bool)
        requires
            state_wf(old(self).model()),
        ensures
            final(self).model() == state_add_definitions(
                old(self).model(),
                seq![(name@, value.deep_view())],
            ),
            r == entry_get(old(self).model().definitions.last().local, name@) is Some,
    {
        let top = self.definitions.len() - 1;
        assert(self.model().definitions.last() == self.definitions@[top as int].model());
        let existed = self.definitions[top].get(&name).is_some();
        self.push_definition(name, value);
        existed
    }

    /// Adds the given definitions, in order, to the innermost scope.
    pub fn add_definitions(&mut self, definitions: Vec<(String, T)>)
        requires
            state_wf(old(self).model()),
        ensures
            final(self).model() == state_add_definitions(old(self).model(), entries_view(definitions@)),
    {
        let ghost start = old(self).model();
        let ghost all = entries_view(definitions@);
        let mut rest = definitions;
        let mut i: usize = 0;
        let ghost n = rest.len();
        assert(all.take(0) =~= Seq::<(Seq<char>, T::V)>::empty());
        assert(start.definitions.last().local + all.take(0) =~= start.definitions.last().local);
        assert(state_add_definitions(start, all.take(0)).definitions =~= start.definitions);
        while rest.len() > 0
            invariant
                state_wf(self.model()),
                i + rest.len() == n,
                n == all.len(),
                forall|j: int| 0 <= j < rest.len() ==> (#[trigger] entries_view(rest@)[j]) == all[i + j],
                self.model() == state_add_definitions(start, all.take(i as int)),
                state_wf(start),
            decreases rest.len(),
        {
            let ghost before = rest@;
            let (name, value) = rest.remove(0);
            assert(entries_view(before)[0] == (name@, value.deep_view()));
            let ghost prev = self.model();
            self.push_definition(name, value);
            proof {
                let t = all.take(i + 1);
                assert(t =~= all.take(i as int).push((name@, value.deep_view())));
                assert(prev.definitions.last().local + seq![(name@, value.deep_view())]
                    =~= start.definitions.last().local + t);
                assert(self.model().definitions =~= state_add_definitions(start, t).definitions);
                assert forall|j: int| 0 <= j < rest.len() implies (#[trigger] entries_view(rest@)[j]) == all[i + 1 + j] by {
                    assert(rest@[j] == before[j + 1]);
                    assert(entries_view(before)[j + 1] == all[i + j + 1]);
                }
            }
            i += 1;
        }
        assert(all.take(n as int) =~= all);
    }

    /// The state of a new scope whose enclosing scope is `parent`, holding the given
    /// definitions; the parent's definitions stay visible, and its bindings when
    /// `inherit_bindings` holds.
    pub fn extend_with_definitions(
        parent: Self,
        inherit_bindings: bool,
        new_definitions: Vec<(String, T)>,
    ) -> (r: Self)
        requires
            state_wf(parent.model()),
        ensures
            r.model() == state_add_definitions(
                state_enter(parent.model(), true, inherit_bindings),
                entries_view(new_definitions@),
            ),
    {
        let mut r = parent;
        r.enter(true, inherit_bindings);
        r.add_definitions(new_definitions);
        r
    }

    /// The state of a new scope whose enclosing scope is `parent`, holding the given
    /// bindings; the parent's definitions stay visible, and its bindings when
    /// `inherit_bindings` holds.
    pub fn extend_with_bindings(
        parent: Self,
        inherit_bindings: bool,
        new_bindings: Vec<(String, T)>,
    ) -> (r: Self)
        requires
            state_wf(parent.model()),
        ensures
            r.model() == state_add_bindings(
                state_enter(parent.model(), true, inherit_bindings),
                entries_view(new_bindings@),
            ),
    {
        let mut r = parent;
        r.enter(true, inherit_bindings);
        let ghost entered = r.model();
        let ghost all = entries_view(new_bindings@);
        let mut rest = new_bindings;
        let mut i: usize = 0;
        let ghost n = rest.len();
        assert(all.take(0) =~= Seq::<(Seq<char>, T::V)>::empty());
        assert(entered.bindings.last().local + all.take(0) =~= entered.bindings.last().local);
        assert(state_add_bindings(entered, all.take(0)).bindings =~= entered.bindings);
        while rest.len() > 0
            invariant
                state_wf(r.model()),
                state_wf(entered),
                i + rest.len() == n,
                n == all.len(),
                forall|j: int| 0 <= j < rest.len() ==> (#[trigger] entries_view(rest@)[j]) == all[i + j],
                r.model() == state_add_bindings(entered, all.take(i as int)),
            decreases rest.len(),
        {
            let ghost before = rest@;
            let (name, value) = rest.remove(0);
            assert(entries_view(before)[0] == (name@, value.deep_view()));
            let ghost prev = r.model();
            r.push_binding(name, value);
            proof {
                let t = all.take(i + 1);
                assert(t =~= all.take(i as int).push((name@, value.deep_view())));
                assert(prev.bindings.last().local + seq![(name@, value.deep_view())]
                    =~= entered.bindings.last().local + t);
                assert(r.model().bindings =~= state_add_bindings(entered, t).bindings);
                assert forall|j: int| 0 <= j < rest.len() implies (#[trigger] entries_view(rest@)[j]) == all[i + 1 + j] by {
                    assert(rest@[j] == before[j + 1]);
                    assert(entries_view(before)[j + 1] == all[i + j + 1]);
                }
            }
            i += 1;
        }
        assert(all.take(n as int) =~= all);
        r
    }
}

/// An entry made for a function node `f`: its name, and a value `v` that `get_binding` gives
/// for `f`.
pub open spec fn definition_entry_ok<T: DeepView, F: Fn(&Node) -> T>(
    get_binding: F,
    f: Node,
    v: T,
    e: (Seq<char>, T::V),
) -> bool {
    &&& e.0 == function_name(f)
    &&& get_binding.ensures((&f,), v)
    &&& v.deep_view() == e.1
}

/// An entry made for an argument `a`: its name, and a value `v` that `get_binding` gives for
/// `a`.
pub open spec fn argument_entry_ok<T: DeepView, F: Fn(&Argument) -> T>(
    get_binding: F,
    a: Argument,
    v: T,
    e: (Seq<char>, T::V),
) -> bool {
    &&& e.0 == a.name@
    &&& get_binding.ensures((&a,), v)
    &&& v.deep_view() == e.1
}

/// The function nodes of a sequence of nodes, in order.
pub open spec fn functions_of(nodes: Seq<Node>) -> Seq<Node>
    decreases nodes.len(),
{
    if nodes.len() == 0 {
        nodes
    } else if nodes.last() is Function {
        functions_of(nodes.drop_last()).push(nodes.last())
    } else {
        functions_of(nodes.drop_last())
    }
}

/// The name of a function node.
pub open spec fn function_name(n: Node) -> Seq<char> {
    match n {
        Node::Function { name, .. } => name@,
        _ => Seq::empty(),
    }
}

impl<T: DeepView> BindingState<T> {
    /// Adds a definition for each function among `nodes` to the innermost scope, binding the
    /// function's name to what `get_binding` gives for the function node.
    #[verifier::rlimit(40)]
    pub fn add_definitions_from_functions<F: Fn(&Node) -> T>(
        &mut self,
        nodes: &Vec<Node>,
        get_binding: F,
    )
        requires
            state_wf(old(self).model()),
            forall|n: Node| get_binding.requires((&n,)),
        ensures
            final(self).model().bindings == old(self).model().bindings,
            final(self).model().definitions.len() == old(self).model().definitions.len(),
            forall|i: int|
                0 <= i < old(self).model().definitions.len() - 1 ==> final(self).model().definitions[i]
                    == #[trigger] old(self).model().definitions[i],
            final(self).model().definitions.last().inherit == old(
                self,
            ).model().definitions.last().inherit,
            ({
                let before = old(self).model().definitions.last().local;
                let after = final(self).model().definitions.last().local;
                let fs = functions_of(nodes@);
                &&& after.len() == before.len() + fs.len()
                &&& after.take(before.len() as int) == before
                &&& forall|j: int|
                    0 <= j < fs.len() ==> (#[trigger] after[before.len() + j]).0 == function_name(
                        fs[j],
                    ) && (exists|t: T| get_binding.ensures((&fs[j],), t) && t.deep_view()
                        == after[before.len() + j].1)
            }),
    {
        let ghost start = old(self).model();
        let ghost mut produced: Seq<T> = Seq::empty();
        let mut i: usize = 0;
        while i < nodes.len()
            invariant
                i <= nodes.len(),
                state_wf(self.model()),
                forall|n: Node| get_binding.requires((&n,)),
                self.model().bindings == start.bindings,
                self.model().definitions.len() == start.definitions.len(),
                forall|k: int|
                    0 <= k < start.definitions.len() - 1 ==> self.model().definitions[k]
                        == #[trigger] start.definitions[k],
                self.model().definitions.last().inherit == start.definitions.last().inherit,
                self.model().definitions.last().local.len() == start.definitions.last().local.len()
                    + produced.len(),
                self.model().definitions.last().local.take(
                    start.definitions.last().local.len() as int,
                ) == start.definitions.last().local,
                produced.len() == functions_of(nodes@.take(i as int)).len(),
                forall|j: int|
                    0 <= j < produced.len() ==> definition_entry_ok(
                        get_binding,
                        functions_of(nodes@.take(i as int))[j],
                        produced[j],
                        #[trigger] self.model().definitions.last().local[start.definitions.last().local.len()
                            + j],
                    ),
            decreases nodes.len() - i,
        {
            let ghost prev = self.model();
            let ghost prev_fs = functions_of(nodes@.take(i as int));
            let ghost t = nodes@.take(i + 1);
            assert(t.drop_last() =~= nodes@.take(i as int));
            assert(t.last() == nodes@[i as int]);
            match &nodes[i] {
                Node::Function { name, .. } => {
                    let b = get_binding(&nodes[i]);
                    self.push_definition(name.clone(), b);
                    proof {
                        let before = start.definitions.last().local;
                        let after = self.model().definitions.last().local;
                        assert(functions_of(t) == prev_fs.push(nodes@[i as int]));
                        assert(after =~= prev.definitions.last().local.push(
                            (name@, b.deep_view()),
                        ));
                        assert(after.take(before.len() as int) =~= before);
                        produced = produced.push(b);
                        assert forall|k: int|
                            0 <= k < start.definitions.len() - 1 implies self.model().definitions[k]
                            == #[trigger] start.definitions[k] by {
                            assert(self.model().definitions[k] == prev.definitions[k]);
                        }
                        assert forall|j: int| 0 <= j < produced.len() implies definition_entry_ok(
                            get_binding,
                            functions_of(t)[j],
                            produced[j],
                            #[trigger] after[before.len() + j],
                        ) by {
                            if j < produced.len() - 1 {
                                assert(after[before.len() + j]
                                    == prev.definitions.last().local[before.len() + j]);
                                assert(functions_of(t)[j] == prev_fs[j]);
                            }
                        }
                    }
                },
                _ => {
                    assert(!(nodes@[i as int] is Function));
                    assert(functions_of(t) == prev_fs);
                },
            }
            i += 1;
        }
        assert(nodes@.take(nodes.len() as int) =~= nodes@);
        let ghost after = self.model().definitions.last().local;
        let ghost before = start.definitions.last().local;
        assert forall|j: int| 0 <= j < functions_of(nodes@).len() implies
            (#[trigger] after[before.len() + j]).0 == function_name(functions_of(nodes@)[j])
                && (exists|t: T| get_binding.ensures((&functions_of(nodes@)[j],), t)
                && t.deep_view() == after[before.len() + j].1) by {
            assert(definition_entry_ok(
                get_binding,
                functions_of(nodes@)[j],
                produced[j],
                after[before.len() + j],
            ));
        }
    }

    /// Adds a binding for each argument to the innermost scope, binding the argument's name
    /// to what `get_binding` gives for the argument.
    #[verifier::rlimit(40)]
    pub fn add_bindings_from_arguments<F: Fn(&Argument) -> T>(
        &mut self,
        arguments: &Vec<Argument>,
        get_binding: F,
    )
        requires
            state_wf(old(self).model()),
            forall|a: Argument| get_binding.requires((&a,)),
        ensures
            final(self).model().definitions == old(self).model().definitions,
            final(self).model().bindings.len() == old(self).model().bindings.len(),
            forall|i: int|
                0 <= i < old(self).model().bindings.len() - 1 ==> final(self).model().bindings[i]
                    == #[trigger] old(self).model().bindings[i],
            final(self).model().bindings.last().inherit == old(self).model().bindings.last().inherit,
            ({
                let before = old(self).model().bindings.last().local;
                let after = final(self).model().bindings.last().local;
                &&& after.len() == before.len() + arguments.len()
                &&& after.take(before.len() as int) == before
                &&& forall|j: int|
                    0 <= j < arguments.len() ==> (#[trigger] after[before.len() + j]).0
                        == arguments@[j].name@ && (exists|t: T|
                        get_binding.ensures((&arguments@[j],), t) && t.deep_view()
                            == after[before.len() + j].1)
            }),
    {
        let ghost start = old(self).model();
        let ghost mut produced: Seq<T> = Seq::empty();
        let mut i: usize = 0;
        while i < arguments.len()
            invariant
                i <= arguments.len(),
                state_wf(self.model()),
                forall|a: Argument| get_binding.requires((&a,)),
                self.model().definitions == start.definitions,
                self.model().bindings.len() == start.bindings.len(),
                forall|k: int|
                    0 <= k < start.bindings.len() - 1 ==> self.model().bindings[k]
                        == #[trigger] start.bindings[k],
                self.model().bindings.last().inherit == start.bindings.last().inherit,
                self.model().bindings.last().local.len() == start.bindings.last().local.len() + i,
                self.model().bindings.last().local.take(start.bindings.last().local.len() as int)
                    == start.bindings.last().local,
                produced.len() == i,
                forall|j: int|
                    0 <= j < i ==> argument_entry_ok(
                        get_binding,
                        arguments@[j],
                        produced[j],
                        #[trigger] self.model().bindings.last().local[start.bindings.last().local.len()
                            + j],
                    ),
            decreases arguments.len() - i,
        {
            let ghost prev = self.model();
            let b = get_binding(&arguments[i]);
            self.push_binding(arguments[i].name.clone(), b);
            proof {
                let before = start.bindings.last().local;
                let after = self.model().bindings.last().local;
                assert(after =~= prev.bindings.last().local.push((arguments@[i as int].name@, b.deep_view())));
                assert(after.take(before.len() as int) =~= before);
                produced = produced.push(b);
                assert forall|j: int| 0 <= j < i + 1 implies argument_entry_ok(
                    get_binding,
                    arguments@[j],
                    produced[j],
                    #[trigger] after[before.len() + j],
                ) by {
                    if j < i {
                        assert(after[before.len() + j] == prev.bindings.last().local[before.len()
                            + j]);
                    }
                }
                assert forall|k: int|
                    0 <= k < start.bindings.len() - 1 implies self.model().bindings[k]
                    == #[trigger] start.bindings[k] by {
                    assert(self.model().bindings[k] == prev.bindings[k]);
                }
            }
            i += 1;
        }
        let ghost after = self.model().bindings.last().local;
        let ghost before = start.bindings.last().local;
        assert forall|j: int| 0 <= j < arguments.len() implies
            (#[trigger] after[before.len() + j]).0 == arguments@[j].name@ && (exists|t: T|
                get_binding.ensures((&arguments@[j],), t) && t.deep_view() == after[before.len()
                    + j].1) by {
            assert(argument_entry_ok(get_binding, arguments@[j], produced[j], after[before.len() + j]));
        }
    }
}

/// The function nodes of a sequence of node models, in order.
pub open spec fn functions_spec(s: Seq<NodeSpec>) -> Seq<NodeSpec>
    decreases s.len(),
{
    if s.len() == 0 {
        s
    } else if s.last() is Function {
        functions_spec(s.drop_last()).push(s.last())
    } else {
        functions_spec(s.drop_last())
    }
}

/// The name of a function node model.
pub open spec fn function_spec_name(n: NodeSpec) -> Seq<char> {
    match n {
        NodeSpec::Function { name, .. } => name,
        _ => Seq::empty(),
    }
}

/// The function nodes of a vector are, in order, the function nodes of its model.
pub proof fn lemma_functions_of(v: Vec<Node>)
    ensures
        functions_of(v@).len() == functions_spec(nodes_view(v)).len(),
        forall|j: int|
            0 <= j < functions_of(v@).len() ==> node_view(#[trigger] functions_of(v@)[j])
                == functions_spec(nodes_view(v))[j] && function_name(functions_of(v@)[j])
                == function_spec_name(functions_spec(nodes_view(v))[j]) && functions_of(v@)[j] is Function,
{
    lemma_functions_of_upto(v, v.len() as nat);
    assert(v@.take(v.len() as int) =~= v@);
}

proof fn lemma_functions_of_upto(v: Vec<Node>, n: nat)
    requires
        n <= v.len(),
    ensures
        functions_of(v@.take(n as int)).len() == functions_spec(nodes_view_upto(v, n)).len(),
        forall|j: int|
            0 <= j < functions_of(v@.take(n as int)).len() ==> node_view(
                #[trigger] functions_of(v@.take(n as int))[j],
            ) == functions_spec(nodes_view_upto(v, n))[j] && function_name(
                functions_of(v@.take(n as int))[j],
            ) == function_spec_name(functions_spec(nodes_view_upto(v, n))[j]) && functions_of(
                v@.take(n as int),
            )[j] is Function,
    decreases n,
{
    if n > 0 {
        lemma_functions_of_upto(v, (n - 1) as nat);
        let t = v@.take(n as int);
        assert(t.drop_last() =~= v@.take(n - 1));
        assert(t.last() == v@[n - 1]);
        let s = nodes_view_upto(v, n);
        assert(s.drop_last() == nodes_view_upto(v, (n - 1) as nat));
        assert(s.last() == node_view(v@[n - 1]));
    } else {
        assert(v@.take(0) =~= Seq::<Node>::empty());
    }
}

/// The state `new` is `old` with `entries` added to the definitions of its innermost scope.
pub proof fn lemma_added_definitions<V>(
    old_state: StateSpec<V>,
    new_state: StateSpec<V>,
    entries: Seq<(Seq<char>, V)>,
)
    requires
        state_wf(old_state),
        new_state.bindings == old_state.bindings,
        new_state.definitions.len() == old_state.definitions.len(),
        forall|i: int|
            0 <= i < old_state.definitions.len() - 1 ==> new_state.definitions[i]
                == #[trigger] old_state.definitions[i],
        new_state.definitions.last().inherit == old_state.definitions.last().inherit,
        new_state.definitions.last().local == old_state.definitions.last().local + entries,
    ensures
        new_state == state_add_definitions(old_state, entries),
{
    assert(new_state.definitions =~= state_add_definitions(old_state, entries).definitions);
}

/// The state `new` is `old` with `entries` added to the bindings of its innermost scope.
pub proof fn lemma_added_bindings<V>(
    old_state: StateSpec<V>,
    new_state: StateSpec<V>,
    entries: Seq<(Seq<char>, V)>,
)
    requires
        state_wf(old_state),
        new_state.definitions == old_state.definitions,
        new_state.bindings.len() == old_state.bindings.len(),
        forall|i: int|
            0 <= i < old_state.bindings.len() - 1 ==> new_state.bindings[i]
                == #[trigger] old_state.bindings[i],
        new_state.bindings.last().inherit == old_state.bindings.last().inherit,
        new_state.bindings.last().local == old_state.bindings.last().local + entries,
    ensures
        new_state == state_add_bindings(old_state, entries),
{
    assert(new_state.bindings =~= state_add_bindings(old_state, entries).bindings);
}


/// Reading a name right after binding it gives the value bound.
pub proof fn lemma_lookup_after_add_binding<V>(s: StateSpec<V>, name: Seq<char>, v: V)
    requires
        state_wf(s),
    ensures
        state_lookup(state_add_binding(s, name, v), name) == Some(v),
        state_wf(state_add_binding(s, name, v)),
{
    let t = state_add_binding(s, name, v);
    let k = s.bindings.len() - 1;
    assert(t.bindings[k].local == s.bindings[k].local.push((name, v)));
    assert(t.bindings[k].local.last() == (name, v));
}

/// Binding a name leaves what every other name is bound to unchanged.
pub proof fn lemma_lookup_other_after_add_binding<V>(
    s: StateSpec<V>,
    name: Seq<char>,
    v: V,
    other: Seq<char>,
)
    requires
        state_wf(s),
        other != name,
    ensures
        state_lookup(state_add_binding(s, name, v), other) == state_lookup(s, other),
{
    let t = state_add_binding(s, name, v);
    let k = s.bindings.len() - 1;
    assert(t.bindings[k].local.drop_last() =~= s.bindings[k].local);
    assert(t.bindings[k].local.last() == (name, v));
    assert(entry_get(t.bindings[k].local, other) == entry_get(s.bindings[k].local, other));
    assert(t.bindings[k].inherit == s.bindings[k].inherit);
    assert(forall|i: int| 0 <= i <= k - 1 ==> t.bindings[i] == s.bindings[i]);
    lemma_lookup_from_same_below(s, t, k - 1, s.bindings[k].inherit, s.definitions[k].inherit, other);
}

/// Two states whose scopes below `k + 1` are the same give the same lookups from `k`.
proof fn lemma_lookup_from_same_below<V>(
    s: StateSpec<V>,
    t: StateSpec<V>,
    k: int,
    b: bool,
    d: bool,
    name: Seq<char>,
)
    requires
        state_wf(s),
        t.bindings.len() == s.bindings.len(),
        t.definitions == s.definitions,
        k < s.bindings.len(),
        forall|i: int| 0 <= i <= k ==> t.bindings[i] == s.bindings[i],
    ensures
        lookup_from(t, k, b, d, name) == lookup_from(s, k, b, d, name),
    decreases k + 1,
{
    if k >= 0 {
        lemma_lookup_from_same_below(
            s,
            t,
            k - 1,
            b && s.bindings[k].inherit,
            d && s.definitions[k].inherit,
            name,
        );
    }
}

/// Closing a scope just opened gives the state back.
pub proof fn lemma_leave_undoes_enter<V>(
    s: StateSpec<V>,
    inherit_definitions: bool,
    inherit_bindings: bool,
)
    ensures
        state_leave(state_enter(s, inherit_definitions, inherit_bindings)) == s,
{
    let t = state_leave(state_enter(s, inherit_definitions, inherit_bindings));
    assert(t.bindings =~= s.bindings);
    assert(t.definitions =~= s.definitions);
}

/// A scope that inherits nothing sees none of the names of the scopes around it, until
/// something is bound or defined in it.
pub proof fn lemma_enter_hides<V>(s: StateSpec<V>, name: Seq<char>)
    requires
        state_wf(s),
    ensures
        state_lookup(state_enter(s, false, false), name) is None,
{
    let t = state_enter(s, false, false);
    let k = t.bindings.len() - 1;
    assert(t.bindings[k].local.len() == 0);
    assert(t.definitions[k].local.len() == 0);
    assert(entry_get(t.bindings[k].local, name) is None);
    assert(entry_get(t.definitions[k].local, name) is None);
    assert(!t.bindings[k].inherit && !t.definitions[k].inherit);
    assert(lookup_from(t, k - 1, false, false, name) is None);
}

/// A scope that inherits definitions sees the names defined around it that it does not
/// bind or define itself.
pub proof fn lemma_enter_sees_definitions<V>(s: StateSpec<V>, name: Seq<char>, inherit_bindings: bool)
    requires
        state_wf(s),
        state_lookup_definition(s, name) is Some,
    ensures
        state_lookup_definition(state_enter(s, true, inherit_bindings), name)
            == state_lookup_definition(s, name),
{
    let t = state_enter(s, true, inherit_bindings);
    let k = s.bindings.len() - 1;
    assert(t.definitions[k + 1].local.len() == 0);
    lemma_lookup_from_prefix(s, t, k, false, true, name);
}

/// A state with scopes pushed on top of `s` looks names up from `s`'s scopes alike.
proof fn lemma_lookup_from_prefix<V>(
    s: StateSpec<V>,
    t: StateSpec<V>,
    k: int,
    b: bool,
    d: bool,
    name: Seq<char>,
)
    requires
        state_wf(s),
        k < s.bindings.len(),
        t.bindings.len() >= s.bindings.len(),
        t.definitions.len() == t.bindings.len(),
        forall|i: int| 0 <= i < s.bindings.len() ==> t.bindings[i] == s.bindings[i],
        forall|i: int| 0 <= i < s.definitions.len() ==> t.definitions[i] == s.definitions[i],
    ensures
        lookup_from(t, k, b, d, name) == lookup_from(s, k, b, d, name),
    decreases k + 1,
{
    if k >= 0 {
        lemma_lookup_from_prefix(
            s,
            t,
            k - 1,
            b && s.bindings[k].inherit,
            d && s.definitions[k].inherit,
            name,
        );
    }
}

} // verus!
