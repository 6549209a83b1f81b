//! The syntax tree that the compiler passes work on, and its mathematical model.
//!
//! Every executable type has a view (`@`) into a model type of the same shape in which
//! strings are `Seq<char>`, vectors are `Seq`, and boxes hold models.
use vstd::prelude::*;

verus! {

/// How a sequence relates to the scope around it.
#[derive(PartialEq, Eq, Structural, Clone, Copy, Debug)]
pub enum SequenceMode {
    /// Opens a new scope (a braced block in C).
    Scope,
    /// Shares the enclosing scope (its nodes are spliced into the parent).
    Transparent,
}

/// Whether a reference allows writes through it.
#[derive(PartialEq, Eq, Structural, Clone, Copy, Debug)]
pub enum ReferenceMode {
    Immutable,
    Mutable,
}

/// Built-in operators of the language.
#[derive(PartialEq, Eq, Structural, Clone, Copy, Debug)]
pub enum Operator {
    Add,
    Subtract,
    Multiply,
    Divide,
    Modulo,
    Equal,
    NotEqual,
    Less,
    Greater,
    LessEqual,
    GreaterEqual,
    Not,
    And,
    Or,
    ExclusiveOr,
    Return,
    Create,
}

/// How a piece of generated C text may be combined with others.
#[derive(PartialEq, Eq, Structural, Clone, Copy, Debug)]
pub enum CNodeType {
    Nothing,
    Comment,
    Atomic,
    Bare,
    Wrapped,
    InfixOperator,
    PrefixOperator,
    Call,
    Block,
    BlockTransparent,
    Conditional,
    Function,
}

/// Types of values.
#[derive(Debug)]
pub enum Type {
    Unknown,
    Void,
    Integer,
    Float,
    Boolean,
    Struct(String),
    Function(Vec<Type>, Box<Type>),
    Reference(ReferenceMode, Box<Type>),
}

/// Model of [`Type`].
pub enum TypeSpec {
    Unknown,
    Void,
    Integer,
    Float,
    Boolean,
    Struct(Seq<char>),
    Function(Seq<TypeSpec>, Box<TypeSpec>),
    Reference(ReferenceMode, Box<TypeSpec>),
}

/// A named, typed function argument.
#[derive(Debug)]
pub struct Argument {
    pub name: String,
    pub typ: Type,
}

/// Model of [`Argument`].
pub struct ArgumentSpec {
    pub name: Seq<char>,
    pub typ: TypeSpec,
}

/// A node of the syntax tree.
#[derive(Debug)]
pub enum Node {
    Nothing { typ: Type },
    Comment { content: String },
    Integer { value: i64 },
    Boolean { value: bool },
    Variable { name: String, typ: Type },
    PrimitiveOperator { operator: Operator, typ: Type },
    Call { operator: Box<Node>, operands: Vec<Node>, typ: Type },
    Reference { mode: ReferenceMode, target: Box<Node>, typ: Type },
    Dereference { target: Box<Node>, typ: Type },
    Assign { lhs: Box<Node>, rhs: Box<Node> },
    Access { target: Box<Node>, property: String, typ: Type },
    Binding { name: String, binding: Box<Node> },
    Sequence { mode: SequenceMode, nodes: Vec<Node>, typ: Type },
    Conditional { condition: Box<Node>, then_branch: Box<Node>, else_branch: Box<Node>, typ: Type },
    Function { name: String, arguments: Vec<Argument>, return_type: Type, body: Box<Node>, typ: Type },
    CNode(CNode),
}

/// A piece of generated C text, with how it combines with others and the type of its value.
#[derive(Debug)]
pub struct CNode {
    pub node_type: CNodeType,
    pub text: String,
    pub typ: Type,
}

/// Model of [`Node`].
pub enum NodeSpec {
    Nothing { typ: TypeSpec },
    Comment { content: Seq<char> },
    Integer { value: i64 },
    Boolean { value: bool },
    Variable { name: Seq<char>, typ: TypeSpec },
    PrimitiveOperator { operator: Operator, typ: TypeSpec },
    Call { operator: Box<NodeSpec>, operands: Seq<NodeSpec>, typ: TypeSpec },
    Reference { mode: ReferenceMode, target: Box<NodeSpec>, typ: TypeSpec },
    Dereference { target: Box<NodeSpec>, typ: TypeSpec },
    Assign { lhs: Box<NodeSpec>, rhs: Box<NodeSpec> },
    Access { target: Box<NodeSpec>, property: Seq<char>, typ: TypeSpec },
    Binding { name: Seq<char>, binding: Box<NodeSpec> },
    Sequence { mode: SequenceMode, nodes: Seq<NodeSpec>, typ: TypeSpec },
    Conditional {
        condition: Box<NodeSpec>,
        then_branch: Box<NodeSpec>,
        else_branch: Box<NodeSpec>,
        typ: TypeSpec,
    },
    Function {
        name: Seq<char>,
        arguments: Seq<ArgumentSpec>,
        return_type: TypeSpec,
        body: Box<NodeSpec>,
        typ: TypeSpec,
    },
    CNode { node_type: CNodeType, text: Seq<char>, typ: TypeSpec },
}

/// The model of a type.
pub open spec fn type_view(t: Type) -> TypeSpec
    decreases t, 0nat,
{
    match t {
        Type::Unknown => TypeSpec::Unknown,
        Type::Void => TypeSpec::Void,
        Type::Integer => TypeSpec::Integer,
        Type::Float => TypeSpec::Float,
        Type::Boolean => TypeSpec::Boolean,
        Type::Struct(name) => TypeSpec::Struct(name@),
        Type::Function(arguments, ret) => TypeSpec::Function(
            types_view_upto(arguments, arguments.len() as nat),
            Box::new(type_view(*ret)),
        ),
        Type::Reference(mode, target) => TypeSpec::Reference(mode, Box::new(type_view(*target))),
    }
}

/// The models of the first `n` types of `v`.
pub open spec fn types_view_upto(v: Vec<Type>, n: nat) -> Seq<TypeSpec>
    decreases v, n,
{
    if n == 0 || n > v.len() {
        Seq::empty()
    } else {
        types_view_upto(v, (n - 1) as nat).push(type_view(v[n - 1]))
    }
}

/// The models of all types of `v`.
pub open spec fn types_view(v: Vec<Type>) -> Seq<TypeSpec> {
    types_view_upto(v, v.len() as nat)
}

impl View for Type {
    type V = TypeSpec;

    open spec fn view(&self) -> TypeSpec {
        type_view(*self)
    }
}

impl DeepView for Type {
    type V = TypeSpec;

    open spec fn deep_view(&self) -> TypeSpec {
        self@
    }
}

impl View for Argument {
    type V = ArgumentSpec;

    open spec fn view(&self) -> ArgumentSpec {
        ArgumentSpec { name: self.name@, typ: self.typ@ }
    }
}

/// The models of the first `n` arguments of `v`.
pub open spec fn arguments_view_upto(v: Vec<Argument>, n: nat) -> Seq<ArgumentSpec>
    decreases n,
{
    if n == 0 || n > v.len() {
        Seq::empty()
    } else {
        arguments_view_upto(v, (n - 1) as nat).push(v[n - 1]@)
    }
}

/// The models of all arguments of `v`.
pub open spec fn arguments_view(v: Vec<Argument>) -> Seq<ArgumentSpec> {
    arguments_view_upto(v, v.len() as nat)
}

/// The model of a node.
pub open spec fn node_view(n: Node) -> NodeSpec
    decreases n, 0nat,
{
    match n {
        Node::Nothing { typ } => NodeSpec::Nothing { typ: typ@ },
        Node::Comment { content } => NodeSpec::Comment { content: content@ },
        Node::Integer { value } => NodeSpec::Integer { value },
        Node::Boolean { value } => NodeSpec::Boolean { value },
        Node::Variable { name, typ } => NodeSpec::Variable { name: name@, typ: typ@ },
        Node::PrimitiveOperator { operator, typ } => NodeSpec::PrimitiveOperator {
            operator,
            typ: typ@,
        },
        Node::Call { operator, operands, typ } => NodeSpec::Call {
            operator: Box::new(node_view(*operator)),
            operands: nodes_view_upto(operands, operands.len() as nat),
            typ: typ@,
        },
        Node::Reference { mode, target, typ } => NodeSpec::Reference {
            mode,
            target: Box::new(node_view(*target)),
            typ: typ@,
        },
        Node::Dereference { target, typ } => NodeSpec::Dereference {
            target: Box::new(node_view(*target)),
            typ: typ@,
        },
        Node::Assign { lhs, rhs } => NodeSpec::Assign {
            lhs: Box::new(node_view(*lhs)),
            rhs: Box::new(node_view(*rhs)),
        },
        Node::Access { target, property, typ } => NodeSpec::Access {
            target: Box::new(node_view(*target)),
            property: property@,
            typ: typ@,
        },
        Node::Binding { name, binding } => NodeSpec::Binding {
            name: name@,
            binding: Box::new(node_view(*binding)),
        },
        Node::Sequence { mode, nodes, typ } => NodeSpec::Sequence {
            mode,
            nodes: nodes_view_upto(nodes, nodes.len() as nat),
            typ: typ@,
        },
        Node::Conditional { condition, then_branch, else_branch, typ } => NodeSpec::Conditional {
            condition: Box::new(node_view(*condition)),
            then_branch: Box::new(node_view(*then_branch)),
            else_branch: Box::new(node_view(*else_branch)),
            typ: typ@,
        },
        Node::Function { name, arguments, return_type, body, typ } => NodeSpec::Function {
            name: name@,
            arguments: arguments_view(arguments),
            return_type: return_type@,
            body: Box::new(node_view(*body)),
            typ: typ@,
        },
        Node::CNode(c) => NodeSpec::CNode { node_type: c.node_type, text: c.text@, typ: c.typ@ },
    }
}

/// The models of the first `n` nodes of `v`.
pub open spec fn nodes_view_upto(v: Vec<Node>, n: nat) -> Seq<NodeSpec>
    decreases v, n,
{
    if n == 0 || n > v.len() {
        Seq::empty()
    } else {
        nodes_view_upto(v, (n - 1) as nat).push(node_view(v[n - 1]))
    }
}

/// The models of all nodes of `v`.
pub open spec fn nodes_view(v: Vec<Node>) -> Seq<NodeSpec> {
    nodes_view_upto(v, v.len() as nat)
}

impl View for Node {
    type V = NodeSpec;

    open spec fn view(&self) -> NodeSpec {
        node_view(*self)
    }
}

/// The models of a vector of nodes are the models of its elements, in order.
pub broadcast proof fn lemma_nodes_view(v: Vec<Node>)
    ensures
        #[trigger] nodes_view(v).len() == v.len(),
        forall|i: int| 0 <= i < v.len() ==> #[trigger] nodes_view(v)[i] == node_view(v@[i]),
{
    lemma_nodes_view_upto(v, v.len() as nat);
}

proof fn lemma_nodes_view_upto(v: Vec<Node>, n: nat)
    requires
        n <= v.len(),
    ensures
        nodes_view_upto(v, n).len() == n,
        forall|i: int| 0 <= i < n ==> nodes_view_upto(v, n)[i] == node_view(v@[i]),
    decreases n,
{
    if n > 0 {
        lemma_nodes_view_upto(v, (n - 1) as nat);
    }
}

/// The models of a vector of types are the models of its elements, in order.
pub broadcast proof fn lemma_types_view(v: Vec<Type>)
    ensures
        #[trigger] types_view(v).len() == v.len(),
        forall|i: int| 0 <= i < v.len() ==> #[trigger] types_view(v)[i] == type_view(v@[i]),
{
    lemma_types_view_upto(v, v.len() as nat);
}

proof fn lemma_types_view_upto(v: Vec<Type>, n: nat)
    requires
        n <= v.len(),
    ensures
        types_view_upto(v, n).len() == n,
        forall|i: int| 0 <= i < n ==> types_view_upto(v, n)[i] == type_view(v@[i]),
    decreases n,
{
    if n > 0 {
        lemma_types_view_upto(v, (n - 1) as nat);
    }
}

/// The models of a vector of arguments are the models of its elements, in order.
pub broadcast proof fn lemma_arguments_view(v: Vec<Argument>)
    ensures
        #[trigger] arguments_view(v).len() == v.len(),
        forall|i: int| 0 <= i < v.len() ==> #[trigger] arguments_view(v)[i] == v@[i]@,
{
    lemma_arguments_view_upto(v, v.len() as nat);
}

proof fn lemma_arguments_view_upto(v: Vec<Argument>, n: nat)
    requires
        n <= v.len(),
    ensures
        arguments_view_upto(v, n).len() == n,
        forall|i: int| 0 <= i < n ==> arguments_view_upto(v, n)[i] == v@[i]@,
    decreases n,
{
    if n > 0 {
        lemma_arguments_view_upto(v, (n - 1) as nat);
    }
}

impl Type {
    /// A copy of this type with the same model.
    pub fn copy(&self) -> (r: Type)
        ensures
            r@ == self@,
        decreases self,
    {
        match self {
            Type::Unknown => Type::Unknown,
            Type::Void => Type::Void,
            Type::Integer => Type::Integer,
            Type::Float => Type::Float,
            Type::Boolean => Type::Boolean,
            Type::Struct(name) => Type::Struct(name.clone()),
            Type::Function(arguments, ret) => {
                let arguments = copy_types(arguments);
                let ret = ret.copy();
                Type::Function(arguments, Box::new(ret))
            },
            Type::Reference(mode, target) => {
                let target = target.copy();
                Type::Reference(*mode, Box::new(target))
            },
        }
    }
}

/// Whether two types are the same.
pub fn types_equal(a: &Type, b: &Type) -> (r: bool)
    ensures
        r == (a@ == b@),
    decreases a,
{
    match (a, b) {
        (Type::Unknown, Type::Unknown) => true,
        (Type::Void, Type::Void) => true,
        (Type::Integer, Type::Integer) => true,
        (Type::Float, Type::Float) => true,
        (Type::Boolean, Type::Boolean) => true,
        (Type::Struct(x), Type::Struct(y)) => {
            let r = x.eq(y);
            r
        },
        (Type::Function(xs, x), Type::Function(ys, y)) => {
            let same_arguments = type_lists_equal(xs, ys);
            if !same_arguments {
                return false;
            }
            types_equal(x, y)
        },
        (Type::Reference(m, x), Type::Reference(n, y)) => {
            if *m != *n {
                return false;
            }
            types_equal(x, y)
        },
        _ => false,
    }
}

/// Whether two lists of types are the same, element by element.
pub fn type_lists_equal(a: &Vec<Type>, b: &Vec<Type>) -> (r: bool)
    ensures
        r == (types_view(*a) == types_view(*b)),
    decreases a,
{
    broadcast use lemma_types_view;

    if a.len() != b.len() {
        return false;
    }
    let mut i: usize = 0;
    while i < a.len()
        invariant
            i <= a.len(),
            a.len() == b.len(),
            forall|j: int| 0 <= j < i ==> type_view(#[trigger] a@[j]) == type_view(b@[j]),
        decreases a.len() - i,
    {
        if !types_equal(&a[i], &b[i]) {
            proof {
                lemma_types_view(*a);
                lemma_types_view(*b);
            }
            assert(types_view(*a)[i as int] != types_view(*b)[i as int]);
            return false;
        }
        i += 1;
    }
    proof {
        lemma_types_view(*a);
        lemma_types_view(*b);
    }
    assert(types_view(*a) =~= types_view(*b));
    true
}

/// A copy of a vector of types with the same models.
pub fn copy_types(v: &Vec<Type>) -> (r: Vec<Type>)
    ensures
        types_view(r) == types_view(*v),
    decreases v,
{
    broadcast use lemma_types_view;

    let mut r: Vec<Type> = Vec::new();
    let mut i: usize = 0;
    while i < v.len()
        invariant
            i <= v.len(),
            r.len() == i,
            forall|j: int| 0 <= j < i ==> type_view(#[trigger] r@[j]) == type_view(v@[j]),
        decreases v.len() - i,
    {
        let t = v[i].copy();
        r.push(t);
        i += 1;
    }
    assert(types_view(r) =~= types_view(*v));
    r
}

/// Whether a node cannot stand where a C expression is expected (it needs statements).
pub open spec fn is_complex(n: NodeSpec) -> bool {
    n is Sequence || n is Conditional
}

/// Whether a node defines a name for its whole scope.
pub open spec fn is_definition(n: NodeSpec) -> bool {
    n is Function
}

/// The type of the value a node produces.
pub open spec fn node_type(n: NodeSpec) -> TypeSpec {
    match n {
        NodeSpec::Nothing { typ } => typ,
        NodeSpec::Comment { .. } => TypeSpec::Void,
        NodeSpec::Integer { .. } => TypeSpec::Integer,
        NodeSpec::Boolean { .. } => TypeSpec::Boolean,
        NodeSpec::Variable { typ, .. } => typ,
        NodeSpec::PrimitiveOperator { typ, .. } => typ,
        NodeSpec::Call { typ, .. } => typ,
        NodeSpec::Reference { typ, .. } => typ,
        NodeSpec::Dereference { typ, .. } => typ,
        NodeSpec::Assign { .. } => TypeSpec::Void,
        NodeSpec::Access { typ, .. } => typ,
        NodeSpec::Binding { .. } => TypeSpec::Void,
        NodeSpec::Sequence { typ, .. } => typ,
        NodeSpec::Conditional { typ, .. } => typ,
        NodeSpec::Function { typ, .. } => typ,
        NodeSpec::CNode { typ, .. } => typ,
    }
}

/// The index of the node that gives a sequence its value: the last node that is not a
/// definition.
pub open spec fn result_index(s: Seq<NodeSpec>) -> Option<int>
    decreases s.len(),
{
    if s.len() == 0 {
        None
    } else if !is_definition(s.last()) {
        Some(s.len() - 1)
    } else {
        result_index(s.drop_last())
    }
}

/// The placeholder left where a node was taken out of the tree.
pub open spec fn placeholder() -> NodeSpec {
    NodeSpec::Nothing { typ: TypeSpec::Unknown }
}

/// The result index is a valid index of a non-definition node, and every later node is a
/// definition; there is none exactly when every node is a definition.
pub proof fn lemma_result_index(s: Seq<NodeSpec>)
    ensures
        result_index(s) matches Some(i) ==> 0 <= i < s.len() && !is_definition(s[i]) && forall|
            j: int,
        | i < j < s.len() ==> is_definition(#[trigger] s[j]),
        result_index(s) is None ==> forall|j: int| 0 <= j < s.len() ==> is_definition(
            #[trigger] s[j],
        ),
    decreases s.len(),
{
    if s.len() > 0 && is_definition(s.last()) {
        lemma_result_index(s.drop_last());
        assert forall|j: int| 0 <= j < s.len() - 1 implies s[j] == s.drop_last()[j] by {}
    }
}

/// The type of a sequence of nodes: the type of its result node, or void when it has none.
pub open spec fn sequence_type(nodes: Seq<NodeSpec>) -> TypeSpec {
    match result_index(nodes) {
        Some(i) => node_type(nodes[i]),
        None => TypeSpec::Void,
    }
}

/// A new sequence node, typed by its result node.
pub open spec fn new_sequence(mode: SequenceMode, nodes: Seq<NodeSpec>) -> NodeSpec {
    NodeSpec::Sequence { mode, nodes, typ: sequence_type(nodes) }
}

/// A new variable node.
pub open spec fn new_variable(name: Seq<char>, typ: TypeSpec) -> NodeSpec {
    NodeSpec::Variable { name, typ }
}

/// A new binding node.
pub open spec fn new_binding(name: Seq<char>, binding: NodeSpec) -> NodeSpec {
    NodeSpec::Binding { name, binding: Box::new(binding) }
}

impl Node {
    /// A variable node.
    pub fn new_variable(name: String, typ: Type) -> (r: Node)
        ensures
            r@ == new_variable(name@, typ@),
    {
        Node::Variable { name, typ }
    }

    /// A binding node.
    pub fn new_binding(name: String, binding: Node) -> (r: Node)
        ensures
            r@ == new_binding(name@, binding@),
    {
        Node::Binding { name, binding: Box::new(binding) }
    }

    /// A sequence node, typed by its result node.
    pub fn new_sequence(mode: SequenceMode, nodes: Vec<Node>) -> (r: Node)
        ensures
            r@ == new_sequence(mode, nodes_view(nodes)),
    {
        proof { lemma_nodes_view(nodes); }
        let typ = match get_result_index(&nodes) {
            Some(i) => {
                proof { lemma_result_index(nodes_view(nodes)); }
                nodes[i].get_type()
            },
            None => Type::Void,
        };
        Node::Sequence { mode, nodes, typ }
    }

    /// The node left in place of one that was taken out of the tree.
    pub fn nothing() -> (r: Node)
        ensures
            r@ == placeholder(),
    {
        Node::Nothing { typ: Type::Unknown }
    }

    /// Takes this node out of the tree, leaving the placeholder in its place.
    pub fn extract_temp(&mut self) -> (r: Node)
        ensures
            r == *old(self),
            final(self)@ == placeholder(),
    {
        let mut t = Node::nothing();
        std::mem::swap(self, &mut t);
        t
    }

    /// Takes this node out of the tree, leaving `replacement` in its place.
    pub fn extract(&mut self, replacement: Node) -> (r: Node)
        ensures
            r == *old(self),
            *final(self) == replacement,
    {
        let mut t = replacement;
        std::mem::swap(self, &mut t);
        t
    }

    /// Whether the node needs statements (it is a sequence or a conditional).
    pub fn is_complex(&self) -> (r: bool)
        ensures
            r == is_complex(self@),
    {
        match self {
            Node::Sequence { .. } | Node::Conditional { .. } => true,
            _ => false,
        }
    }

    /// Whether the node is a definition.
    pub fn is_definition(&self) -> (r: bool)
        ensures
            r == is_definition(self@),
    {
        match self {
            Node::Function { .. } => true,
            _ => false,
        }
    }

    /// The type of the value the node produces.
    pub fn get_type(&self) -> (r: Type)
        ensures
            r@ == node_type(self@),
    {
        match self {
            Node::Nothing { typ } => typ.copy(),
            Node::Comment { .. } => Type::Void,
            Node::Integer { .. } => Type::Integer,
            Node::Boolean { .. } => Type::Boolean,
            Node::Variable { typ, .. } => typ.copy(),
            Node::PrimitiveOperator { typ, .. } => typ.copy(),
            Node::Call { typ, .. } => typ.copy(),
            Node::Reference { typ, .. } => typ.copy(),
            Node::Dereference { typ, .. } => typ.copy(),
            Node::Assign { .. } => Type::Void,
            Node::Access { typ, .. } => typ.copy(),
            Node::Binding { .. } => Type::Void,
            Node::Sequence { typ, .. } => typ.copy(),
            Node::Conditional { typ, .. } => typ.copy(),
            Node::Function { typ, .. } => typ.copy(),
            Node::CNode(c) => c.typ.copy(),
        }
    }
}

/// The index of the node that gives a sequence its value (see [`result_index`]).
pub fn get_result_index(nodes: &Vec<Node>) -> (r: Option<usize>)
    ensures
        r matches Some(i) ==> result_index(nodes_view(*nodes)) == Some(i as int),
        r is None ==> result_index(nodes_view(*nodes)) is None,
{
    broadcast use lemma_nodes_view;

    let ghost s = nodes_view(*nodes);
    assert(s.len() == nodes.len());
    assert(s.subrange(0, s.len() as int) =~= s);
    let mut i = nodes.len();
    while i > 0
        invariant
            i <= nodes.len(),
            s == nodes_view(*nodes),
            s.len() == nodes.len(),
            result_index(s) == result_index(s.subrange(0, i as int)),
        decreases i,
    {
        let ghost t = s.subrange(0, i as int);
        assert(t.last() == s[i - 1]);
        proof { lemma_nodes_view(*nodes); }
        assert(nodes_view(*nodes)[i - 1] == node_view(nodes@[i - 1]));
        if !nodes[i - 1].is_definition() {
            return Some(i - 1);
        }
        assert(t.drop_last() =~= s.subrange(0, i - 1));
        i -= 1;
    }
    assert(s.subrange(0, 0) =~= Seq::<NodeSpec>::empty());
    None
}

pub broadcast group group_ast_views {
    lemma_nodes_view,
    lemma_types_view,
    lemma_arguments_view,
}

} // verus!
