//! Writing C text with nested groups (parenthesised where needed) and indented lines.
use vstd::prelude::*;
use crate::ast::{Node, NodeSpec, Type, TypeSpec};
use crate::convert_names::{c_safe_name, ConvertNames};
use crate::text::{push_char, push_str, push_string, text};

verus! {

/// Model of [`FormatContext`]: the text written so far, the open groups (each with whether
/// it opened a parenthesis), the indentation level and whether only declarations are written.
pub struct FormatSpec {
    pub result: Seq<char>,
    pub groups: Seq<(Seq<char>, bool)>,
    pub indent: nat,
    pub declaration_mode: bool,
}

/// The context with `s` written.
pub open spec fn ctx_write(c: FormatSpec, s: Seq<char>) -> FormatSpec {
    FormatSpec { result: c.result + s, ..c }
}

/// The context with a comment holding `s` written: `/* s */`.
pub open spec fn ctx_write_comment(c: FormatSpec, s: Seq<char>) -> FormatSpec {
    ctx_write(c, seq!['/', '*', ' '] + s + seq![' ', '*', '/'])
}

/// The name of the innermost open group (empty when none is open).
pub open spec fn last_group(c: FormatSpec) -> Seq<char> {
    if c.groups.len() == 0 {
        Seq::empty()
    } else {
        c.groups.last().0
    }
}

/// The context with a group opened: it opens a parenthesis when `use_paren` holds, or, when
/// the innermost open group has the same name, when `force_paren` holds.
pub open spec fn ctx_push_group(
    c: FormatSpec,
    name: Seq<char>,
    use_paren: bool,
    force_paren: bool,
) -> FormatSpec {
    let paren = if c.groups.len() > 0 && c.groups.last().0 == name {
        force_paren
    } else {
        use_paren
    };
    FormatSpec {
        result: if paren {
            c.result + seq!['(']
        } else {
            c.result
        },
        groups: c.groups.push((name, paren)),
        ..c
    }
}

/// The context with the innermost group closed (with a parenthesis when it opened one).
pub open spec fn ctx_pop_group(c: FormatSpec) -> FormatSpec {
    if c.groups.len() == 0 {
        c
    } else {
        FormatSpec {
            result: if c.groups.last().1 {
                c.result + seq![')']
            } else {
                c.result
            },
            groups: c.groups.drop_last(),
            ..c
        }
    }
}

/// `n` tab characters.
pub open spec fn tabs(n: nat) -> Seq<char>
    decreases n,
{
    if n == 0 {
        Seq::empty()
    } else {
        tabs((n - 1) as nat).push('\t')
    }
}

/// The context with a new line started at the current indentation.
pub open spec fn ctx_start_line(c: FormatSpec) -> FormatSpec {
    ctx_write(c, seq!['\n'] + tabs(c.indent))
}

/// The context with the statement of node `n` ended: a `;` unless the node is a sequence, a
/// conditional or a function.
pub open spec fn ctx_end_line(c: FormatSpec, n: NodeSpec) -> FormatSpec {
    if n is Sequence || n is Conditional || n is Function {
        c
    } else {
        ctx_write(c, seq![';'])
    }
}

/// The context indented one level more.
pub open spec fn ctx_indent(c: FormatSpec) -> FormatSpec {
    FormatSpec { indent: c.indent + 1, ..c }
}

/// The context indented one level less.
pub open spec fn ctx_dedent(c: FormatSpec) -> FormatSpec {
    FormatSpec { indent: (c.indent - 1) as nat, ..c }
}

/// A type without its reference layers.
pub open spec fn data_type(t: TypeSpec) -> TypeSpec
    decreases t,
{
    match t {
        TypeSpec::Reference(_, target) => data_type(*target),
        _ => t,
    }
}

/// The number of reference layers of a type.
pub open spec fn reference_layers(t: TypeSpec) -> nat
    decreases t,
{
    match t {
        TypeSpec::Reference(_, target) => reference_layers(*target) + 1,
        _ => 0,
    }
}

/// How a data type is written: `int`, `bool`, `void`, `float`, a structure's name;
/// `_UNKNOWN_` and `_CALLABLE_` for unknown and function types.
pub open spec fn data_type_text(t: TypeSpec) -> Seq<char> {
    match t {
        TypeSpec::Integer => seq!['i', 'n', 't'],
        TypeSpec::Boolean => seq!['b', 'o', 'o', 'l'],
        TypeSpec::Void => seq!['v', 'o', 'i', 'd'],
        TypeSpec::Float => seq!['f', 'l', 'o', 'a', 't'],
        TypeSpec::Struct(name) => name,
        TypeSpec::Function(..) => seq!['_', 'C', 'A', 'L', 'L', 'A', 'B', 'L', 'E', '_'],
        _ => seq!['_', 'U', 'N', 'K', 'N', 'O', 'W', 'N', '_'],
    }
}

/// `n` stars.
pub open spec fn stars(n: nat) -> Seq<char>
    decreases n,
{
    if n == 0 {
        Seq::empty()
    } else {
        stars((n - 1) as nat).push('*')
    }
}

/// How a type is written: its data type, then a space and one `*` per reference layer;
/// a type without reference layers is passed by pointer, with a `*` right after it.
pub open spec fn type_text(t: TypeSpec) -> Seq<char> {
    data_type_text(data_type(t)) + if reference_layers(t) == 0 {
        seq!['*']
    } else {
        seq![' '] + stars(reference_layers(t))
    }
}

/// How a typed name is written: `_FUNCTION_ name` for functions, else the type and the name
/// (the name made C-safe).
pub open spec fn typed_identifier(name: Seq<char>, t: TypeSpec) -> Seq<char> {
    if data_type(t) is Function {
        seq!['_', 'F', 'U', 'N', 'C', 'T', 'I', 'O', 'N', '_', ' '] + c_safe_name(name)
    } else {
        type_text(t) + seq![' '] + c_safe_name(name)
    }
}

/// A context for writing C text: the text written so far, the open groups and the
/// indentation.
pub struct FormatContext {
    result: String,
    group_names: Vec<(String, bool)>,
    indent_level: usize,
    declaration_mode: bool,
}

/// The models of the open groups.
pub open spec fn groups_view(v: Seq<(String, bool)>) -> Seq<(Seq<char>, bool)> {
    Seq::new(v.len(), |i: int| (v[i].0@, v[i].1))
}

impl FormatContext {
    /// The model of this context.
    pub closed spec fn model(&self) -> FormatSpec {
        FormatSpec {
            result: self.result@,
            groups: groups_view(self.group_names@),
            indent: self.indent_level as nat,
            declaration_mode: self.declaration_mode,
        }
    }

    /// Whether only declarations are written.
    pub fn is_declaration_mode(&self) -> (r: bool)
        ensures
            r == self.model().declaration_mode,
    {
        self.declaration_mode
    }

    /// Sets whether only declarations are written.
    pub fn set_declaration_mode(&mut self, declaration_mode: bool)
        ensures
            final(self).model() == (FormatSpec { declaration_mode, ..old(self).model() }),
    {
        self.declaration_mode = declaration_mode;
    }

    /// The text written so far.
    pub fn get_result(&self) -> (r: String)
        ensures
            r@ == self.model().result,
    {
        self.result.clone()
    }

    /// A context that writes after `result`, with no group open and no indentation.
    pub fn new(result: String) -> (r: Self)
        ensures
            r.model() == (FormatSpec {
                result: result@,
                groups: Seq::empty(),
                indent: 0,
                declaration_mode: false,
            }),
    {
        let r = FormatContext {
            result,
            group_names: Vec::new(),
            indent_level: 0,
            declaration_mode: false,
        };
        assert(groups_view(r.group_names@) =~= Seq::empty());
        r
    }

    /// Writes `content`.
    pub fn write(&mut self, content: String)
        ensures
            final(self).model() == ctx_write(old(self).model(), content@),
    {
        push_string(&mut self.result, &content);
    }

    /// Writes `content`.
    pub fn write_str(&mut self, content: &str)
        ensures
            final(self).model() == ctx_write(old(self).model(), content@),
    {
        push_str(&mut self.result, content);
    }

    /// Writes a comment holding `content`.
    pub fn write_comment(&mut self, content: String)
        ensures
            final(self).model() == ctx_write_comment(old(self).model(), content@),
    {
        proof {
            reveal_strlit("/* ");
            reveal_strlit(" */");
        }
        let ghost before = self.result@;
        push_str(&mut self.result, "/* ");
        push_string(&mut self.result, &content);
        push_str(&mut self.result, " */");
        assert(self.result@ =~= before + (seq!['/', '*', ' '] + content@ + seq![' ', '*', '/']));
    }

    /// Writes a comment holding `content`.
    pub fn write_comment_str(&mut self, content: &str)
        ensures
            final(self).model() == ctx_write_comment(old(self).model(), content@),
    {
        proof {
            reveal_strlit("/* ");
            reveal_strlit(" */");
        }
        let ghost before = self.result@;
        push_str(&mut self.result, "/* ");
        push_str(&mut self.result, content);
        push_str(&mut self.result, " */");
        assert(self.result@ =~= before + (seq!['/', '*', ' '] + content@ + seq![' ', '*', '/']));
    }

    /// The C-safe version of a name.
    pub fn get_identifier(&self, name: &String) -> (r: String)
        ensures
            r@ == c_safe_name(name@),
    {
        ConvertNames::new().convert_name(name.clone())
    }

    /// How a type is written (see [`type_text`]).
    pub fn get_type(&self, t: &Type) -> (r: String)
        ensures
            r@ == type_text(t@),
    {
        let base = Self::strip_references(t);
        let mut r = Self::data_type_string(base);
        proof {
            reveal_strlit("*");
            reveal_strlit(" ");
        }
        let ghost b = r@;
        match t {
            Type::Reference(..) => {
                push_str(&mut r, " ");
                let layers = Self::layer_stars(t);
                push_string(&mut r, &layers);
                assert(r@ =~= b + (seq![' '] + stars(reference_layers(t@))));
            },
            _ => {
                push_str(&mut r, "*");
                assert(r@ =~= b + seq!['*']);
            },
        }
        r
    }

    /// One `*` per reference layer of a type.
    fn layer_stars(t: &Type) -> (r: String)
        ensures
            r@ == stars(reference_layers(t@)),
        decreases t,
    {
        match t {
            Type::Reference(_, target) => {
                let mut r = Self::layer_stars(target);
                push_char(&mut r, '*');
                r
            },
            _ => {
                let r = String::new();
                assert(r@ =~= stars(0));
                r
            },
        }
    }

    /// A type without its reference layers.
    fn strip_references(t: &Type) -> (r: &Type)
        ensures
            r@ == data_type(t@),
        decreases t,
    {
        match t {
            Type::Reference(_, target) => Self::strip_references(target),
            _ => t,
        }
    }

    /// How a data type (a type that is not a reference) is written.
    fn data_type_string(t: &Type) -> (r: String)
        ensures
            r@ == data_type_text(t@),
    {
        match t {
            Type::Integer => {
                proof {
                    reveal_strlit("int");
                }
                text("int")
            },
            Type::Boolean => {
                proof {
                    reveal_strlit("bool");
                }
                text("bool")
            },
            Type::Void => {
                proof {
                    reveal_strlit("void");
                }
                text("void")
            },
            Type::Float => {
                proof {
                    reveal_strlit("float");
                }
                text("float")
            },
            Type::Struct(name) => name.clone(),
            Type::Function(..) => {
                proof {
                    reveal_strlit("_CALLABLE_");
                }
                text("_CALLABLE_")
            },
            _ => {
                proof {
                    reveal_strlit("_UNKNOWN_");
                }
                text("_UNKNOWN_")
            },
        }
    }

    /// How a typed name is written (see [`typed_identifier`]).
    pub fn get_typed_identifier(&self, name: &String, t: &Type) -> (r: String)
        ensures
            r@ == typed_identifier(name@, t@),
    {
        let base = Self::strip_references(t);
        let identifier = self.get_identifier(name);
        match base {
            Type::Function(..) => {
                proof {
                    reveal_strlit("_FUNCTION_ ");
                }
                let mut r = text("_FUNCTION_ ");
                push_string(&mut r, &identifier);
                r
            },
            _ => {
                proof {
                    reveal_strlit(" ");
                }
                let mut r = self.get_type(t);
                let ghost b = r@;
                push_str(&mut r, " ");
                push_string(&mut r, &identifier);
                assert(r@ =~= b + seq![' '] + identifier@);
                r
            },
        }
    }

    /// Opens a group named `name` (see [`ctx_push_group`]).
    pub fn push_group(&mut self, name: &str, use_paren: bool, force_paren: bool)
        ensures
            final(self).model() == ctx_push_group(old(self).model(), name@, use_paren, force_paren),
    {
        let name = text(name);
        let n = self.group_names.len();
        let mut paren = use_paren;
        if n > 0 {
            assert(groups_view(self.group_names@).last() == (self.group_names@[n - 1].0@, self.group_names@[n - 1].1));
            if self.group_names[n - 1].0.eq(&name) {
                paren = force_paren;
            }
        }
        let ghost g = self.group_names@;
        self.group_names.push((name, paren));
        assert(groups_view(self.group_names@) =~= groups_view(g).push((name@, paren)));
        if paren {
            proof {
                reveal_strlit("(");
            }
            push_str(&mut self.result, "(");
            assert(self.result@ =~= old(self).result@ + seq!['(']);
        }
        assert(self.model().groups == ctx_push_group(old(self).model(), name@, use_paren, force_paren).groups);
    }

    /// Closes the innermost group (see [`ctx_pop_group`]).
    pub fn pop_group(&mut self)
        ensures
            final(self).model() == ctx_pop_group(old(self).model()),
    {
        let ghost g = self.group_names@;
        let group = self.group_names.pop();
        match group {
            Some((_, true)) => {
                proof {
                    reveal_strlit(")");
                }
                push_str(&mut self.result, ")");
                assert(self.result@ =~= old(self).result@ + seq![')']);
                assert(groups_view(g).last().1);
                assert(groups_view(self.group_names@) =~= groups_view(g).drop_last());
            },
            Some(_) => {
                assert(!groups_view(g).last().1);
                assert(groups_view(self.group_names@) =~= groups_view(g).drop_last());
            },
            None => {
                assert(groups_view(g) =~= Seq::empty());
            },
        }
    }

    /// The name of the innermost open group (empty when none is open).
    pub fn get_last_group(&self) -> (r: String)
        ensures
            r@ == last_group(self.model()),
    {
        let n = self.group_names.len();
        if n > 0 {
            assert(groups_view(self.group_names@).last() == (self.group_names@[n - 1].0@, self.group_names@[n - 1].1));
            self.group_names[n - 1].0.clone()
        } else {
            String::new()
        }
    }

    /// Starts a new line at the current indentation.
    pub fn start_line(&mut self)
        ensures
            final(self).model() == ctx_start_line(old(self).model()),
    {
        let ghost before = self.result@;
        push_char(&mut self.result, '\n');
        let mut i: usize = 0;
        assert(self.result@ =~= before + (seq!['\n'] + tabs(0)));
        while i < self.indent_level
            invariant
                i <= self.indent_level,
                self.result@ == before + (seq!['\n'] + tabs(i as nat)),
                self.indent_level == old(self).indent_level,
                self.group_names == old(self).group_names,
                self.declaration_mode == old(self).declaration_mode,
                before == old(self).result@,
            decreases self.indent_level - i,
        {
            push_char(&mut self.result, '\t');
            i += 1;
            assert(self.result@ =~= before + (seq!['\n'] + tabs(i as nat)));
        }
    }

    /// Ends the statement of `node` (see [`ctx_end_line`]).
    pub fn end_line(&mut self, node: &Node)
        ensures
            final(self).model() == ctx_end_line(old(self).model(), node@),
    {
        match node {
            Node::Sequence { .. } | Node::Conditional { .. } | Node::Function { .. } => {},
            _ => {
                push_char(&mut self.result, ';');
                assert(self.result@ =~= old(self).result@ + seq![';']);
            },
        }
    }

    /// Indents one level more.
    pub fn indent(&mut self)
        requires
            old(self).model().indent < usize::MAX,
        ensures
            final(self).model() == ctx_indent(old(self).model()),
    {
        self.indent_level += 1;
    }

    /// Indents one level less.
    pub fn dedent(&mut self)
        requires
            old(self).model().indent > 0,
        ensures
            final(self).model() == ctx_dedent(old(self).model()),
    {
        self.indent_level -= 1;
    }
}

} // verus!
