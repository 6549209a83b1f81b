//! Messages that a pass reports about the nodes it visits, and the context that collects
//! them.
use vstd::prelude::*;
use crate::text::{push_char, push_str, push_string};

verus! {

/// Model of a [`PassMessage`].
pub struct MessageSpec {
    pub pass: Seq<char>,
    pub name: Seq<char>,
    pub message: Seq<char>,
    pub source: Seq<char>,
    pub indent: nat,
}

/// A message from a pass: the pass (with its severity), the name of the problem, the
/// message, the node it is about, and the depth of that node.
pub struct PassMessage {
    pass: String,
    name: String,
    message: String,
    source: String,
    indent: usize,
}

/// `k` tabs.
pub open spec fn tabs(k: nat) -> Seq<char>
    decreases k,
{
    if k == 0 {
        Seq::empty()
    } else {
        tabs((k - 1) as nat) + seq!['\t']
    }
}

/// The text of a message: `[pass::name]`, then `- 'message'`, then `@ source`, on three
/// lines indented by the depth.
pub open spec fn message_text(m: MessageSpec) -> Seq<char> {
    let indent = tabs(m.indent);
    indent + seq!['['] + m.pass + seq![':', ':'] + m.name + seq![']', '\n'] + indent + seq![
        '-',
        ' ',
        '\'',
    ] + m.message + seq!['\'', '\n'] + indent + seq!['\t', '@', ' '] + m.source
}

impl PassMessage {
    /// The model of the message.
    pub closed spec fn model(&self) -> MessageSpec {
        MessageSpec {
            pass: self.pass@,
            name: self.name@,
            message: self.message@,
            source: self.source@,
            indent: self.indent as nat,
        }
    }

    pub fn new(pass: String, name: String, message: String, source: String, indent: usize) -> (r: Self)
        ensures
            r.model() == (MessageSpec {
                pass: pass@,
                name: name@,
                message: message@,
                source: source@,
                indent: indent as nat,
            }),
    {
        Self { pass, name, message, source, indent }
    }

    /// The text of the message (see [`message_text`]).
    pub fn text(&self) -> (r: String)
        ensures
            r@ == message_text(self.model()),
    {
        let mut indent = String::new();
        let mut i: usize = 0;
        while i < self.indent
            invariant
                i <= self.indent,
                indent@ == tabs(i as nat),
            decreases self.indent - i,
        {
            push_char(&mut indent, '\t');
            i += 1;
        }
        let mut r = String::new();
        push_string(&mut r, &indent);
        push_char(&mut r, '[');
        push_string(&mut r, &self.pass);
        push_char(&mut r, ':');
        push_char(&mut r, ':');
        push_string(&mut r, &self.name);
        push_char(&mut r, ']');
        push_char(&mut r, '\n');
        push_string(&mut r, &indent);
        push_char(&mut r, '-');
        push_char(&mut r, ' ');
        push_char(&mut r, '\'');
        push_string(&mut r, &self.message);
        push_char(&mut r, '\'');
        push_char(&mut r, '\n');
        push_string(&mut r, &indent);
        push_char(&mut r, '\t');
        push_char(&mut r, '@');
        push_char(&mut r, ' ');
        push_string(&mut r, &self.source);
        assert(r@ =~= message_text(self.model()));
        r
    }
}

/// The models of a list of messages.
pub open spec fn messages_view(v: Seq<PassMessage>) -> Seq<MessageSpec> {
    v.map_values(|m: PassMessage| m.model())
}

/// Model of a [`PassMessageContext`].
pub struct ContextSpec {
    pub messages: Seq<MessageSpec>,
    pub pass_name: Seq<char>,
    pub current_indent: nat,
    pub has_errors: bool,
    pub has_warnings: bool,
}

/// The severity prefix of an error of a pass.
pub open spec fn error_pass(pass_name: Seq<char>) -> Seq<char> {
    "ERROR: "@ + pass_name
}

/// The severity prefix of a warning of a pass.
pub open spec fn warning_pass(pass_name: Seq<char>) -> Seq<char> {
    "warning: "@ + pass_name
}

/// The messages reported while a pass runs, at the depth of the node being visited.
pub struct PassMessageContext {
    messages: Vec<PassMessage>,
    pass_name: String,
    current_indent: usize,
    pub has_errors: bool,
    pub has_warnings: bool,
}

impl PassMessageContext {
    /// The model of the context.
    pub closed spec fn model(&self) -> ContextSpec {
        ContextSpec {
            messages: messages_view(self.messages@),
            pass_name: self.pass_name@,
            current_indent: self.current_indent as nat,
            has_errors: self.has_errors,
            has_warnings: self.has_warnings,
        }
    }

    pub fn new(pass_name: String) -> (r: Self)
        ensures
            r.model() == (ContextSpec {
                messages: Seq::empty(),
                pass_name: pass_name@,
                current_indent: 0,
                has_errors: false,
                has_warnings: false,
            }),
    {
        let r = Self {
            messages: Vec::new(),
            pass_name,
            current_indent: 0,
            has_errors: false,
            has_warnings: false,
        };
        assert(r.model().messages =~= Seq::<MessageSpec>::empty());
        r
    }

    /// Reports an error about `source` at the current depth.
    pub fn add_error(&mut self, name: String, message: String, source: String)
        ensures
            final(self).model() == (ContextSpec {
                messages: old(self).model().messages.push(
                    MessageSpec {
                        pass: error_pass(old(self).model().pass_name),
                        name: name@,
                        message: message@,
                        source: source@,
                        indent: old(self).model().current_indent,
                    },
                ),
                has_errors: true,
                ..old(self).model()
            }),
    {
        let mut pass = String::new();
        push_str(&mut pass, "ERROR: ");
        push_string(&mut pass, &self.pass_name);
        let m = PassMessage::new(pass, name, message, source, self.current_indent);
        self.messages.push(m);
        self.has_errors = true;
        assert(self.model().messages =~= old(self).model().messages.push(m.model()));
    }

    /// Reports a warning about `source` at the current depth.
    pub fn add_warning(&mut self, name: String, message: String, source: String)
        ensures
            final(self).model() == (ContextSpec {
                messages: old(self).model().messages.push(
                    MessageSpec {
                        pass: warning_pass(old(self).model().pass_name),
                        name: name@,
                        message: message@,
                        source: source@,
                        indent: old(self).model().current_indent,
                    },
                ),
                has_warnings: true,
                ..old(self).model()
            }),
    {
        let mut pass = String::new();
        push_str(&mut pass, "warning: ");
        push_string(&mut pass, &self.pass_name);
        let m = PassMessage::new(pass, name, message, source, self.current_indent);
        self.messages.push(m);
        self.has_warnings = true;
        assert(self.model().messages =~= old(self).model().messages.push(m.model()));
    }

    /// Sets the depth of the node being visited.
    pub fn set_indent(&mut self, indent: usize)
        ensures
            final(self).model() == (ContextSpec { current_indent: indent as nat, ..old(self).model() }),
    {
        self.current_indent = indent;
    }

    /// The messages, whether there were warnings, and whether there were errors.
    pub fn destructure(self) -> (r: (Vec<PassMessage>, bool, bool))
        ensures
            messages_view(r.0@) == self.model().messages,
            r.1 == self.model().has_warnings,
            r.2 == self.model().has_errors,
    {
        (self.messages, self.has_warnings, self.has_errors)
    }
}

/// The outcome of a pass: its messages, as a failure when one of them is an error.
pub enum PassResult {
    Success(Vec<PassMessage>),
    Failure(Vec<PassMessage>),
}

} // verus!
