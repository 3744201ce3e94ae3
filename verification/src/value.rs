use crate::decimal::{decimal_digits, decimal_string};
use crate::error::RespError;
use vstd::prelude::*;
use vstd::string::{StrSliceExecFns, StringExecFns};

verus! {

/// A protocol value.
#[derive(Debug, PartialEq, Eq)]
pub enum Value {
    /// A simple string; its wire marker is `+`.
    String(String),
    /// An error; its wire marker is `-`.
    Error(String),
    /// A bulk string; its wire marker is `$`.
    Bulk(String),
    /// An array of values; its wire marker is `*`.
    Array(Vec<Value>),
}

/// The mathematical content of a [`Value`]: texts as character sequences,
/// arrays as sequences of contents.
pub ghost enum ValueView {
    String(Seq<char>),
    Error(Seq<char>),
    Bulk(Seq<char>),
    Array(Seq<ValueView>),
}

impl View for Value {
    type V = ValueView;

    open spec fn view(&self) -> ValueView
        decreases self,
    {
        match self {
            Value::String(text) => ValueView::String(text@),
            Value::Error(text) => ValueView::Error(text@),
            Value::Bulk(text) => ValueView::Bulk(text@),
            Value::Array(items) => ValueView::Array(
                Seq::new(
                    items@.len(),
                    |i: int|
                        if 0 <= i < items@.len() {
                            items@[i]@
                        } else {
                            arbitrary()
                        },
                ),
            ),
        }
    }
}

/// The contents of each value of `items`, in order.
pub open spec fn views(items: Seq<Value>) -> Seq<ValueView> {
    Seq::new(items.len(), |i: int| items[i]@)
}

/// An array's content is the contents of its items.
pub proof fn lemma_array_view(items: Vec<Value>)
    ensures
        Value::Array(items)@ == ValueView::Array(views(items@)),
{
    reveal_with_fuel(<Value as View>::view, 2);
    assert(Value::Array(items)@->Array_0 =~= views(items@));
}

impl Clone for Value {
    fn clone(&self) -> (copy: Self)
        ensures
            copy@ == self@,
        decreases self,
    {
        match self {
            Value::String(text) => Value::String(text.clone()),
            Value::Error(text) => Value::Error(text.clone()),
            Value::Bulk(text) => Value::Bulk(text.clone()),
            Value::Array(items) => {
                let mut copies: Vec<Value> = Vec::new();
                let mut i: usize = 0;
                while i < items.len()
                    invariant
                        i <= items.len(),
                        copies.len() == i,
                        forall|j: int| 0 <= j < i ==> copies@[j]@ == items@[j]@,
                        decreases_to!(self => items),
                    decreases items.len() - i,
                {
                    copies.push(items[i].clone());
                    i += 1;
                }
                let copy = Value::Array(copies);
                assert(copy@->Array_0 =~= self@->Array_0);
                copy
            },
        }
    }
}

/// The two characters that end a line.
pub open spec fn line_end() -> Seq<char> {
    seq!['\r', '\n']
}

/// The text that a value is written as: a marker, then the text and a line
/// end; a bulk string has the number of its characters on a line of its
/// own before the text. An array has none.
pub open spec fn spec_encode(value: ValueView) -> Option<Seq<char>> {
    match value {
        ValueView::String(text) => Some(seq!['+'] + text + line_end()),
        ValueView::Error(text) => Some(seq!['-'] + text + line_end()),
        ValueView::Bulk(text) => Some(
            seq!['$'] + decimal_digits(text.len()) + line_end() + text + line_end(),
        ),
        ValueView::Array(_) => None,
    }
}

/// The command that a value holds: the text of its first item, which has
/// to be a bulk string, and the items after it. Only an array that is not
/// empty holds one.
pub open spec fn spec_to_command(value: ValueView) -> Option<(Seq<char>, Seq<ValueView>)> {
    match value {
        ValueView::Array(items) => if items.len() > 0 {
            match items[0] {
                ValueView::Bulk(name) => Some((name, items.skip(1))),
                _ => None,
            }
        } else {
            None
        },
        _ => None,
    }
}

impl Value {
    /// Splits a command into its name and its arguments.
    pub fn to_command(&self) -> (command: Result<(String, Vec<Value>), RespError>)
        ensures
            match command {
                Ok((name, arguments)) => spec_to_command(self@) == Some(
                    (name@, views(arguments@)),
                ),
                Err(error) => error == RespError::InvalidCommand && spec_to_command(self@)
                    is None,
            },
            command matches Ok((name, arguments)) ==> {
                &&& self@ matches ValueView::Array(items)
                &&& items.len() == arguments@.len() + 1
                &&& items[0] == ValueView::Bulk(name@)
                &&& forall|i: int|
                    0 <= i < arguments@.len() ==> (#[trigger] arguments@[i])@ == items[i + 1]
            },
    {
        match self {
            Value::Array(items) => {
                proof {
                    lemma_array_view(*items);
                }
                if items.len() == 0 {
                    return Err(RespError::InvalidCommand);
                }
                let name = match items[0].unwrap_bulk() {
                    Ok(name) => name,
                    Err(error) => {
                        return Err(error);
                    },
                };
                let mut arguments: Vec<Value> = Vec::new();
                let mut i: usize = 1;
                while i < items.len()
                    invariant
                        1 <= i <= items.len(),
                        arguments.len() == i - 1,
                        forall|j: int| 0 <= j < i - 1 ==> arguments@[j]@ == items@[j + 1]@,
                    decreases items.len() - i,
                {
                    arguments.push(items[i].clone());
                    i += 1;
                }
                assert(views(arguments@) =~= views(items@).skip(1));
                Ok((name, arguments))
            },
            _ => Err(RespError::InvalidCommand),
        }
    }

    /// The text of a bulk string.
    pub fn unwrap_bulk(&self) -> (text: Result<String, RespError>)
        ensures
            match text {
                Ok(text) => self@ == ValueView::Bulk(text@),
                Err(error) => error == RespError::InvalidCommand && !(self@ is Bulk),
            },
    {
        match self {
            Value::Bulk(text) => Ok(text.clone()),
            _ => Err(RespError::InvalidCommand),
        }
    }

    /// Writes a simple string, an error or a bulk string as text.
    pub fn encode(self) -> (encoded: Result<String, RespError>)
        ensures
            match encoded {
                Ok(text) => spec_encode(self@) == Some(text@),
                Err(error) => error == RespError::UnsupportedEncoding && spec_encode(self@)
                    is None,
            },
    {
        proof {
            reveal_strlit("+");
            reveal_strlit("-");
            reveal_strlit("$");
            reveal_strlit("\r\n");
        }
        match &self {
            Value::String(s) => {
                let mut text = String::from_str("+");
                text.append(s.as_str());
                text.append("\r\n");
                assert(text@ =~= seq!['+'] + s@ + line_end());
                Ok(text)
            },
            Value::Error(msg) => {
                let mut text = String::from_str("-");
                text.append(msg.as_str());
                text.append("\r\n");
                assert(text@ =~= seq!['-'] + msg@ + line_end());
                Ok(text)
            },
            Value::Bulk(s) => {
                let length = decimal_string(s.as_str().unicode_len());
                let mut text = String::from_str("$");
                text.append(length.as_str());
                text.append("\r\n");
                text.append(s.as_str());
                text.append("\r\n");
                assert(text@ =~= seq!['$'] + decimal_digits(s@.len()) + line_end() + s@
                    + line_end());
                Ok(text)
            },
            Value::Array(_) => Err(RespError::UnsupportedEncoding),
        }
    }
}

} // verus!
