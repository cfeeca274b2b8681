//! Responses: the uniform result of executing a command, and its wire form.

use vstd::prelude::*;

verus! {

use crate::value::{Value, ValueView, val_text};
use vstd::string::StringExecFns;

/// The result of one command: success, a value read, or a user-facing error
/// message. Every fallible sub-step of a command yields an `Error` that is
/// surfaced verbatim to the client.
#[derive(Debug)]
pub enum Response {
    Success,
    Value(Value),
    Error(&'static str),
}

/// The mathematical content of a response.
pub ghost enum ResponseView {
    Success,
    Value(ValueView),
    Error(Seq<char>),
}

impl View for Response {
    type V = ResponseView;

    open spec fn view(&self) -> ResponseView {
        match self {
            Response::Success => ResponseView::Success,
            Response::Value(v) => ResponseView::Value(v@),
            Response::Error(m) => ResponseView::Error(m@),
        }
    }
}

/// The serialized response line, without its trailing newline: `success`,
/// `value ` and the value's textual form, or `error :` and the message.
pub open spec fn resp_text(r: ResponseView) -> Seq<char> {
    match r {
        ResponseView::Success => "success"@,
        ResponseView::Value(v) => "value "@ + val_text(v),
        ResponseView::Error(m) => "error :"@ + m,
    }
}

impl Response {
    /// Whether this response reports an error.
    pub fn is_err(&self) -> (r: bool)
        ensures
            r == (self@ is Error),
    {
        if let Response::Error(_) = self {
            true
        } else {
            false
        }
    }

    /// Serialize this response for the wire, without the trailing newline.
    pub fn to_text(&self) -> (r: String)
        ensures
            r@ == resp_text(self@),
    {
        match self {
            Response::Success => "success".to_owned(),
            Response::Value(v) => {
                let mut t = "value ".to_owned();
                t.append(v.to_text().as_str());
                t
            },
            Response::Error(m) => {
                let mut t = "error :".to_owned();
                t.append(m);
                t
            },
        }
    }
}

} // verus!
