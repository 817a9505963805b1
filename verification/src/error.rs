//! Query errors, surfaced with the stage that produced them.

use vstd::prelude::*;
use crate::text::push_str;

verus! {

#[derive(Debug, Clone, PartialEq, Eq)]
pub enum QueryError {
    Lex(String),
    Parse(String),
    /// A construct that parses but the engine does not yet support.
    Unsupported(String),
    Eval(String),
}

/// A query error as a mathematical value.
pub ghost enum QErr {
    Lex(Seq<char>),
    Parse(Seq<char>),
    Unsupported(Seq<char>),
    Eval(Seq<char>),
}

impl View for QueryError {
    type V = QErr;

    open spec fn view(&self) -> QErr {
        match self {
            QueryError::Lex(m) => QErr::Lex(m@),
            QueryError::Parse(m) => QErr::Parse(m@),
            QueryError::Unsupported(m) => QErr::Unsupported(m@),
            QueryError::Eval(m) => QErr::Eval(m@),
        }
    }
}

/// The text an error is shown as: its stage, then its message.
pub open spec fn spec_message(e: QErr) -> Seq<char> {
    match e {
        QErr::Lex(m) => "lex error: "@ + m,
        QErr::Parse(m) => "parse error: "@ + m,
        QErr::Unsupported(m) => "unsupported: "@ + m,
        QErr::Eval(m) => "evaluation error: "@ + m,
    }
}

impl QueryError {
    /// A range vector met where an instant value is needed.
    pub fn range_outside_function() -> (e: QueryError)
        ensures
            e@ == QErr::Eval("range vector evaluated outside a function"@),
    {
        QueryError::Eval("range vector evaluated outside a function".to_owned())
    }

    /// A scalar met where an aggregation needs a vector.
    pub fn expected_vector() -> (e: QueryError)
        ensures
            e@ == QErr::Eval("expected a vector"@),
    {
        QueryError::Eval("expected a vector".to_owned())
    }

    /// A binary operation between two vectors, which the engine does not do.
    pub fn vector_operands() -> (e: QueryError)
        ensures
            e@ == QErr::Unsupported("binary operations between two vectors"@),
    {
        QueryError::Unsupported("binary operations between two vectors".to_owned())
    }

    /// A range function `name` applied to something other than a range
    /// vector.
    pub fn range_argument_expected(name: &str) -> (e: QueryError)
        ensures
            e@ == QErr::Eval(name@ + " expects a range vector argument"@),
    {
        let mut m = name.to_owned();
        push_str(&mut m, " expects a range vector argument");
        QueryError::Eval(m)
    }

    /// The text the error is shown as: its stage, then its message.
    pub fn message(&self) -> (s: String)
        ensures
            s@ == spec_message(self@),
    {
        match self {
            QueryError::Lex(m) => {
                let mut s = "lex error: ".to_owned();
                push_str(&mut s, m.as_str());
                s
            },
            QueryError::Parse(m) => {
                let mut s = "parse error: ".to_owned();
                push_str(&mut s, m.as_str());
                s
            },
            QueryError::Unsupported(m) => {
                let mut s = "unsupported: ".to_owned();
                push_str(&mut s, m.as_str());
                s
            },
            QueryError::Eval(m) => {
                let mut s = "evaluation error: ".to_owned();
                push_str(&mut s, m.as_str());
                s
            },
        }
    }
}

} // verus!
