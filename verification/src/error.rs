//! Errors of the simulator.
use vstd::prelude::*;
use vstd::string::StringExecFns;

verus! {

/// What went wrong, with a message.
#[derive(Debug)]
pub enum SimError {
    Parse(String),
    Circuit(String),
    Analysis(String),
    Algebra(String),
}

/// The error as data: its kind and its message.
pub enum SimErrorView {
    Parse(Seq<char>),
    Circuit(Seq<char>),
    Analysis(Seq<char>),
    Algebra(Seq<char>),
}

impl View for SimError {
    type V = SimErrorView;

    open spec fn view(&self) -> SimErrorView {
        match self {
            SimError::Parse(m) => SimErrorView::Parse(m@),
            SimError::Circuit(m) => SimErrorView::Circuit(m@),
            SimError::Analysis(m) => SimErrorView::Analysis(m@),
            SimError::Algebra(m) => SimErrorView::Algebra(m@),
        }
    }
}

/// The text the error is displayed as.
pub open spec fn error_text(e: SimErrorView) -> Seq<char> {
    match e {
        SimErrorView::Parse(m) => "netlist parse error: "@ + m,
        SimErrorView::Circuit(m) => "circuit error: "@ + m,
        SimErrorView::Analysis(m) => "analysis error: "@ + m,
        SimErrorView::Algebra(m) => "linear algebra error: "@ + m,
    }
}

impl SimError {
    /// The text the error is displayed as.
    pub fn message(&self) -> (s: String)
        ensures
            s@ == error_text(self@),
    {
        match self {
            SimError::Parse(m) => String::from_str("netlist parse error: ").concat(m.as_str()),
            SimError::Circuit(m) => String::from_str("circuit error: ").concat(m.as_str()),
            SimError::Analysis(m) => String::from_str("analysis error: ").concat(m.as_str()),
            SimError::Algebra(m) => String::from_str("linear algebra error: ").concat(m.as_str()),
        }
    }
}

} // verus!
