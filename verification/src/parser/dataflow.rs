//! Raw intra-function data flows extracted from source.

use vstd::prelude::*;

verus! {

/// A raw data flow extracted from source code within a single function.
#[derive(Debug)]
pub struct RawFlow {
    /// The source expression text (e.g., variable name, parameter)
    pub source_expr: String,
    /// The sink expression text (e.g., function argument, assigned target)
    pub sink_expr: String,
    /// The kind of data flow
    pub flow_kind: FlowKind,
    /// Name of the enclosing function/method
    pub enclosing_function: Option<String>,
    /// Parent class/module of the enclosing function
    pub enclosing_parent: Option<String>,
    /// Start line (1-based) of the enclosing function (used for disambiguation)
    pub enclosing_start_line: usize,
    /// Line of the source expression (1-based)
    pub source_line: usize,
    /// Line of the sink expression (1-based)
    pub sink_line: usize,
}

/// Mathematical view of a [`RawFlow`].
pub struct RawFlowV {
    pub source_expr: Seq<char>,
    pub sink_expr: Seq<char>,
    pub flow_kind: FlowKind,
    pub enclosing_function: Option<Seq<char>>,
    pub enclosing_parent: Option<Seq<char>>,
    pub enclosing_start_line: usize,
    pub source_line: usize,
    pub sink_line: usize,
}

impl View for RawFlow {
    type V = RawFlowV;

    open spec fn view(&self) -> RawFlowV {
        RawFlowV {
            source_expr: self.source_expr@,
            sink_expr: self.sink_expr@,
            flow_kind: self.flow_kind,
            enclosing_function: self.enclosing_function.deep_view(),
            enclosing_parent: self.enclosing_parent.deep_view(),
            enclosing_start_line: self.enclosing_start_line,
            source_line: self.source_line,
            sink_line: self.sink_line,
        }
    }
}

impl DeepView for RawFlow {
    type V = RawFlowV;

    open spec fn deep_view(&self) -> RawFlowV {
        self@
    }
}

/// The kind of a data flow.
#[derive(Debug, Clone, Copy, PartialEq, Eq, Structural)]
pub enum FlowKind {
    /// x = expr
    Assignment,
    /// foo(x)
    Argument,
    /// `...${x}...` or "...#{x}..."
    StringInterp,
    /// return x
    Return,
    /// a.b.c
    FieldAccess,
}

/// Display name of a flow kind.
pub open spec fn flow_kind_name(k: FlowKind) -> Seq<char> {
    match k {
        FlowKind::Assignment => "Assignment"@,
        FlowKind::Argument => "Argument"@,
        FlowKind::StringInterp => "StringInterp"@,
        FlowKind::Return => "Return"@,
        FlowKind::FieldAccess => "FieldAccess"@,
    }
}

impl FlowKind {
    /// Display name of the flow kind (as stored in the index).
    pub fn as_str(&self) -> (s: &'static str)
        ensures
            s@ == flow_kind_name(*self),
    {
        match self {
            FlowKind::Assignment => "Assignment",
            FlowKind::Argument => "Argument",
            FlowKind::StringInterp => "StringInterp",
            FlowKind::Return => "Return",
            FlowKind::FieldAccess => "FieldAccess",
        }
    }
}

} // verus!
