//! Raw call sites extracted from source.

use vstd::prelude::*;
use crate::text::owned;

verus! {

/// A raw function/method call extracted from source code.
#[derive(Debug)]
pub struct RawCall {
    /// Name of the function/method being called
    pub callee_name: String,
    /// The receiver expression if it's a method call (e.g., "userService" in userService.find())
    pub receiver: Option<String>,
    /// Name of the enclosing function/method that contains this call
    pub caller_name: Option<String>,
    /// Parent class/module of the caller (if any)
    pub caller_parent: Option<String>,
    pub line: usize,
}

/// Mathematical view of a [`RawCall`].
pub struct RawCallV {
    pub callee_name: Seq<char>,
    pub receiver: Option<Seq<char>>,
    pub caller_name: Option<Seq<char>>,
    pub caller_parent: Option<Seq<char>>,
    pub line: usize,
}

impl View for RawCall {
    type V = RawCallV;

    open spec fn view(&self) -> RawCallV {
        RawCallV {
            callee_name: self.callee_name@,
            receiver: self.receiver.deep_view(),
            caller_name: self.caller_name.deep_view(),
            caller_parent: self.caller_parent.deep_view(),
            line: self.line,
        }
    }
}

impl DeepView for RawCall {
    type V = RawCallV;

    open spec fn deep_view(&self) -> RawCallV {
        self@
    }
}

impl RawCall {
    /// Builds a call record.
    pub fn new(
        callee_name: &str,
        receiver: Option<&str>,
        caller_name: Option<&str>,
        caller_parent: Option<&str>,
        line: usize,
    ) -> (r: RawCall)
        ensures
            r.callee_name@ == callee_name@,
            r.receiver.deep_view() == receiver.deep_view(),
            r.caller_name.deep_view() == caller_name.deep_view(),
            r.caller_parent.deep_view() == caller_parent.deep_view(),
            r.line == line,
    {
        RawCall {
            callee_name: owned(callee_name),
            receiver: match receiver {
                Some(s) => Some(owned(s)),
                None => None,
            },
            caller_name: match caller_name {
                Some(s) => Some(owned(s)),
                None => None,
            },
            caller_parent: match caller_parent {
                Some(s) => Some(owned(s)),
                None => None,
            },
            line,
        }
    }
}

} // verus!
