//! The faults that registration, module selection and resolution report.

use vstd::prelude::*;
use vstd::string::*;

verus! {

/// What a [`Fault`] stands for in contracts.
pub enum FaultView {
    DuplicateBinding { name: Seq<char> },
    CycleDetected { path: Seq<char> },
    UnboundDependency { name: Seq<char>, required_by: Seq<char> },
    UnknownModule { name: Seq<char> },
}

/// Why a registration, a module selection or a resolution was abandoned.
#[derive(Debug)]
pub enum Fault {
    /// A type was bound twice in the primary bindings of one registry.
    DuplicateBinding { name: String },
    /// A type was requested while it was being resolved; `path` lists the
    /// types under resolution, outermost first, and ends with the repeated one.
    CycleDetected { path: String },
    /// `required_by` depends on `name`, which has no binding. Where a call
    /// asked for `name` and no binding did, `required_by` is empty.
    UnboundDependency { name: String, required_by: String },
    /// No module is registered under `name`.
    UnknownModule { name: String },
}

impl View for Fault {
    type V = FaultView;

    open spec fn view(&self) -> FaultView {
        match self {
            Fault::DuplicateBinding { name } => FaultView::DuplicateBinding { name: name@ },
            Fault::CycleDetected { path } => FaultView::CycleDetected { path: path@ },
            Fault::UnboundDependency { name, required_by } => FaultView::UnboundDependency {
                name: name@,
                required_by: required_by@,
            },
            Fault::UnknownModule { name } => FaultView::UnknownModule { name: name@ },
        }
    }
}

impl FaultView {
    /// The diagnostic text of the fault.
    pub open spec fn message(self) -> Seq<char> {
        match self {
            FaultView::DuplicateBinding { name } => "duplicated binding "@ + name,
            FaultView::CycleDetected { path } => "loop detected. path = "@ + path,
            FaultView::UnboundDependency { name, required_by } => if required_by.len() == 0 {
                "type "@ + name + " not binded"@
            } else {
                "type "@ + name + " not binded, required by "@ + required_by
            },
            FaultView::UnknownModule { name } => "module "@ + name + " not exists"@,
        }
    }
}

impl Clone for Fault {
    fn clone(&self) -> (copy: Self)
        ensures
            copy@ == self@,
    {
        match self {
            Fault::DuplicateBinding { name } => Fault::DuplicateBinding { name: name.clone() },
            Fault::CycleDetected { path } => Fault::CycleDetected { path: path.clone() },
            Fault::UnboundDependency { name, required_by } => Fault::UnboundDependency {
                name: name.clone(),
                required_by: required_by.clone(),
            },
            Fault::UnknownModule { name } => Fault::UnknownModule { name: name.clone() },
        }
    }
}

impl Fault {
    /// The diagnostic text of the fault, naming the types or the module
    /// involved.
    pub fn message(&self) -> (text: String)
        ensures
            text@ == self@.message(),
    {
        match self {
            Fault::DuplicateBinding { name } => {
                "duplicated binding ".to_owned().concat(name.as_str())
            },
            Fault::CycleDetected { path } => {
                "loop detected. path = ".to_owned().concat(path.as_str())
            },
            Fault::UnboundDependency { name, required_by } => {
                let text = "type ".to_owned().concat(name.as_str());
                if required_by.as_str().unicode_len() == 0 {
                    text.concat(" not binded")
                } else {
                    text.concat(" not binded, required by ").concat(required_by.as_str())
                }
            },
            Fault::UnknownModule { name } => {
                "module ".to_owned().concat(name.as_str()).concat(" not exists")
            },
        }
    }
}

} // verus!
