//! The errors of the checker.

use crate::rules::ErrorModel;
use vstd::prelude::*;

verus! {

/// Why a program cannot be checked.
#[derive(Debug, Clone, PartialEq, Eq)]
pub enum CheckError {
    /// A name is neither a parameter in scope nor a declared struct.
    UndefinedSymbol { name: String },
    /// A struct is applied to a number of arguments other than it declares.
    Arity { name: String, expected: usize, found: usize },
    /// A trait whose supertraits are needed has no declaration.
    UndeclaredTrait { name: String },
    /// A chain of supertraits is longer than the number of trait declarations,
    /// so one trait is reached from itself.
    CyclicSupertraits { name: String },
}

impl View for CheckError {
    type V = ErrorModel;

    open spec fn view(&self) -> ErrorModel {
        match self {
            CheckError::UndefinedSymbol { name } => ErrorModel::UndefinedSymbol { name: name@ },
            CheckError::Arity { name, expected, found } => ErrorModel::Arity {
                name: name@,
                expected: *expected as nat,
                found: *found as nat,
            },
            CheckError::UndeclaredTrait { name } => ErrorModel::UndeclaredTrait { name: name@ },
            CheckError::CyclicSupertraits { name } => ErrorModel::CyclicSupertraits {
                name: name@,
            },
        }
    }
}

/// Model of the failure of a run: the error, and the positions of the two
/// impls whose check met it, among the impls in declaration order.
pub ghost struct PairErrorModel {
    pub first: nat,
    pub second: nat,
    pub error: ErrorModel,
}

/// The failure of a run: the error, and the positions of the two impls whose
/// check met it, among the impls in declaration order.
#[derive(Debug, Clone, PartialEq, Eq)]
pub struct PairError {
    pub first: usize,
    pub second: usize,
    pub error: CheckError,
}

impl View for PairError {
    type V = PairErrorModel;

    open spec fn view(&self) -> PairErrorModel {
        PairErrorModel {
            first: self.first as nat,
            second: self.second as nat,
            error: self.error@,
        }
    }
}

} // verus!
