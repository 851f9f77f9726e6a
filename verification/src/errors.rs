//! The error that parsing can end in.
use vstd::prelude::*;
use crate::token::{Token, TokenView};

verus! {

/// A parse failure. There is one kind: a token stands where the grammar does
/// not allow it.
#[derive(Debug, PartialEq, Eq)]
pub enum Errors {
    /// The token that broke the expectation.
    TokenInvalid(Token),
}

impl Clone for Errors {
    fn clone(&self) -> (e: Errors)
        ensures
            e == *self,
    {
        match self {
            Errors::TokenInvalid(t) => Errors::TokenInvalid(t.clone()),
        }
    }
}

impl Errors {
    /// The view of the token that the error carries.
    pub open spec fn offender(self) -> TokenView {
        match self {
            Errors::TokenInvalid(t) => t@,
        }
    }
}

} // verus!
