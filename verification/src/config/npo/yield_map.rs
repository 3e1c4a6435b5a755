//! The map from each type to the fields that lead on from it, with the type
//! the query paths start from.

use vstd::prelude::*;
use crate::config::npo::identifier::{FieldName, TypeName};

verus! {

/// The map from each type to the fields, with the types they return, that
/// lead on from it.
pub struct YieldInner<'a>(pub Vec<(TypeName<'a>, Vec<(FieldName<'a>, TypeName<'a>)>)>);

impl<'a> YieldInner<'a> {
    /// The map, together with the type the query paths start from.
    pub fn into_yield(self, root: &'a str) -> (r: Yield<'a>)
        ensures
            r.map@ == self.0@,
            r.root == root,
    {
        Yield { map: self.0, root }
    }
}

/// A map from each type to the fields that lead on from it, and the type the
/// query paths start from.
pub struct Yield<'a> {
    pub map: Vec<(TypeName<'a>, Vec<(FieldName<'a>, TypeName<'a>)>)>,
    pub root: &'a str,
}

} // verus!
