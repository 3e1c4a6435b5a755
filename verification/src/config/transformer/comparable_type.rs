//! Whether two types can be compared when merging similar types: input
//! types with input types, unions with unions, objects with objects.

use vstd::prelude::*;
use crate::strset::StrSet;

verus! {

/// The input types and the union types of a configuration.
pub struct ComparableTypes {
    input_types: StrSet,
    union_types: StrSet,
}

impl ComparableTypes {
    /// The names of the input types.
    pub closed spec fn inputs(self) -> Set<Seq<char>> {
        self.input_types.as_set()
    }

    /// The names of the union types.
    pub closed spec fn unions(self) -> Set<Seq<char>> {
        self.union_types.as_set()
    }

    pub fn new(input_types: StrSet, union_types: StrSet) -> (r: ComparableTypes)
        ensures
            r.inputs() == input_types.as_set(),
            r.unions() == union_types.as_set(),
    {
        ComparableTypes { input_types, union_types }
    }

    /// Whether the type is neither an input type nor a union.
    pub fn is_object_type(&self, ty: &str) -> (r: bool)
        ensures
            r == (!self.inputs().contains(ty@) && !self.unions().contains(ty@)),
    {
        !self.is_input_type(ty) && !self.is_union_type(ty)
    }

    /// Whether the type is an input type.
    pub fn is_input_type(&self, ty: &str) -> (r: bool)
        ensures
            r == self.inputs().contains(ty@),
    {
        self.input_types.contains(ty)
    }

    /// Whether the type is a union.
    pub fn is_union_type(&self, ty: &str) -> (r: bool)
        ensures
            r == self.unions().contains(ty@),
    {
        self.union_types.contains(ty)
    }

    /// Whether both types are input types.
    pub fn are_input_type(&self, ty1: &str, ty2: &str) -> (r: bool)
        ensures
            r == (self.inputs().contains(ty1@) && self.inputs().contains(ty2@)),
    {
        self.is_input_type(ty1) && self.is_input_type(ty2)
    }

    /// Whether both types are unions.
    pub fn are_union_type(&self, ty1: &str, ty2: &str) -> (r: bool)
        ensures
            r == (self.unions().contains(ty1@) && self.unions().contains(ty2@)),
    {
        self.is_union_type(ty1) && self.is_union_type(ty2)
    }

    /// Both types are input types, both are unions, or both are objects.
    pub open spec fn comparable_spec(self, a: Seq<char>, b: Seq<char>) -> bool {
        ||| (self.inputs().contains(a) && self.inputs().contains(b))
        ||| (self.unions().contains(a) && self.unions().contains(b))
        ||| (!self.inputs().contains(a) && !self.unions().contains(a) && !self.inputs().contains(b)
            && !self.unions().contains(b))
    }

    /// Whether the two types can be compared: both input types, both
    /// unions, or both object types.
    pub fn comparable(&self, ty1: &str, ty2: &str) -> (r: bool)
        ensures
            r == self.comparable_spec(ty1@, ty2@),
    {
        if self.are_input_type(ty1, ty2) || self.are_union_type(ty1, ty2) {
            true
        } else {
            self.is_object_type(ty1) && self.is_object_type(ty2)
        }
    }

    /// Whether the two types must have the same fields to be merged: both
    /// input types or both unions.
    pub fn exact_match_required(&self, ty1: &str, ty2: &str) -> (r: bool)
        ensures
            r == ((self.inputs().contains(ty1@) && self.inputs().contains(ty2@))
                || (self.unions().contains(ty1@) && self.unions().contains(ty2@))),
    {
        self.are_input_type(ty1, ty2) || self.are_union_type(ty1, ty2)
    }
}

/// Comparability does not depend on the order of the two types.
pub proof fn law_comparable_symmetric(c: ComparableTypes, a: Seq<char>, b: Seq<char>)
    ensures
        c.comparable_spec(a, b) == c.comparable_spec(b, a),
{
}

/// Every type can be compared with itself.
pub proof fn law_comparable_reflexive(c: ComparableTypes, a: Seq<char>)
    ensures
        c.comparable_spec(a, a),
{
}

} // verus!
