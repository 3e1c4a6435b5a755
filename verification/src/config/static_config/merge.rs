//! Merging two settings where the right-hand one wins.

use vstd::prelude::*;
use crate::strset::StrSet;

verus! {

/// The merge of two optional settings whose values do not merge further:
/// the right-hand one when it is set.
pub open spec fn merged<T>(left: Option<T>, right: Option<T>) -> Option<T> {
    if right is Some {
        right
    } else {
        left
    }
}

/// Merges two optional settings whose values do not merge further.
pub fn merge_option<T>(left: Option<T>, right: Option<T>) -> (r: Option<T>)
    ensures
        r == merged(left, right),
{
    match right {
        Some(v) => Some(v),
        None => left,
    }
}

/// Two optional sets merge into their union when both are set.
pub open spec fn sets_merged(left: Option<StrSet>, right: Option<StrSet>, r: Option<StrSet>) -> bool {
    match (left, right) {
        (None, None) => r is None,
        (Some(a), None) => r == Some(a),
        (None, Some(b)) => r == Some(b),
        (Some(a), Some(b)) => r matches Some(c) && c.wf() && c.as_set() == a.as_set().union(b.as_set()),
    }
}

/// An optional set holds sorted items.
pub open spec fn set_wf(s: Option<StrSet>) -> bool {
    s matches Some(x) ==> x.wf()
}

/// Merges two optional sets: their union when both are set.
pub fn merge_sets(left: Option<StrSet>, right: Option<StrSet>) -> (r: Option<StrSet>)
    requires
        set_wf(left),
        set_wf(right),
    ensures
        sets_merged(left, right, r),
        set_wf(r),
{
    match (left, right) {
        (Some(mut a), Some(b)) => {
            a.extend(&b);
            Some(a)
        },
        (Some(a), None) => Some(a),
        (None, b) => b,
    }
}

/// Appends the right-hand list to the left-hand one.
pub fn merge_vec<T>(left: Vec<T>, right: Vec<T>) -> (r: Vec<T>)
    ensures
        r@ == left@ + right@,
{
    let mut l = left;
    let mut rv = right;
    l.append(&mut rv);
    l
}

/// A copy of a list of strings.
pub fn copy_strings(v: &Vec<String>) -> (r: Vec<String>)
    ensures
        r@ == v@,
{
    let mut r: Vec<String> = Vec::new();
    let n = v.len();
    let mut i: usize = 0;
    while i < n
        invariant
            n == v@.len(),
            i <= n,
            r@ == v@.take(i as int),
        decreases n - i,
    {
        r.push(v[i].clone());
        assert(r@ =~= v@.take(i + 1));
        i = i + 1;
    }
    assert(v@.take(n as int) =~= v@);
    r
}

} // verus!
