//! Failures of a validation: each cause carries a message and the trace of
//! names under which it was found, outermost first.

use vstd::prelude::*;
use crate::strings::{concat_str, copy_str};

verus! {

/// One reason a validation failed.
#[derive(Clone, Debug, PartialEq, Eq)]
pub struct Cause {
    pub error: String,
    pub trace: Vec<String>,
}

impl Cause {
    /// A cause with no trace.
    pub fn new(error: String) -> (r: Cause)
        ensures
            r.error == error,
            r.trace@.len() == 0,
    {
        Cause { error, trace: Vec::new() }
    }

    /// The cause found under `t`: `t` goes in front of the trace.
    pub fn trace(self, t: &str) -> (r: Cause)
        ensures
            r.error == self.error,
            r.trace@.len() == self.trace@.len() + 1,
            r.trace@[0]@ == t@,
            forall|i: int| 0 <= i < self.trace@.len() ==> #[trigger] r.trace@[i + 1] == self.trace@[i],
    {
        let mut trace: Vec<String> = Vec::new();
        trace.push(copy_str(t));
        let mut rest = self.trace;
        trace.append(&mut rest);
        Cause { error: self.error, trace }
    }

    /// The cause as text: the trace in brackets, separated by commas, then
    /// the message.
    pub fn message(&self) -> (r: String)
        ensures
            r@ == "["@ + joined(self.trace@.map_values(|s: String| s@)) + "] "@ + self.error@,
    {
        let mut s = copy_str("[");
        let n = self.trace.len();
        let mut i: usize = 0;
        let ghost ts = self.trace@.map_values(|x: String| x@);
        assert(ts.take(0) =~= Seq::<Seq<char>>::empty());
        while i < n
            invariant
                n == self.trace@.len(),
                ts == self.trace@.map_values(|x: String| x@),
                i <= n,
                s@ == "["@ + joined(ts.take(i as int)),
            decreases n - i,
        {
            assert(ts.take(i + 1).drop_last() =~= ts.take(i as int));
            if i > 0 {
                s = concat_str(s.as_str(), ", ");
            }
            s = concat_str(s.as_str(), self.trace[i].as_str());
            proof {
                if i == 0 {
                    assert(ts.take(1) =~= seq![ts[0]]);
                }
            }
            i = i + 1;
        }
        assert(ts.take(n as int) =~= ts);
        s = concat_str(s.as_str(), "] ");
        concat_str(s.as_str(), self.error.as_str())
    }
}

/// Texts joined by `, `.
pub open spec fn joined(s: Seq<Seq<char>>) -> Seq<char>
    decreases s.len(),
{
    if s.len() == 0 {
        Seq::empty()
    } else if s.len() == 1 {
        s[0]
    } else {
        joined(s.drop_last()) + ", "@ + s.last()
    }
}

/// Every cause found under `t`.
pub fn trace_all(causes: Vec<Cause>, t: &str) -> (r: Vec<Cause>)
    ensures
        r@.len() == causes@.len(),
        forall|i: int| 0 <= i < r@.len() ==> (#[trigger] r@[i]).error == causes@[i].error
            && r@[i].trace@.len() == causes@[i].trace@.len() + 1 && r@[i].trace@[0]@ == t@,
{
    let mut r: Vec<Cause> = Vec::new();
    let mut rest = causes;
    let ghost all = rest@;
    let n = rest.len();
    let mut i: usize = 0;
    while i < n
        invariant
            n == all.len(),
            i <= n,
            rest@ == all.skip(i as int),
            r@.len() == i,
            forall|j: int| 0 <= j < i ==> (#[trigger] r@[j]).error == all[j].error
                && r@[j].trace@.len() == all[j].trace@.len() + 1 && r@[j].trace@[0]@ == t@,
        decreases n - i,
    {
        let c = rest.remove(0);
        assert(c == all[i as int]);
        r.push(c.trace(t));
        assert(rest@ =~= all.skip(i + 1));
        i = i + 1;
    }
    r
}

} // verus!
