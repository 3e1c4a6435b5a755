//! A persistent sequence with constant-time append and concatenation.

use vstd::prelude::*;
use std::rc::Rc;

verus! {

/// A special data structure with a O(1) complexity for append and concat
/// operations. `append` puts the new item in front of the items already
/// there; `concat` puts the items of `self` before those of `other`.
pub enum Chunk<A> {
    Nil,
    Cons(A, Rc<Chunk<A>>),
    Concat(Rc<Chunk<A>>, Rc<Chunk<A>>),
}

impl<A> Chunk<A> {
    /// The items of the chunk, in the order `as_vec` hands them out.
    pub open spec fn items(self) -> Seq<A>
        decreases self,
    {
        match self {
            Chunk::Nil => Seq::empty(),
            Chunk::Cons(a, rest) => seq![a] + (*rest).items(),
            Chunk::Concat(a, b) => (*a).items() + (*b).items(),
        }
    }

    /// An empty chunk.
    pub fn new() -> (r: Self)
        ensures
            r.items() == Seq::<A>::empty(),
    {
        Chunk::Nil
    }

    /// The chunk with `a` put in front of its items.
    pub fn append(self, a: A) -> (r: Self)
        ensures
            r.items() == seq![a] + self.items(),
    {
        Chunk::Cons(a, Rc::new(self))
    }

    /// The items of `self` followed by the items of `other`.
    pub fn concat(self, other: Chunk<A>) -> (r: Self)
        ensures
            r.items() == self.items() + other.items(),
    {
        Chunk::Concat(Rc::new(self), Rc::new(other))
    }

    /// References to the items, in order.
    pub fn as_vec(&self) -> (r: Vec<&A>)
        ensures
            r@.len() == self.items().len(),
            forall|i: int| 0 <= i < r@.len() ==> *r@[i] == self.items()[i],
    {
        let mut vec = Vec::new();
        self.as_vec_mut(&mut vec);
        vec
    }

    /// Pushes references to the items onto `buf`, in order.
    pub fn as_vec_mut<'a>(&'a self, buf: &mut Vec<&'a A>)
        ensures
            final(buf)@.len() == old(buf)@.len() + self.items().len(),
            forall|i: int| 0 <= i < old(buf)@.len() ==> final(buf)@[i] == old(buf)@[i],
            forall|i: int|
                0 <= i < self.items().len() ==> *final(buf)@[old(buf)@.len() + i] == self.items()[i],
        decreases self,
    {
        match self {
            Chunk::Nil => {},
            Chunk::Cons(a, rest) => {
                let ghost b0 = buf@;
                buf.push(a);
                let ghost b1 = buf@;
                (**rest).as_vec_mut(buf);
                proof {
                    let s = self.items();
                    assert forall|i: int| 0 <= i < s.len() implies *buf@[b0.len() + i] == s[i] by {
                        if i == 0 {
                            assert(buf@[b0.len() as int] == b1[b0.len() as int]);
                        } else {
                            assert(s[i] == rc_items(rest)[i - 1]);
                            assert(buf@[b0.len() + i] == buf@[b1.len() + (i - 1)]);
                        }
                    }
                }
            },
            Chunk::Concat(a, b) => {
                let ghost b0 = buf@;
                (**a).as_vec_mut(buf);
                let ghost b1 = buf@;
                (**b).as_vec_mut(buf);
                let ghost sa = rc_items(a);
                proof {
                    let s = self.items();
                    assert forall|i: int| 0 <= i < s.len() implies *buf@[b0.len() + i] == s[i] by {
                        if i < sa.len() {
                            assert(buf@[b0.len() + i] == b1[b0.len() + i]);
                        } else {
                            assert(buf@[b0.len() + i] == buf@[b1.len() + (i - sa.len())]);
                        }
                    }
                }
            },
        }
    }

    /// A chunk made of the items of `vec`, in order.
    pub fn from_vec(vec: Vec<A>) -> (r: Chunk<A>)
        ensures
            r.items() == vec@,
    {
        let mut vec = vec;
        let mut path = Chunk::new();
        let ghost all = vec@;
        while vec.len() > 0
            invariant
                all == vec@ + path.items(),
            decreases vec@.len(),
        {
            let ghost before = vec@;
            let a = vec.pop().unwrap();
            path = Chunk::Cons(a, Rc::new(path));
            assert(before =~= vec@.push(a));
            assert(all =~= vec@ + path.items());
        }
        assert(all =~= path.items());
        path
    }
}

impl<A: Copy> Chunk<A> {
    /// A chunk with the same items, sharing the structure of `self`.
    pub fn duplicate(&self) -> (r: Chunk<A>)
        ensures
            r.items() == self.items(),
    {
        match self {
            Chunk::Nil => Chunk::Nil,
            Chunk::Cons(a, rest) => Chunk::Cons(*a, Rc::clone(rest)),
            Chunk::Concat(a, b) => Chunk::Concat(Rc::clone(a), Rc::clone(b)),
        }
    }
}

impl<A: Copy> Chunk<Chunk<A>> {
    /// A chunk of chunks with the same items, item by item, sharing the
    /// structure of `self`.
    pub fn duplicate_nested(&self) -> (r: Chunk<Chunk<A>>)
        ensures
            same_items(r, *self),
    {
        match self {
            Chunk::Nil => Chunk::Nil,
            Chunk::Cons(a, rest) => {
                let r = Chunk::Cons(a.duplicate(), Rc::clone(rest));
                proof {
                    let s = r.items();
                    let t = self.items();
                    assert forall|i: int| 0 <= i < s.len() implies #[trigger] s[i].items() == t[i].items() by {
                        if i > 0 {
                            assert(s[i] == t[i]);
                        }
                    }
                }
                r
            },
            Chunk::Concat(a, b) => Chunk::Concat(Rc::clone(a), Rc::clone(b)),
        }
    }
}

/// Two chunks of chunks whose items have the same items.
pub open spec fn same_items<A>(a: Chunk<Chunk<A>>, b: Chunk<Chunk<A>>) -> bool {
    &&& a.items().len() == b.items().len()
    &&& forall|i: int| 0 <= i < a.items().len() ==> #[trigger] a.items()[i].items() == b.items()[i].items()
}

/// The items of a shared chunk.
pub open spec fn rc_items<A>(r: &Rc<Chunk<A>>) -> Seq<A> {
    (**r).items()
}

/// Items come out in the order the operations put them in: appending puts an
/// item first, and concatenation keeps the items of both sides in order.
pub proof fn law_chunk_items<A>(c: Chunk<A>, d: Chunk<A>, a: A)
    ensures
        Chunk::<A>::Nil.items() == Seq::<A>::empty(),
        Chunk::Cons(a, Rc::new(c)).items() == seq![a] + c.items(),
        Chunk::Concat(Rc::new(c), Rc::new(d)).items() == c.items() + d.items(),
        Chunk::Concat(Rc::new(c), Rc::new(d)).items().len() == c.items().len() + d.items().len(),
{
}

} // verus!
