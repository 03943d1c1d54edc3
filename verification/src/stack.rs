//! An ordered stack of cards, bottom first.
//!
//! The backing store is arrayvec's `ArrayVec`, a vector of fixed capacity
//! that lives inline rather than on the heap; a stack never holds more than
//! the 52 cards of the deck. Verus sees the contents only through
//! `stack_seq`, and the five primitive operations below carry the contracts
//! that arrayvec's source shows; every other operation is built on them and
//! verified.
use vstd::prelude::*;
use arrayvec::ArrayVec;
use crate::card::{IsCard, idx_of, upturn_of};

verus! {

#[verifier::external_body]
pub struct CardStack {
    cards: ArrayVec<u8, 52>,
}

/// What a stack holds, bottom first. The name gets its meaning solely from
/// the contracts of the trusted primitives below.
pub uninterp spec fn stack_seq(s: CardStack) -> Seq<u8>;

impl View for CardStack {
    type V = Seq<u8>;

    open spec fn view(&self) -> Seq<u8> {
        stack_seq(*self)
    }
}

/// The score a stack is ordered by when tableaus are put in canonical
/// order: the index of its bottom card (the orientation bit stripped), or
/// 255 for an empty stack.
pub open spec fn score_spec(s: Seq<u8>) -> u8 {
    if s.len() == 0 {
        255u8
    } else {
        idx_of(s[0])
    }
}

impl CardStack {
    /// Relies on `ArrayVec::new`: a fresh vector is empty.
    #[verifier::external_body]
    pub fn new() -> (s: Self)
        ensures
            stack_seq(s) == Seq::<u8>::empty(),
    {
        CardStack { cards: ArrayVec::new() }
    }

    /// Relies on `ArrayVec::len`: the number of elements held, which never
    /// exceeds the capacity of 52.
    #[verifier::external_body]
    pub fn len(&self) -> (n: usize)
        ensures
            n == stack_seq(*self).len(),
            n <= 52,
    {
        self.cards.len()
    }

    /// Relies on indexing through `ArrayVec`'s deref to a slice: the
    /// element at `i`, which panics when `i` is out of bounds, so that
    /// input is left out.
    #[verifier::external_body]
    pub fn at(&self, i: usize) -> (c: u8)
        requires
            i < stack_seq(*self).len(),
        ensures
            c == stack_seq(*self)[i as int],
    {
        self.cards[i]
    }

    /// Relies on `ArrayVec::push`: appends one element. It panics when the
    /// vector is full, so a full stack is left out.
    #[verifier::external_body]
    pub fn push(&mut self, c: u8)
        requires
            stack_seq(*old(self)).len() < 52,
        ensures
            stack_seq(*final(self)) == stack_seq(*old(self)).push(c),
    {
        self.cards.push(c);
    }

    /// Relies on `ArrayVec::truncate`: keeps the first `n` elements.
    #[verifier::external_body]
    pub fn truncate(&mut self, n: usize)
        requires
            n <= stack_seq(*old(self)).len(),
        ensures
            stack_seq(*final(self)) == stack_seq(*old(self)).take(n as int),
    {
        self.cards.truncate(n);
    }

    /// Relies on `ArrayVec`'s `Clone`: the copy holds the same elements.
    #[verifier::external_body]
    pub fn duplicate(&self) -> (r: Self)
        ensures
            stack_seq(r) == stack_seq(*self),
    {
        CardStack { cards: self.cards.clone() }
    }

    pub fn is_empty(&self) -> (r: bool)
        ensures
            r == (self@.len() == 0),
    {
        self.len() == 0
    }

    pub fn last(&self) -> (r: Option<u8>)
        ensures
            match r {
                Some(c) => self@.len() > 0 && c == self@.last(),
                None => self@.len() == 0,
            },
    {
        let n = self.len();
        if n == 0 {
            None
        } else {
            Some(self.at(n - 1))
        }
    }

    pub fn pop(&mut self) -> (c: u8)
        requires
            old(self)@.len() > 0,
        ensures
            c == old(self)@.last(),
            final(self)@ == old(self)@.drop_last(),
    {
        let n = self.len();
        let c = self.at(n - 1);
        self.truncate(n - 1);
        c
    }

    /// The bottom card's index, or 255 when the stack is empty.
    pub fn score(&self) -> (r: u8)
        ensures
            r == score_spec(self@),
    {
        if self.is_empty() {
            u8::MAX
        } else {
            self.at(0).index()
        }
    }

    /// Turn the top card face up, if there is one.
    pub fn flip_face_up(&mut self)
        ensures
            old(self)@.len() == 0 ==> final(self)@ == old(self)@,
            old(self)@.len() > 0 ==> final(self)@ == old(self)@.update(
                old(self)@.len() - 1,
                upturn_of(old(self)@.last()),
            ),
    {
        let n = self.len();
        if n != 0 {
            let c = self.at(n - 1);
            self.truncate(n - 1);
            self.push(c.face_up());
            proof {
                assert(self@ =~= old(self)@.update(
                    old(self)@.len() - 1,
                    upturn_of(old(self)@.last()),
                ));
            }
        }
    }

    /// The contents as a plain vector, bottom first.
    pub fn to_vec(&self) -> (r: Vec<u8>)
        ensures
            r@ == self@,
    {
        let n = self.len();
        let mut r: Vec<u8> = Vec::new();
        let mut i: usize = 0;
        while i < n
            invariant
                n == self@.len(),
                i <= n,
                r@ == self@.take(i as int),
            decreases n - i,
        {
            r.push(self.at(i));
            proof {
                assert(self@.take(i + 1) =~= self@.take(i as int).push(self@[i as int]));
            }
            i += 1;
        }
        proof {
            assert(self@.take(n as int) =~= self@);
        }
        r
    }

    /// A stack with the same cards in opposite order.
    pub fn reversed(&self) -> (r: Self)
        ensures
            r@ == self@.reverse(),
    {
        let n = self.len();
        let mut r = CardStack::new();
        let mut i: usize = 0;
        while i < n
            invariant
                n == self@.len() && n <= 52,
                i <= n,
                r@.len() == i,
                forall|j: int| 0 <= j < i ==> r@[j] == self@[n - 1 - j],
            decreases n - i,
        {
            r.push(self.at(n - 1 - i));
            i += 1;
        }
        proof {
            assert(r@ =~= self@.reverse());
        }
        r
    }
}

} // verus!
