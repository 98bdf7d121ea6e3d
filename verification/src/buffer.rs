//! Fixed-size buffer composition primitives.
//!
//! The enumeration engine builds its result buffers out of four
//! operations whose lengths are known before any element is written:
//! [`generate`] fills a buffer by calling a function of each linear
//! index, [`map_each`] transforms a buffer elementwise, [`concat`] lays
//! one buffer directly after another, and [`SlotBuffer`] builds a buffer
//! of write-once cells which [`SlotBuffer::reinterpret`] turns into a
//! buffer of plain values once every cell has been written.

use vstd::prelude::*;

verus! {

/// Produces a buffer of `length` elements where element `i` comes from
/// `f(i)`; `f` is called once per index, in increasing index order.
#[verifier::loop_isolation(false)]
pub fn generate<T>(length: usize, f: impl Fn(usize) -> T) -> (r: Vec<T>)
    requires
        forall|i: usize| i < length ==> call_requires(f, (i,)),
    ensures
        r@.len() == length,
        forall|i: int| 0 <= i < length ==> #[trigger] call_ensures(f, (i as usize, ), r@[i]),
{
    let mut r: Vec<T> = Vec::new();
    let mut i: usize = 0;
    while i < length
        invariant
            i <= length,
            r@.len() == i,
            forall|j: int| 0 <= j < i ==> #[trigger] call_ensures(f, (j as usize, ), r@[j]),
        decreases length - i,
    {
        let x = f(i);
        r.push(x);
        i += 1;
    }
    r
}

/// Produces a buffer of the same length where element `i` is
/// `f(src[i])`, preserving order and length exactly.
#[verifier::loop_isolation(false)]
pub fn map_each<T: Copy, U>(src: &Vec<T>, f: impl Fn(T) -> U) -> (r: Vec<U>)
    requires
        forall|i: int| 0 <= i < src@.len() ==> call_requires(f, (src@[i],)),
    ensures
        r@.len() == src@.len(),
        forall|i: int| 0 <= i < src@.len() ==> #[trigger] call_ensures(f, (src@[i],), r@[i]),
{
    let mut r: Vec<U> = Vec::new();
    let mut i: usize = 0;
    while i < src.len()
        invariant
            i <= src@.len(),
            r@.len() == i,
            forall|j: int| 0 <= j < i ==> #[trigger] call_ensures(f, (src@[j],), r@[j]),
        decreases src@.len() - i,
    {
        let x = f(src[i]);
        r.push(x);
        i += 1;
    }
    r
}

/// Produces the disjoint union of two buffers: the elements of `a` in
/// order, then the elements of `b` in order.
pub fn concat<T>(a: Vec<T>, b: Vec<T>) -> (r: Vec<T>)
    ensures
        r@ == a@ + b@,
{
    let mut r = a;
    let mut rest = b;
    r.append(&mut rest);
    r
}

/// As [`concat`], but copying out of borrowed buffers.
#[verifier::loop_isolation(false)]
pub fn concat_copy<T: Copy>(a: &Vec<T>, b: &Vec<T>) -> (r: Vec<T>)
    ensures
        r@ == a@ + b@,
{
    let mut r: Vec<T> = Vec::new();
    let mut i: usize = 0;
    while i < a.len()
        invariant
            i <= a@.len(),
            r@ == a@.take(i as int),
        decreases a@.len() - i,
    {
        r.push(a[i]);
        i += 1;
    }
    let mut j: usize = 0;
    while j < b.len()
        invariant
            j <= b@.len(),
            r@ == a@ + b@.take(j as int),
        decreases b@.len() - j,
    {
        proof {
            assert(a@ + b@.take(j as int + 1) =~= (a@ + b@.take(j as int)).push(b@[j as int]));
        }
        r.push(b[j]);
        j += 1;
    }
    proof {
        assert(a@.take(a@.len() as int) =~= a@);
        assert(b@.take(b@.len() as int) =~= b@);
    }
    r
}

/// A buffer of write-once cells with a length fixed at creation.
///
/// Its view is the sequence of cells, each `None` until written.  Once
/// every cell has been written, [`SlotBuffer::reinterpret`] turns the
/// buffer of cells into the buffer of the written values, in place of
/// the unchecked same-size reinterpretation that this construction
/// replaces.
pub struct SlotBuffer<T> {
    slots: Vec<Option<T>>,
}

impl<T> View for SlotBuffer<T> {
    type V = Seq<Option<T>>;

    closed spec fn view(&self) -> Seq<Option<T>> {
        self.slots@
    }
}

impl<T> SlotBuffer<T> {
    /// A buffer of `length` cells, none of them written yet.
    #[verifier::loop_isolation(false)]
    pub fn new(length: usize) -> (r: Self)
        ensures
            r@.len() == length,
            forall|i: int| 0 <= i < length ==> r@[i] is None,
    {
        let mut slots: Vec<Option<T>> = Vec::new();
        let mut i: usize = 0;
        while i < length
            invariant
                i <= length,
                slots@.len() == i,
                forall|j: int| 0 <= j < i ==> slots@[j] is None,
            decreases length - i,
        {
            slots.push(None);
            i += 1;
        }
        SlotBuffer { slots }
    }

    /// The number of cells.
    pub fn len(&self) -> (r: usize)
        ensures
            r == self@.len(),
    {
        self.slots.len()
    }

    /// Writes cell `i`, which must not have been written before.
    pub fn write(&mut self, i: usize, v: T)
        requires
            i < old(self)@.len(),
            old(self)@[i as int] is None,
        ensures
            final(self)@ == old(self)@.update(i as int, Some(v)),
    {
        self.slots.set(i, Some(v));
    }

    /// Whether every cell has been written.
    #[verifier::loop_isolation(false)]
    pub fn is_complete(&self) -> (r: bool)
        ensures
            r <==> (forall|i: int| 0 <= i < self@.len() ==> self@[i] is Some),
    {
        let mut i: usize = 0;
        while i < self.slots.len()
            invariant
                i <= self@.len(),
                forall|j: int| 0 <= j < i ==> self@[j] is Some,
            decreases self@.len() - i,
        {
            if self.slots[i].is_none() {
                return false;
            }
            i += 1;
        }
        true
    }

    /// Turns the fully written buffer of cells into the buffer of its
    /// values, same length, each value from its own cell.
    #[verifier::loop_isolation(false)]
    pub fn reinterpret(self) -> (r: Vec<T>)
        requires
            forall|i: int| 0 <= i < self@.len() ==> self@[i] is Some,
        ensures
            r@.len() == self@.len(),
            forall|i: int| 0 <= i < self@.len() ==> self@[i] == Some(r@[i]),
    {
        let ghost orig = self@;
        let mut slots = self.slots;
        proof {
            vstd::std_specs::vec::axiom_spec_len(&slots);
        }
        let mut r: Vec<T> = Vec::new();
        let mut i: usize = 0;
        while slots.len() > 0
            invariant
                orig.len() <= usize::MAX,
                i + slots@.len() == orig.len(),
                slots@ == orig.skip(i as int),
                r@.len() == i,
                forall|j: int| 0 <= j < i ==> orig[j] == Some(r@[j]),
            decreases slots@.len(),
        {
            let cell = slots.remove(0);
            proof {
                assert(orig.skip(i as int)[0] == orig[i as int]);
                assert(orig.skip(i as int).skip(1) =~= orig.skip(i as int + 1));
            }
            match cell {
                Some(v) => {
                    r.push(v);
                },
                None => {
                    proof {
                        assert(false);
                    }
                },
            }
            i += 1;
        }
        r
    }
}

} // verus!
