//! Copy-on-write, reference-counted windows into a shared element buffer.
use std::rc::Rc;
use vstd::prelude::*;

verus! {

/// Values that can be duplicated into an indistinguishable copy.
///
/// Storage copies elements only when a shared buffer is about to be written.
pub trait Dup: Sized {
    fn dup(&self) -> (r: Self)
        ensures
            r == *self,
    ;
}

impl Dup for usize {
    fn dup(&self) -> (r: usize) {
        *self
    }
}

/// A second handle on the allocation behind `rc`.
///
/// Calls `Rc::clone`, which bumps the strong count and copies nothing; the new
/// handle points at the same allocation, so it dereferences to the same value.
#[verifier::external_body]
fn rc_share<T>(rc: &Rc<Vec<T>>) -> (r: Rc<Vec<T>>)
    ensures
        r == *rc,
{
    Rc::clone(rc)
}

/// Whether two handles point at one allocation.
///
/// Calls `Rc::ptr_eq`; handles on one allocation dereference to one value.
#[verifier::external_body]
fn rc_same<T>(a: &Rc<Vec<T>>, b: &Rc<Vec<T>>) -> (r: bool)
    ensures
        r ==> *a == *b,
{
    Rc::ptr_eq(a, b)
}

/// A window `[start, start + len)` into a reference-counted buffer.
#[derive(Debug)]
pub struct CowSlice<T> {
    buf: Rc<Vec<T>>,
    start: usize,
    len: usize,
}

impl<T> View for CowSlice<T> {
    type V = Seq<T>;

    closed spec fn view(&self) -> Seq<T> {
        self.buf@.subrange(self.start as int, self.start + self.len)
    }
}

impl<T> CowSlice<T> {
    /// The window lies inside the buffer. Every slice that code can hold
    /// satisfies this.
    #[verifier::type_invariant]
    pub closed spec fn wf(self) -> bool {
        self.start + self.len <= self.buf@.len() <= usize::MAX
    }

    /// Every element is a structural part of the slice that shows it, so
    /// definitions may recurse from a slice into its elements.
    pub proof fn lemma_elem_smaller(self, i: int)
        requires
            self.wf(),
            0 <= i < self@.len(),
        ensures
            decreases_to!(self => self@[i]),
    {
        assert(self@[i] == self.buf@[self.start + i]);
    }

    /// The whole backing buffer, of which this slice shows a window.
    pub closed spec fn buffer(self) -> Seq<T> {
        self.buf@
    }

    /// Where the window starts in the backing buffer.
    pub closed spec fn offset(self) -> nat {
        self.start as nat
    }

    /// Takes ownership of `v` as a fresh, unshared buffer.
    pub fn new(v: Vec<T>) -> (r: Self)
        ensures
            r@ == v@,
            r.offset() == 0,
            r.buffer() == v@,
    {
        let len = v.len();
        let r = CowSlice { buf: Rc::new(v), start: 0, len };
        assert(r@ =~= v@);
        r
    }

    pub fn len(&self) -> (n: usize)
        ensures
            n == self@.len(),
    {
        proof {
            use_type_invariant(self);
        }
        self.len
    }

    pub fn get(&self, i: usize) -> (r: &T)
        requires
            i < self@.len(),
        ensures
            *r == self@[i as int],
    {
        proof {
            use_type_invariant(self);
        }
        &self.buf[self.start + i]
    }

    /// Another handle on the same elements. No element is copied.
    pub fn share(&self) -> (r: Self)
        ensures
            r == *self,
    {
        proof {
            use_type_invariant(self);
        }
        CowSlice { buf: rc_share(&self.buf), start: self.start, len: self.len }
    }

    /// The sub-window `[from, to)` of this slice, sharing its buffer.
    pub fn slice(&self, from: usize, to: usize) -> (r: Self)
        requires
            from <= to <= self@.len(),
        ensures
            r@ == self@.subrange(from as int, to as int),
            r.buffer() == self.buffer(),
            r.offset() == self.offset() + from,
    {
        proof {
            use_type_invariant(self);
        }
        let r = CowSlice { buf: rc_share(&self.buf), start: self.start + from, len: to - from };
        assert(r@ =~= self@.subrange(from as int, to as int));
        r
    }

    /// True only if both slices are windows into one allocation.
    pub fn same_buffer(&self, other: &Self) -> (r: bool)
        ensures
            r ==> self.buffer() == other.buffer(),
    {
        rc_same(&self.buf, &other.buf)
    }
}

impl<T: Dup> CowSlice<T> {
    /// A fresh vector holding copies of the elements in the window.
    pub fn to_vec(&self) -> (v: Vec<T>)
        ensures
            v@ == self@,
    {
        proof {
            use_type_invariant(self);
        }
        let mut v: Vec<T> = Vec::new();
        let mut i: usize = 0;
        while i < self.len
            invariant
                i <= self.len,
                self.start + self.len <= self.buf@.len() <= usize::MAX,
                v@ == self@.subrange(0, i as int),
            decreases self.len - i,
        {
            v.push(self.buf[self.start + i].dup());
            i += 1;
        }
        assert(v@ =~= self@);
        v
    }

    /// Gives up this handle and returns the window as a vector that nobody
    /// else holds: the buffer itself when this was its only handle and the
    /// window covers it, a copy of the window otherwise.
    pub fn into_vec(self) -> (v: Vec<T>)
        ensures
            v@ == self@,
    {
        proof {
            use_type_invariant(&self);
        }
        let start = self.start;
        let len = self.len;
        match Rc::try_unwrap(self.buf) {
            Ok(mut owned) => {
                if start == 0 {
                    owned.truncate(len);
                    assert(owned@ =~= self@);
                    owned
                } else {
                    let tail = owned.split_off(start);
                    let mut tail = tail;
                    tail.truncate(len);
                    assert(tail@ =~= self@);
                    tail
                }
            },
            Err(shared) => {
                let mut v: Vec<T> = Vec::new();
                let mut i: usize = 0;
                while i < len
                    invariant
                        i <= len,
                        start + len <= shared@.len() <= usize::MAX,
                        v@ == shared@.subrange(start as int, start + i),
                    decreases len - i,
                {
                    v.push(shared[start + i].dup());
                    i += 1;
                }
                assert(v@ =~= self@);
                v
            },
        }
    }

    /// Writes `value` at index `i`. Other handles on the buffer keep seeing
    /// the old elements: a shared buffer is copied before it is written, and
    /// the handle then stands at the start of a buffer that holds its
    /// elements alone.
    pub fn set(&mut self, i: usize, value: T)
        requires
            i < old(self)@.len(),
        ensures
            final(self)@ == old(self)@.update(i as int, value),
            final(self).offset() == 0,
            final(self).buffer() == final(self)@,
    {
        let mut taken = CowSlice::new(Vec::new());
        std::mem::swap(self, &mut taken);
        let mut v = taken.into_vec();
        v.set(i, value);
        *self = CowSlice::new(v);
    }

    /// A handle that shows the elements of this one with `value` at index
    /// `i`. This handle goes on showing what it showed: a further handle
    /// is taken and written, and the write copies the buffer that the two
    /// would share.
    pub fn updated(&self, i: usize, value: T) -> (r: Self)
        requires
            i < self@.len(),
        ensures
            r@ == self@.update(i as int, value),
            r.offset() == 0,
            r.buffer() == r@,
    {
        let mut r = self.share();
        r.set(i, value);
        r
    }
}

} // verus!
