use vstd::prelude::*;

use std::collections::TryReserveError;

verus! {

/// A fixed-length array of slots. A slot that was never written, or whose
/// value was taken out, holds `None`.
pub struct BackStore<T> {
    data: Vec<Option<T>>,
}

impl<T> View for BackStore<T> {
    type V = Seq<Option<T>>;

    closed spec fn view(&self) -> Seq<Option<T>> {
        self.data@
    }
}

/// `n` empty slots.
pub open spec fn empty_slots<T>(n: nat) -> Seq<Option<T>> {
    Seq::new(n, |i: int| None::<T>)
}

impl<T> BackStore<T> {
    /// The store has at least one slot and `len` counts them.
    pub open spec fn wf(&self) -> bool {
        self@.len() > 0
    }

    /// The number of slots.
    pub fn len(&self) -> (n: usize)
        ensures
            n == self@.len(),
    {
        self.data.len()
    }

    /// Allocates `len` empty slots. An empty store is refused, and so is one
    /// that the allocator cannot provide.
    pub fn new(len: usize) -> (r: Result<BackStore<T>, ()>)
        ensures
            len == 0 ==> r is Err,
            r matches Ok(s) ==> s.wf() && s@ == empty_slots::<T>(len as nat),
    {
        if len == 0 {
            return Err(());
        }
        let mut data: Vec<Option<T>> = Vec::new();
        let reserved = data.try_reserve(len);
        Self::from_reservation(len, data, reserved)
    }

    /// The store built on `data`, an empty vector for which room for `len`
    /// slots was asked, given the outcome `reserved` of that request: `len`
    /// empty slots when the room was granted and `len > 0`, an error otherwise.
    pub fn from_reservation(len: usize, data: Vec<Option<T>>, reserved: Result<(), TryReserveError>) -> (r:
        Result<BackStore<T>, ()>)
        requires
            data@.len() == 0,
        ensures
            r is Ok <==> (reserved is Ok && len > 0),
            r matches Ok(s) ==> s.wf() && s@ == empty_slots::<T>(len as nat),
    {
        if len == 0 {
            return Err(());
        }
        match reserved {
            Ok(()) => {},
            Err(_) => return Err(()),
        }
        let mut data = data;
        let mut i: usize = 0;
        assert(data@ =~= empty_slots::<T>(0));
        while i < len
            invariant
                i <= len,
                data@ == empty_slots::<T>(i as nat),
            decreases len - i,
        {
            data.push(None);
            i = i + 1;
        }
        Ok(BackStore { data })
    }

    /// The slot at `pos`.
    pub fn get(&self, pos: usize) -> (r: &Option<T>)
        requires
            self.wf(),
            pos < self@.len(),
        ensures
            *r == self@[pos as int],
    {
        &self.data[pos]
    }

    /// Stores `val` at `pos`.
    pub fn set(&mut self, pos: usize, val: T)
        requires
            old(self).wf(),
            pos < old(self)@.len(),
        ensures
            final(self).wf(),
            final(self)@ == old(self)@.update(pos as int, Some(val)),
    {
        self.data.set(pos, Some(val));
    }

    /// Moves the value out of the occupied slot at `pos`, leaving it empty.
    pub fn take(&mut self, pos: usize) -> (r: T)
        requires
            old(self).wf(),
            pos < old(self)@.len(),
            old(self)@[pos as int] is Some,
        ensures
            final(self).wf(),
            r == old(self)@[pos as int]->Some_0,
            final(self)@ == old(self)@.update(pos as int, None),
    {
        let mut out: Option<T> = None;
        self.data.set_and_swap(pos, &mut out);
        out.unwrap()
    }
}

} // verus!
