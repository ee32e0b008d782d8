use vstd::prelude::*;

use crate::backstore::{empty_slots, BackStore};
use crate::ring::{lemma_mod_wrap, queue_read, queue_send, wrap_add};
use crate::MessageQueueError;

verus! {

/// The state shared by the sender and the readers of a worker queue: a ring
/// of `len` slots, all of which may hold a message, with a counter of the
/// messages available and the positions of the next read and write.
pub struct MessageQueueInternal<T> {
    len: usize,
    available: usize,
    read_ptr: usize,
    write_pointer: usize,
    backing_store: BackStore<T>,
}

impl<T> MessageQueueInternal<T> {
    /// Number of slots of the ring; all of them can hold a message.
    pub closed spec fn num_slots(&self) -> nat {
        self.len as nat
    }

    pub closed spec fn wf(&self) -> bool {
        &&& self.len >= 2
        &&& self.backing_store.wf()
        &&& self.backing_store@.len() == self.len
        &&& self.available <= self.len
        &&& self.read_ptr < self.len
        &&& self.write_pointer < self.len
        &&& self.write_pointer == wrap_add(self.read_ptr as int, self.available as int, self.len as int)
            || (self.available == self.len && self.write_pointer == self.read_ptr)
        &&& forall|k: int|
            0 <= k < self.available ==> (#[trigger] self.backing_store@[wrap_add(
                self.read_ptr as int,
                k,
                self.len as int,
            )]) is Some
    }
}

impl<T> View for MessageQueueInternal<T> {
    type V = Seq<T>;

    /// The unread messages, oldest first.
    closed spec fn view(&self) -> Seq<T> {
        Seq::new(
            self.available as nat,
            |k: int| self.backing_store@[wrap_add(self.read_ptr as int, k, self.len as int)]->Some_0,
        )
    }
}

impl<T> MessageQueueInternal<T> {
    /// A queue for `num_elements` messages. Fewer than two slots are
    /// refused; a store that cannot be allocated gives `MmapFailed`.
    pub fn new(num_elements: usize) -> (r: Result<MessageQueueInternal<T>, MessageQueueError>)
        ensures
            num_elements < 2 <==> r == Err::<MessageQueueInternal<T>, MessageQueueError>(
                MessageQueueError::UnvalidSize,
            ),
            r is Err ==> r == Err::<MessageQueueInternal<T>, MessageQueueError>(
                MessageQueueError::UnvalidSize,
            ) || r == Err::<MessageQueueInternal<T>, MessageQueueError>(
                MessageQueueError::MmapFailed,
            ),
            r matches Ok(q) ==> q.wf() && q.num_slots() == num_elements && q@ == Seq::<T>::empty(),
    {
        if num_elements < 2 {
            return Err(MessageQueueError::UnvalidSize);
        }
        Self::from_store(num_elements, BackStore::new(num_elements))
    }

    /// The queue of `num_elements` slots built on `store`, the outcome of
    /// allocating them: fewer than two slots are refused with `UnvalidSize`;
    /// otherwise the queue is made exactly when the allocation succeeded, and
    /// a failed allocation gives `MmapFailed`.
    pub fn from_store(num_elements: usize, store: Result<BackStore<T>, ()>) -> (r: Result<
        MessageQueueInternal<T>,
        MessageQueueError,
    >)
        requires
            store matches Ok(s) ==> s.wf() && s@ == empty_slots::<T>(num_elements as nat),
        ensures
            num_elements < 2 ==> r == Err::<MessageQueueInternal<T>, MessageQueueError>(
                MessageQueueError::UnvalidSize,
            ),
            num_elements >= 2 ==> (r is Ok <==> store is Ok),
            num_elements >= 2 && store is Err ==> r == Err::<MessageQueueInternal<T>, MessageQueueError>(
                MessageQueueError::MmapFailed,
            ),
            r matches Ok(q) ==> q.wf() && q.num_slots() == num_elements && q@ == Seq::<T>::empty(),
    {
        if num_elements < 2 {
            return Err(MessageQueueError::UnvalidSize);
        }
        let backing_store = match store {
            Ok(x) => x,
            Err(()) => return Err(MessageQueueError::MmapFailed),
        };
        let q = MessageQueueInternal {
            len: num_elements,
            available: 0,
            read_ptr: 0,
            write_pointer: 0,
            backing_store,
        };
        assert(q@ =~= Seq::<T>::empty());
        Ok(q)
    }

    /// Appends `val`; refused with `MessageQueueFull` when all slots hold a message.
    pub fn send(&mut self, val: T) -> (r: Result<(), MessageQueueError>)
        requires
            old(self).wf(),
        ensures
            final(self).wf(),
            final(self).num_slots() == old(self).num_slots(),
            old(self)@.len() >= old(self).num_slots() ==> r == Err::<(), MessageQueueError>(
                MessageQueueError::MessageQueueFull,
            ),
            old(self)@.len() < old(self).num_slots() ==> r is Ok,
            final(self)@ == queue_send(old(self)@, old(self).num_slots(), val),
            old(self)@.len() >= old(self).num_slots() ==> final(self)@ == old(self)@,
            old(self)@.len() < old(self).num_slots() ==> final(self)@ == old(self)@.push(val),
    {
        if self.available == self.len {
            return Err(MessageQueueError::MessageQueueFull);
        }
        let ghost old_q = *self;
        let wpos = self.write_pointer;
        proof {
            lemma_mod_wrap(wpos as int, 1, self.len as int);
        }
        self.backing_store.set(wpos, val);
        self.write_pointer = (wpos + 1) % self.len;
        self.available = self.available + 1;
        assert(self@ =~= old_q@.push(val));
        Ok(())
    }

    /// Number of messages waiting to be read.
    pub fn unread(&self) -> (n: usize)
        requires
            self.wf(),
        ensures
            n == self@.len(),
            n <= self.num_slots(),
    {
        self.available
    }

    /// Whether a message waits to be read.
    pub fn is_ready(&self) -> (b: bool)
        requires
            self.wf(),
        ensures
            b == (self@.len() > 0),
    {
        self.unread() > 0
    }

    /// Removes and returns the message at the read position.
    fn get_current_val(&mut self) -> (v: T)
        requires
            old(self).wf(),
            old(self)@.len() > 0,
        ensures
            final(self).wf(),
            final(self).num_slots() == old(self).num_slots(),
            v == old(self)@[0],
            final(self)@ == old(self)@.drop_first(),
    {
        let ghost old_q = *self;
        let rpos = self.read_ptr;
        assert(old_q.backing_store@[wrap_add(rpos as int, 0, self.len as int)] is Some);
        let val = self.backing_store.take(rpos);
        proof {
            lemma_mod_wrap(rpos as int, 1, self.len as int);
        }
        self.available = self.available - 1;
        self.read_ptr = (rpos + 1) % self.len;
        assert forall|k: int| 0 <= k < self.available implies (#[trigger] self.backing_store@[wrap_add(
            self.read_ptr as int,
            k,
            self.len as int,
        )]) is Some by {
            assert(wrap_add(self.read_ptr as int, k, self.len as int) == wrap_add(rpos as int, k + 1, self.len as int));
            assert(old_q.backing_store@[wrap_add(rpos as int, k + 1, self.len as int)] is Some);
        }
        assert(self@ =~= old_q@.drop_first()) by {
            assert forall|k: int| 0 <= k < self@.len() implies self@[k] == old_q@.drop_first()[k] by {
                assert(wrap_add(self.read_ptr as int, k, self.len as int) == wrap_add(rpos as int, k + 1, self.len as int));
            }
        }
        val
    }

    /// Removes and returns the oldest message, or `None` when none waits.
    pub fn read(&mut self) -> (r: Option<T>)
        requires
            old(self).wf(),
        ensures
            final(self).wf(),
            final(self).num_slots() == old(self).num_slots(),
            old(self)@.len() == 0 ==> r is None,
            old(self)@.len() > 0 ==> r == Some(old(self)@[0]),
            final(self)@ == queue_read(old(self)@),
    {
        if self.unread() == 0 {
            None
        } else {
            Some(self.get_current_val())
        }
    }
}

} // verus!
