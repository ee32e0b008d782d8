//! Bounded FIFO message queues, a linear-probing hash table and the
//! decision logic of a small thread pool.
use vstd::prelude::*;

pub mod backstore;
pub mod hashint;
pub mod messagequeue;
pub mod ring;
pub mod thread;
pub mod threadpool;

use crate::backstore::{empty_slots, BackStore};
use crate::ring::{lemma_mod_wrap, queue_read, queue_send, wrap_add};

verus! {

/// Errors of the message queues.
#[derive(Debug, Clone, Copy, PartialEq, Eq, Structural)]
pub enum MessageQueueError {
    UnvalidSize,
    FileDescriptorCreationFailed,
    MemoryAllocationFailed,
    MmapFailed,
    MessageSendingFailed,
    MessageQueueFull,
    MessageQueueEmpty,
    /// A system call on the queue's notification descriptor failed with this errno.
    NixError(i32),
}

/// The state shared by the sender and the readers of a queue: a ring of
/// `len` slots with a read and a write pointer. One slot always stays free,
/// so that an empty queue (`unread() == 0`) and a full one
/// (`unread() == len - 1`) can be told apart.
pub struct MessageQueueInternal<T> {
    len: usize,
    backing_store: BackStore<T>,
    read_pointer: usize,
    write_pointer: usize,
}

impl<T> MessageQueueInternal<T> {
    /// Number of messages between the read and the write pointer.
    pub closed spec fn count(&self) -> int {
        if self.write_pointer >= self.read_pointer {
            self.write_pointer - self.read_pointer
        } else {
            self.write_pointer + self.len - self.read_pointer
        }
    }

    pub closed spec fn wf(&self) -> bool {
        &&& self.len >= 2
        &&& self.backing_store.wf()
        &&& self.backing_store@.len() == self.len
        &&& self.read_pointer < self.len
        &&& self.write_pointer < self.len
        &&& forall|k: int|
            0 <= k < self.count() ==> (#[trigger] self.backing_store@[wrap_add(
                self.read_pointer as int,
                k,
                self.len as int,
            )]) is Some
    }

    /// Number of slots of the ring.
    pub closed spec fn num_slots(&self) -> nat {
        self.len as nat
    }

    /// The most messages the queue holds at once.
    pub open spec fn capacity(&self) -> nat {
        (self.num_slots() - 1) as nat
    }
}

impl<T> View for MessageQueueInternal<T> {
    type V = Seq<T>;

    /// The unread messages, oldest first.
    closed spec fn view(&self) -> Seq<T> {
        Seq::new(
            self.count() as nat,
            |k: int|
                self.backing_store@[wrap_add(
                    self.read_pointer as int,
                    k,
                    self.len as int,
                )]->Some_0,
        )
    }
}

impl<T> MessageQueueInternal<T> {
    /// A queue for `num_elements - 1` messages. Fewer than two slots are
    /// refused; a store that cannot be allocated gives `MmapFailed`.
    pub fn new(num_elements: usize) -> (r: Result<MessageQueueInternal<T>, MessageQueueError>)
        ensures
            num_elements < 2 <==> r == Err::<MessageQueueInternal<T>, MessageQueueError>(
                MessageQueueError::UnvalidSize,
            ),
            r is Err ==> r == Err::<MessageQueueInternal<T>, MessageQueueError>(
                MessageQueueError::UnvalidSize,
            ) || r == Err::<MessageQueueInternal<T>, MessageQueueError>(
                MessageQueueError::MmapFailed,
            ),
            r matches Ok(q) ==> q.wf() && q.num_slots() == num_elements && q@ == Seq::<T>::empty(),
    {
        if num_elements < 2 {
            return Err(MessageQueueError::UnvalidSize);
        }
        Self::from_store(num_elements, BackStore::new(num_elements))
    }

    /// The queue of `num_elements` slots built on `store`, the outcome of
    /// allocating them: fewer than two slots are refused with `UnvalidSize`;
    /// otherwise the queue is made exactly when the allocation succeeded, and
    /// a failed allocation gives `MmapFailed`.
    pub fn from_store(num_elements: usize, store: Result<BackStore<T>, ()>) -> (r: Result<
        MessageQueueInternal<T>,
        MessageQueueError,
    >)
        requires
            store matches Ok(s) ==> s.wf() && s@ == empty_slots::<T>(num_elements as nat),
        ensures
            num_elements < 2 ==> r == Err::<MessageQueueInternal<T>, MessageQueueError>(
                MessageQueueError::UnvalidSize,
            ),
            num_elements >= 2 ==> (r is Ok <==> store is Ok),
            num_elements >= 2 && store is Err ==> r == Err::<MessageQueueInternal<T>, MessageQueueError>(
                MessageQueueError::MmapFailed,
            ),
            r matches Ok(q) ==> q.wf() && q.num_slots() == num_elements && q@ == Seq::<T>::empty(),
    {
        if num_elements < 2 {
            return Err(MessageQueueError::UnvalidSize);
        }
        let backing_store = match store {
            Ok(x) => x,
            Err(()) => return Err(MessageQueueError::MmapFailed),
        };
        let q = MessageQueueInternal { len: num_elements, backing_store, read_pointer: 0, write_pointer: 0 };
        assert(q@ =~= Seq::<T>::empty());
        Ok(q)
    }

    /// Number of messages waiting to be read.
    pub fn unread(&self) -> (n: usize)
        requires
            self.wf(),
        ensures
            n == self@.len(),
            n <= self.capacity(),
    {
        if self.write_pointer >= self.read_pointer {
            self.write_pointer - self.read_pointer
        } else {
            self.write_pointer + (self.len - self.read_pointer)
        }
    }

    /// Whether a message waits to be read.
    pub fn is_ready(&self) -> (b: bool)
        requires
            self.wf(),
        ensures
            b == (self@.len() > 0),
    {
        self.unread() > 0
    }

    /// Appends `val`; refused with `MessageQueueFull` when `capacity()`
    /// messages are already waiting.
    pub fn send(&mut self, val: T) -> (r: Result<(), MessageQueueError>)
        requires
            old(self).wf(),
        ensures
            final(self).wf(),
            final(self).num_slots() == old(self).num_slots(),
            old(self)@.len() >= old(self).capacity() ==> r == Err::<(), MessageQueueError>(
                MessageQueueError::MessageQueueFull,
            ),
            old(self)@.len() < old(self).capacity() ==> r is Ok,
            final(self)@ == queue_send(old(self)@, old(self).capacity(), val),
            old(self)@.len() >= old(self).capacity() ==> final(self)@ == old(self)@,
            old(self)@.len() < old(self).capacity() ==> final(self)@ == old(self)@.push(val),
    {
        let unread = self.unread();
        if unread == self.len - 1 {
            return Err(MessageQueueError::MessageQueueFull);
        }
        let wpos = self.write_pointer;
        let ghost old_q = *self;
        proof {
            lemma_mod_wrap(wpos as int, 1, self.len as int);
        }
        self.backing_store.set(wpos, val);
        self.write_pointer = (wpos + 1) % self.len;
        assert(self@ =~= old_q@.push(val));
        Ok(())
    }

    /// Removes and returns the oldest message; `MessageQueueEmpty` when none waits.
    pub fn read(&mut self) -> (r: Result<T, MessageQueueError>)
        requires
            old(self).wf(),
        ensures
            final(self).wf(),
            final(self).num_slots() == old(self).num_slots(),
            old(self)@.len() == 0 ==> r == Err::<T, MessageQueueError>(
                MessageQueueError::MessageQueueEmpty,
            ),
            old(self)@.len() > 0 ==> r == Ok::<T, MessageQueueError>(old(self)@[0]),
            final(self)@ == queue_read(old(self)@),
    {
        if !self.is_ready() {
            return Err(MessageQueueError::MessageQueueEmpty);
        }
        let pos = self.read_pointer;
        let ghost old_q = *self;
        assert(old_q.backing_store@[wrap_add(pos as int, 0, self.len as int)] is Some);
        let val = self.backing_store.take(pos);
        if pos == self.len - 1 {
            self.read_pointer = 0;
        } else {
            self.read_pointer = pos + 1;
        }
        assert forall|k: int| 0 <= k < self.count() implies (#[trigger] self.backing_store@[wrap_add(
            self.read_pointer as int,
            k,
            self.len as int,
        )]) is Some by {
            assert(wrap_add(self.read_pointer as int, k, self.len as int) == wrap_add(pos as int, k + 1, self.len as int));
            assert(old_q.backing_store@[wrap_add(pos as int, k + 1, self.len as int)] is Some);
        }
        assert(self@ =~= old_q@.drop_first()) by {
            assert forall|k: int| 0 <= k < self@.len() implies self@[k] == old_q@.drop_first()[k] by {
                assert(wrap_add(self.read_pointer as int, k, self.len as int) == wrap_add(pos as int, k + 1, self.len as int));
            }
        }
        Ok(val)
    }

    /// Sends `val` as `send` does and tells whether the queue went from empty
    /// to not empty: then the readers waiting on the notification descriptor
    /// are to be woken.
    pub fn send_notify(&mut self, val: T) -> (r: Result<bool, MessageQueueError>)
        requires
            old(self).wf(),
        ensures
            final(self).wf(),
            final(self).num_slots() == old(self).num_slots(),
            old(self)@.len() >= old(self).capacity() ==> r == Err::<bool, MessageQueueError>(
                MessageQueueError::MessageQueueFull,
            ),
            old(self)@.len() < old(self).capacity() ==> r == Ok::<bool, MessageQueueError>(
                old(self)@.len() == 0,
            ),
            final(self)@ == queue_send(old(self)@, old(self).capacity(), val),
            old(self)@.len() >= old(self).capacity() ==> final(self)@ == old(self)@,
            old(self)@.len() < old(self).capacity() ==> final(self)@ == old(self)@.push(val),
    {
        let was_empty = !self.is_ready();
        match self.send(val) {
            Ok(()) => Ok(was_empty),
            Err(e) => Err(e),
        }
    }

    /// Reads as `read` does and tells whether the queue went from not empty
    /// to empty: then the notification descriptor is to be drained.
    pub fn read_notify(&mut self) -> (r: Result<(T, bool), MessageQueueError>)
        requires
            old(self).wf(),
        ensures
            final(self).wf(),
            final(self).num_slots() == old(self).num_slots(),
            old(self)@.len() == 0 ==> r == Err::<(T, bool), MessageQueueError>(
                MessageQueueError::MessageQueueEmpty,
            ),
            old(self)@.len() > 0 ==> r == Ok::<(T, bool), MessageQueueError>(
                (old(self)@[0], old(self)@.len() == 1),
            ),
            final(self)@ == queue_read(old(self)@),
    {
        match self.read() {
            Ok(v) => {
                let now_empty = !self.is_ready();
                Ok((v, now_empty))
            },
            Err(e) => Err(e),
        }
    }

    /// Drops every unread message.
    pub fn purge(&mut self)
        requires
            old(self).wf(),
        ensures
            final(self).wf(),
            final(self).num_slots() == old(self).num_slots(),
            final(self)@ == Seq::<T>::empty(),
    {
        self.read_pointer = self.write_pointer;
        assert(self@ =~= Seq::<T>::empty());
    }
}

} // verus!
