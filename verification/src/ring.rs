use vstd::prelude::*;

verus! {

/// Index `a + b` of a ring of `n` slots, for `a` and `b` below `n`.
pub open spec fn wrap_add(a: int, b: int, n: int) -> int {
    if a + b < n {
        a + b
    } else {
        a + b - n
    }
}

/// On a ring of `n` slots, `%` agrees with `wrap_add`.
pub proof fn lemma_mod_wrap(a: int, b: int, n: int)
    requires
        0 <= a < n,
        0 <= b < n,
    ensures
        (a + b) % n == wrap_add(a, b, n),
{
    if a + b < n {
        vstd::arithmetic::div_mod::lemma_fundamental_div_mod_converse(a + b, n, 0, a + b);
    } else {
        vstd::arithmetic::div_mod::lemma_fundamental_div_mod_converse(a + b, n, 1, a + b - n);
    }
}

/// Slot `a + b` of a ring of `n` slots, for `a` and `b` below `n`, computed
/// without overflow.
pub fn ring_index(a: usize, b: usize, n: usize) -> (r: usize)
    requires
        a < n,
        b < n,
    ensures
        r == wrap_add(a as int, b as int, n as int),
        r < n,
{
    if b < n - a {
        a + b
    } else {
        b - (n - a)
    }
}

/// The contents of a bounded FIFO queue of capacity `cap` after a send of
/// `v`: appended at the back, unless the queue is full.
pub open spec fn queue_send<T>(q: Seq<T>, cap: nat, v: T) -> Seq<T> {
    if q.len() < cap {
        q.push(v)
    } else {
        q
    }
}

/// A send to a full queue changes nothing; a send to a queue with room
/// appends the message at the back and keeps every message already waiting,
/// in place.
pub proof fn lemma_send_effect<T>(q: Seq<T>, cap: nat, v: T)
    ensures
        q.len() >= cap ==> queue_send(q, cap, v) == q,
        q.len() < cap ==> queue_send(q, cap, v).len() == q.len() + 1 && queue_send(q, cap, v).last()
            == v && queue_send(q, cap, v).drop_last() == q,
{
    if q.len() < cap {
        assert(q.push(v).drop_last() =~= q);
    }
}

/// The contents of a FIFO queue after a read: the front message leaves, if any.
pub open spec fn queue_read<T>(q: Seq<T>) -> Seq<T> {
    if q.len() > 0 {
        q.drop_first()
    } else {
        q
    }
}

/// An operation on a queue.
pub enum QueueOp<T> {
    Send(T),
    Read,
}

/// The state of a queue of capacity `cap`, starting from contents `q0`, after
/// the operations `ops` in order: its contents, the messages it accepted, in
/// order, and the messages it delivered, in order.
pub open spec fn run_ops<T>(q0: Seq<T>, cap: nat, ops: Seq<QueueOp<T>>) -> (Seq<T>, Seq<T>, Seq<T>)
    decreases ops.len(),
{
    if ops.len() == 0 {
        (q0, Seq::empty(), Seq::empty())
    } else {
        let (q, acc, del) = run_ops(q0, cap, ops.drop_last());
        match ops.last() {
            QueueOp::Send(v) => if q.len() < cap {
                (queue_send(q, cap, v), acc.push(v), del)
            } else {
                (q, acc, del)
            },
            QueueOp::Read => if q.len() > 0 {
                (queue_read(q), acc, del.push(q[0]))
            } else {
                (q, acc, del)
            },
        }
    }
}

/// A queue delivers the messages it held and the messages it accepted, in
/// the order they arrived, each once: what was held and accepted is what
/// was delivered followed by what is still held, so the queue holds as
/// many messages as it held at first, plus those it accepted, minus those
/// it delivered. The queue never holds more than its capacity.
pub proof fn lemma_fifo<T>(q0: Seq<T>, cap: nat, ops: Seq<QueueOp<T>>)
    requires
        q0.len() <= cap,
    ensures
        ({
            let (q, acc, del) = run_ops(q0, cap, ops);
            &&& q0 + acc == del + q
            &&& q.len() == q0.len() + acc.len() - del.len()
            &&& q.len() <= cap
        }),
    decreases ops.len(),
{
    if ops.len() > 0 {
        lemma_fifo(q0, cap, ops.drop_last());
        let (q, acc, del) = run_ops(q0, cap, ops.drop_last());
        match ops.last() {
            QueueOp::Send(v) => {
                if q.len() < cap {
                    assert(q0 + acc.push(v) =~= (q0 + acc).push(v));
                    assert(del + q.push(v) =~= (del + q).push(v));
                }
            },
            QueueOp::Read => {
                if q.len() > 0 {
                    assert(del.push(q[0]) + q.drop_first() =~= del + q);
                }
            },
        }
    }
}

/// The sends of the messages `vs`, in order.
pub open spec fn sends<T>(vs: Seq<T>) -> Seq<QueueOp<T>> {
    Seq::new(vs.len(), |i: int| QueueOp::Send(vs[i]))
}

/// An empty queue of capacity `cap` accepts the first `cap` messages of a
/// run of sends and refuses every later one: it accepts exactly `cap`
/// messages before it is full, whatever came before it was emptied.
pub proof fn lemma_capacity<T>(cap: nat, vs: Seq<T>)
    ensures
        ({
            let (q, acc, del) = run_ops(Seq::<T>::empty(), cap, sends(vs));
            let k = if vs.len() < cap {
                vs.len() as int
            } else {
                cap as int
            };
            &&& acc == vs.take(k)
            &&& q == vs.take(k)
            &&& del.len() == 0
        }),
    decreases vs.len(),
{
    if vs.len() > 0 {
        let prev = vs.drop_last();
        lemma_capacity(cap, prev);
        assert(sends(vs).drop_last() =~= sends(prev));
        assert(sends(vs).last() == QueueOp::Send(vs.last()));
        let (q, acc, del) = run_ops(Seq::<T>::empty(), cap, sends(prev));
        let k = if prev.len() < cap {
            prev.len() as int
        } else {
            cap as int
        };
        if q.len() < cap {
            assert(vs.take(k + 1) =~= prev.take(k).push(vs.last()));
        } else {
            assert(vs.take(k) =~= prev.take(k));
        }
    } else {
        assert(vs.take(0) =~= Seq::<T>::empty());
    }
}

} // verus!
