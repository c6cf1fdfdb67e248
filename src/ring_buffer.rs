//! Bounded single-producer/single-consumer ring of fixed-size records.
//!
//! `head` counts pushes and `tail` counts pops; both wrap at the width of
//! `usize`. The number of live records is `head - tail` (wrapping) and the
//! record pushed at index `i` lives in slot `i % N`. Because `N` is a power
//! of two it divides the index range, so slot selection stays consistent
//! across the wrap of the indices.
use vstd::arithmetic::div_mod::{
    lemma_fundamental_div_mod, lemma_mod_equivalence, lemma_mod_multiples_basic, lemma_mod_multiples_vanish,
    lemma_small_mod,
};
use vstd::arithmetic::power::pow;
use vstd::arithmetic::power2::{
    is_pow2, is_pow2_equiv, is_pow2_exists, lemma2_to64, lemma_pow2, lemma_pow2_adds, lemma_pow2_pos,
    lemma_pow2_strictly_increases, pow2,
};
use vstd::prelude::*;

verus! {

/// Number of distinct `usize` index values.
pub open spec fn index_range() -> int {
    usize::MAX as int + 1
}

/// `x` reduced once into the index range, for `0 <= x < 2 * index_range()`.
pub open spec fn wrap_index(x: int) -> int {
    if x < index_range() {
        x
    } else {
        x - index_range()
    }
}

/// A power of two no larger than `usize::MAX` divides the index range.
proof fn lemma_pow2_divides_index_range(n: int)
    requires
        is_pow2(n),
        n <= usize::MAX,
    ensures
        n > 0,
        index_range() % n == 0,
{
    is_pow2_equiv(n);
    assert(is_pow2_exists(n));
    let i = choose|i: nat| pow(2, i) == n;
    lemma_pow2(i);
    lemma2_to64();
    let w: nat = if usize::MAX == 0xffff_ffff {
        32
    } else {
        64
    };
    assert(pow2(w) == index_range());
    if i >= w {
        if i > w {
            lemma_pow2_strictly_increases(w, i);
        }
        assert(false);
    }
    let e = (w - i) as nat;
    lemma_pow2_adds(i, e);
    lemma_pow2_pos(i);
    assert(i + e == w);
    assert(pow2(w) == pow2(i) * pow2(e));
    lemma_mod_multiples_basic(pow2(e) as int, n);
    assert(pow2(e) * n == pow2(i) * pow2(e)) by (nonlinear_arith)
        requires
            n == pow2(i),
    ;
}

/// Reducing an index into the range does not change its slot.
proof fn lemma_slot_of_wrapped(x: int, k: int, n: int)
    requires
        n > 0,
        index_range() % n == 0,
    ensures
        (wrap_index(x) + k) % n == (x + k) % n,
{
    if x >= index_range() {
        lemma_fundamental_div_mod(index_range(), n);
        let q = index_range() / n;
        assert(index_range() == n * q);
        lemma_mod_multiples_vanish(q, wrap_index(x) + k, n);
        assert(n * q + (wrap_index(x) + k) == x + k);
    }
}

/// Fewer than `n` steps apart, two indices use different slots.
proof fn lemma_slots_distinct(t: int, k: int, l: int, n: int)
    requires
        n > 0,
        0 <= k < l,
        l - k < n,
    ensures
        (t + k) % n != (t + l) % n,
{
    lemma_mod_equivalence(t + l, t + k, n);
    lemma_small_mod((l - k) as nat, n as nat);
    assert(t + l - (t + k) == l - k);
}

/// Bounded first-in, first-out ring with `N` slots, allocated once.
///
/// `push` and `pop` take `&mut self`: a producer and a consumer on
/// different threads share the ring through whatever exclusive access the
/// caller provides.
pub struct RingBuffer<T, const N: usize> {
    head: usize,
    tail: usize,
    buffer: Vec<Option<T>>,
    items: Ghost<Seq<T>>,
}

impl<T: Copy, const N: usize> View for RingBuffer<T, N> {
    type V = Seq<T>;

    /// The live records, oldest first.
    closed spec fn view(&self) -> Seq<T> {
        self.items@
    }
}

impl<T: Copy, const N: usize> RingBuffer<T, N> {
    /// Slots and indices agree with the live records.
    pub closed spec fn wf(&self) -> bool {
        &&& is_pow2(N as int)
        &&& N > 0
        &&& index_range() % (N as int) == 0
        &&& self.buffer@.len() == N
        &&& self.items@.len() <= N
        &&& self.head == wrap_index(self.tail + self.items@.len())
        &&& forall|k: int|
            0 <= k < self.items@.len() ==> #[trigger] self.buffer@[(self.tail + k) % (N as int)] == Some(
                self.items@[k],
            )
    }

    /// An empty ring. `N` must be a power of two.
    pub fn new() -> (r: Self)
        requires
            is_pow2(N as int),
        ensures
            r.wf(),
            r@ == Seq::<T>::empty(),
    {
        proof {
            lemma_pow2_divides_index_range(N as int);
        }
        let mut buffer: Vec<Option<T>> = Vec::with_capacity(N);
        let mut i: usize = 0;
        while i < N
            invariant
                i <= N,
                buffer@.len() == i,
            decreases N - i,
        {
            buffer.push(None);
            i = i + 1;
        }
        RingBuffer { head: 0, tail: 0, buffer, items: Ghost(Seq::empty()) }
    }

    /// Appends `value` when fewer than `N` records are live; `false`, and
    /// nothing changed, when the ring is full.
    pub fn push(&mut self, value: T) -> (r: bool)
        requires
            old(self).wf(),
        ensures
            final(self).wf(),
            r == (old(self)@.len() < N),
            final(self)@ == ring_step(old(self)@, N as nat, RingOp::Push(value)),
            final(self)@.len() <= N,
    {
        let head = self.head;
        let tail = self.tail;
        proof {
            lemma_small_mod(self.items@.len(), index_range() as nat);
        }
        if head.wrapping_sub(tail) >= N {
            return false;
        }
        let ghost old_items = self.items@;
        let ghost len = old_items.len() as int;
        proof {
            lemma_slot_of_wrapped(tail + len, 0, N as int);
        }
        self.buffer.set(head % N, Some(value));
        self.head = head.wrapping_add(1);
        self.items = Ghost(old_items.push(value));
        proof {
            assert forall|k: int| 0 <= k < self.items@.len() implies #[trigger] self.buffer@[(self.tail + k) % (
            N as int)] == Some(self.items@[k]) by {
                if k < len {
                    lemma_slots_distinct(tail as int, k, len, N as int);
                }
            }
            assert(self.head == wrap_index(self.tail + self.items@.len()));
        }
        true
    }

    /// Removes and returns the oldest record; absent, and nothing changed,
    /// when the ring is empty.
    pub fn pop(&mut self) -> (r: Option<T>)
        requires
            old(self).wf(),
        ensures
            final(self).wf(),
            r == (if old(self)@.len() > 0 {
                Some(old(self)@[0])
            } else {
                None::<T>
            }),
            final(self)@ == ring_step(old(self)@, N as nat, RingOp::Pop),
            final(self)@.len() <= N,
    {
        let head = self.head;
        let tail = self.tail;
        if tail == head {
            return None;
        }
        let ghost old_items = self.items@;
        assert(self.buffer@[(tail + 0) % (N as int)] == Some(old_items[0]));
        let slot = self.buffer[tail % N];
        let value = match slot {
            Some(v) => v,
            None => {
                proof {
                    assert(false);
                }
                return None;
            },
        };
        self.tail = tail.wrapping_add(1);
        self.items = Ghost(old_items.drop_first());
        proof {
            assert forall|k: int| 0 <= k < self.items@.len() implies #[trigger] self.buffer@[(self.tail + k) % (
            N as int)] == Some(self.items@[k]) by {
                lemma_slot_of_wrapped(tail + 1, k, N as int);
                assert(tail + 1 + k == tail + (k + 1));
                assert(self.buffer@[(tail + (k + 1)) % (N as int)] == Some(old_items[k + 1]));
            }
        }
        Some(value)
    }

    /// No record is live.
    pub fn is_empty(&self) -> (r: bool)
        requires
            self.wf(),
        ensures
            r == (self@.len() == 0),
    {
        self.tail == self.head
    }

    /// `N` records are live.
    pub fn is_full(&self) -> (r: bool)
        requires
            self.wf(),
        ensures
            r == (self@.len() == N),
    {
        proof {
            lemma_small_mod(self.items@.len(), index_range() as nat);
        }
        self.head.wrapping_sub(self.tail) >= N
    }

    /// Number of live records.
    pub fn len(&self) -> (r: usize)
        requires
            self.wf(),
        ensures
            r == self@.len(),
            self@.len() <= N,
    {
        proof {
            lemma_small_mod(self.items@.len(), index_range() as nat);
        }
        self.head.wrapping_sub(self.tail)
    }

    /// Number of slots.
    pub fn capacity(&self) -> (r: usize)
        ensures
            r == N,
    {
        N
    }
}

/// One call on a ring: a push of a value, or a pop.
pub enum RingOp<T> {
    Push(T),
    Pop,
}

/// The records of a ring with `cap` slots after `op`, as `push` and `pop`
/// state it.
pub open spec fn ring_step<T>(q: Seq<T>, cap: nat, op: RingOp<T>) -> Seq<T> {
    match op {
        RingOp::Push(v) => if q.len() < cap {
            q.push(v)
        } else {
            q
        },
        RingOp::Pop => if q.len() > 0 {
            q.drop_first()
        } else {
            q
        },
    }
}

/// Running `ops` on an empty ring with `cap` slots: the records left, the
/// values whose push was accepted, and the values pops returned, in order.
pub open spec fn ring_run<T>(cap: nat, ops: Seq<RingOp<T>>) -> (Seq<T>, Seq<T>, Seq<T>)
    decreases ops.len(),
{
    if ops.len() == 0 {
        (Seq::empty(), Seq::empty(), Seq::empty())
    } else {
        let (q, pushed, popped) = ring_run(cap, ops.drop_last());
        let next = ring_step(q, cap, ops.last());
        match ops.last() {
            RingOp::Push(v) => if q.len() < cap {
                (next, pushed.push(v), popped)
            } else {
                (next, pushed, popped)
            },
            RingOp::Pop => if q.len() > 0 {
                (next, pushed, popped.push(q[0]))
            } else {
                (next, pushed, popped)
            },
        }
    }
}

/// First in, first out: for any interleaving of pushes and pops on an
/// empty ring, where each call changes the records as `push` and `pop`
/// state (`ring_step`), the values popped followed by the records still
/// held are exactly the values whose push was accepted, in push order. So
/// pops return values in the order they were pushed and never a value that
/// was not pushed, and the ring never holds more than its capacity.
pub proof fn lemma_ring_fifo<T>(cap: nat, ops: Seq<RingOp<T>>)
    ensures
        ({
            let (q, pushed, popped) = ring_run(cap, ops);
            &&& pushed == popped + q
            &&& q.len() <= cap
        }),
    decreases ops.len(),
{
    if ops.len() > 0 {
        lemma_ring_fifo(cap, ops.drop_last());
        let (q, pushed, popped) = ring_run(cap, ops.drop_last());
        match ops.last() {
            RingOp::Push(v) => {
                assert((popped + q).push(v) =~= popped + q.push(v));
            },
            RingOp::Pop => {
                if q.len() > 0 {
                    assert(popped.push(q[0]) + q.drop_first() =~= popped + q);
                }
            },
        }
    }
}

} // verus!
