//! A fixed-capacity ring of batches, each batch a fixed-capacity buffer of
//! fixed-size records. Producers append records into the batch at the head;
//! when it is full the head advances to the next free batch. A consumer
//! reclaims the oldest retired batch, resetting it for reuse and advancing
//! the tail. Head and tail are modelled as monotonically increasing logical
//! counters, wrapped only at the final indexing step, so that a completely
//! full ring (`head - tail == n`) is never confused with an empty one
//! (`head == tail`).

pub mod tensor_batch;

use vstd::prelude::*;
use vstd::arithmetic::div_mod::{
    lemma_fundamental_div_mod, lemma_fundamental_div_mod_converse_mod, lemma_mod_bound,
    lemma_mod_multiples_vanish, lemma_small_mod,
};

use crate::tensor_batch::{
    batch_append_step, batch_reset_step, AppendError, BatchView, TensorBatch,
};

verus! {

/// Whether `n` is a nonzero power of two: exactly one bit set.
pub open spec fn spec_is_power_of_two(n: usize) -> bool {
    n != 0 && n & ((n - 1) as usize) == 0
}

/// Runtime check for a nonzero power of two, via the one-bit-set test.
pub fn is_power_of_two(n: usize) -> (r: bool)
    ensures
        r == spec_is_power_of_two(n),
{
    n != 0 && (n & (n - 1)) == 0
}

/// The physical batch index a logical counter value refers to.
pub open spec fn wrap_index(l: int, n: int) -> int {
    l % n
}

proof fn lemma_wrap_bound(l: int, n: int)
    requires
        n > 0,
    ensures
        0 <= wrap_index(l, n) < n,
{
    lemma_mod_bound(l, n);
}

/// Advancing a logical counter by one moves its physical index to the next
/// position, wrapping from `n - 1` back to `0`.
proof fn lemma_wrap_step(l: int, n: int)
    requires
        n > 0,
        l >= 0,
    ensures
        wrap_index(l + 1, n) == if wrap_index(l, n) + 1 == n {
            0int
        } else {
            wrap_index(l, n) + 1
        },
{
    lemma_mod_bound(l, n);
    lemma_fundamental_div_mod(l, n);
    let q = l / n;
    let r = l % n;
    assert((q + 1) * n == q * n + n) by (nonlinear_arith);
    assert(q * n == n * q) by (nonlinear_arith);
    if r + 1 == n {
        assert(l + 1 == (q + 1) * n + 0);
        lemma_fundamental_div_mod_converse_mod(l + 1, n, q + 1, 0);
    } else {
        assert(l + 1 == q * n + (r + 1));
        lemma_fundamental_div_mod_converse_mod(l + 1, n, q, r + 1);
    }
}

/// Within any window of `n` consecutive logical positions, two distinct
/// positions map to distinct physical indices.
proof fn lemma_wrap_distinct(l1: int, l2: int, t: int, n: int)
    requires
        n > 0,
        t <= l1 < t + n,
        t <= l2 < t + n,
        wrap_index(l1, n) == wrap_index(l2, n),
    ensures
        l1 == l2,
{
    lemma_fundamental_div_mod(l1, n);
    lemma_fundamental_div_mod(l2, n);
    let q1 = l1 / n;
    let q2 = l2 / n;
    assert(l1 - l2 == n * (q1 - q2)) by (nonlinear_arith)
        requires
            l1 == n * q1 + l1 % n,
            l2 == n * q2 + l2 % n,
            l1 % n == l2 % n,
    ;
    assert(q1 == q2) by (nonlinear_arith)
        requires
            l1 - l2 == n * (q1 - q2),
            -n < l1 - l2 < n,
            n > 0,
    ;
}

/// A whole turn of the ring lands on the same physical index.
proof fn lemma_wrap_add_n(l: int, n: int)
    requires
        n > 0,
        l >= 0,
    ensures
        wrap_index(l + n, n) == wrap_index(l, n),
{
    lemma_mod_multiples_vanish(1, l, n);
}

/// Mathematical model of the ring: the batches in physical order and the
/// two logical counters, never wrapped. The batch currently accepting
/// appends is `batches[head % n]`; the oldest not-yet-reclaimed one is
/// `batches[tail % n]`.
pub ghost struct RingView {
    pub batches: Seq<BatchView>,
    pub head: nat,
    pub tail: nat,
}

impl RingView {
    pub open spec fn n(self) -> int {
        self.batches.len() as int
    }

    pub open spec fn cap(self) -> nat {
        self.batches[0].capacity
    }

    pub open spec fn tensor_size(self) -> nat {
        self.batches[0].tensor_size
    }

    pub open spec fn head_slot(self) -> int {
        wrap_index(self.head as int, self.n())
    }

    pub open spec fn tail_slot(self) -> int {
        wrap_index(self.tail as int, self.n())
    }

    /// The batch at the head, the one appends are routed to.
    pub open spec fn cur(self) -> BatchView {
        self.batches[self.head_slot()]
    }

    /// How many batches are retired and awaiting reclamation: the logical
    /// distance `head - tail`, which never exceeds `n`.
    pub open spec fn occupied(self) -> int {
        self.head - self.tail
    }

    /// The ring invariant. Batches strictly between tail and head (the
    /// retired ones) have every slot reserved; batches beyond the head (the
    /// free ones) are untouched since their last reset; sequential filling
    /// keeps every batch's written count equal to its reserved count.
    pub open spec fn wf(self) -> bool {
        &&& self.batches.len() >= 1
        &&& self.tail <= self.head <= self.tail + self.batches.len()
        &&& (forall|j: int|
            0 <= j < self.n() ==> (#[trigger] self.batches[j]).wf()
                && self.batches[j].capacity == self.cap() && self.batches[j].tensor_size
                == self.tensor_size() && self.batches[j].written == self.batches[j].reserved)
        &&& (forall|l: int|
            #![trigger wrap_index(l, self.n())]
            self.tail <= l < self.head ==> self.batches[wrap_index(l, self.n())].reserved
                == self.cap())
        &&& (forall|l: int|
            #![trigger wrap_index(l, self.n())]
            self.head < l < self.tail + self.n() ==> self.batches[wrap_index(l, self.n())].reserved
                == 0)
    }

    /// Backpressure: an append must fail — the current batch has no free
    /// slot and advancing the head would exceed the occupancy bound.
    pub open spec fn append_rejects(self) -> bool {
        self.cur().reserved == self.cap() && self.head + 1 >= self.tail + self.n()
    }
}

/// Ring occupancy bound: in any well-formed ring the logical distance
/// between head and tail never exceeds the number of batches.
pub proof fn lemma_occupancy_bound(v: RingView)
    requires
        v.wf(),
    ensures
        0 <= v.occupied() <= v.n(),
{
}

/// The outer ring buffer: a fixed set of batches cycled through by a write
/// head and a reclaim tail. The logical counters are ghost; the physical
/// indices and the occupancy count kept alongside are tied to them by the
/// invariant.
pub struct BatchRingBuffer {
    buffer: Vec<TensorBatch>,
    head_idx: usize,
    tail_idx: usize,
    occupied: usize,
    head: Ghost<nat>,
    tail: Ghost<nat>,
}

impl View for BatchRingBuffer {
    type V = RingView;

    closed spec fn view(&self) -> RingView {
        RingView {
            batches: self.buffer@.map_values(|b: TensorBatch| b@),
            head: self.head@,
            tail: self.tail@,
        }
    }
}

impl BatchRingBuffer {
    /// The ring's well-formedness, together with the correspondence between
    /// the physical fields and the logical counters.
    pub closed spec fn inv(&self) -> bool {
        &&& self@.wf()
        &&& self.head_idx < self.buffer.len()
        &&& self.tail_idx < self.buffer.len()
        &&& self.head_idx as int == self@.head_slot()
        &&& self.tail_idx as int == self@.tail_slot()
        &&& self.occupied as int == self@.occupied()
    }

    /// Construct a ring of `batches_nr` fresh batches, head and tail at
    /// zero. The batch count must be a nonzero power of two.
    pub fn new(batches_nr: usize, tensor_size: usize, capacity: usize) -> (r: BatchRingBuffer)
        requires
            spec_is_power_of_two(batches_nr),
            tensor_size >= 1,
            capacity >= 1,
            capacity * tensor_size <= usize::MAX,
        ensures
            r.inv(),
            r@.wf(),
            r@.n() == batches_nr as int,
            r@.head == 0,
            r@.tail == 0,
            r@.cap() == capacity as nat,
            r@.tensor_size() == tensor_size as nat,
            forall|j: int| 0 <= j < batches_nr ==> (#[trigger] r@.batches[j]).is_fresh(),
    {
        let mut buffer: Vec<TensorBatch> = Vec::new();
        let mut k: usize = 0;
        while k < batches_nr
            invariant
                k <= batches_nr,
                tensor_size >= 1,
                capacity >= 1,
                capacity * tensor_size <= usize::MAX,
                buffer@.len() == k as nat,
                forall|j: int|
                    0 <= j < k ==> (#[trigger] buffer@[j])@.wf() && buffer@[j]@.is_fresh()
                        && buffer@[j]@.capacity == capacity as nat && buffer@[j]@.tensor_size
                        == tensor_size as nat,
            decreases batches_nr - k,
        {
            buffer.push(TensorBatch::new(tensor_size, capacity));
            k = k + 1;
        }
        let r = BatchRingBuffer {
            buffer,
            head_idx: 0,
            tail_idx: 0,
            occupied: 0,
            head: Ghost(0nat),
            tail: Ghost(0nat),
        };
        proof {
            let v = r@;
            let n = v.n();
            assert(n == batches_nr as int);
            assert forall|j: int| 0 <= j < n implies (#[trigger] v.batches[j]).wf()
                && v.batches[j].is_fresh() && v.batches[j].capacity == capacity as nat
                && v.batches[j].tensor_size == tensor_size as nat by {
                assert(v.batches[j] == r.buffer@[j]@);
            }
            assert(wrap_index(0, n) == 0) by {
                lemma_small_mod(0, n as nat);
            }
            assert forall|l: int| 0 < l < n implies v.batches[
                #[trigger] wrap_index(l, n)].reserved == 0 by {
                lemma_small_mod(l as nat, n as nat);
            }
        }
        r
    }

    /// Append one record of exactly `tensor_size` bytes. The fast path
    /// writes into the batch at the head; if that batch has no free slot the
    /// head advances to the next batch — unless every batch is occupied, in
    /// which case the caller sees `AllBuffersFull` as backpressure. A
    /// successful append returns the slot index granted inside the batch
    /// that received the record.
    pub fn append(&mut self, data: &[u8]) -> (r: Result<usize, AppendError>)
        requires
            old(self).inv(),
            data@.len() == old(self)@.tensor_size(),
        ensures
            final(self).inv(),
            final(self)@.wf(),
            final(self)@.n() == old(self)@.n(),
            final(self)@.cap() == old(self)@.cap(),
            final(self)@.tensor_size() == old(self)@.tensor_size(),
            final(self)@.tail == old(self)@.tail,
            (r is Err) == old(self)@.append_rejects(),
            r is Err ==> r == Err::<usize, AppendError>(AppendError::AllBuffersFull) && final(self)@.batches == old(self)@.batches && final(self)@.head == (if old(self)@.occupied()
                == old(self)@.n() {
                old(self)@.head
            } else {
                (old(self)@.head + 1) as nat
            }),
            old(self)@.cur().grants() ==> final(self)@.head == old(self)@.head && final(self)@.batches == old(self)@.batches.update(
                old(self)@.head_slot(),
                batch_append_step(old(self)@.cur(), data@),
            ) && r is Ok && (r matches Ok(i) ==> i as nat == old(self)@.cur().reserved),
            (!old(self)@.cur().grants() && old(self)@.head + 1 < old(self)@.tail + old(self)@.n()) ==> final(self)@.head == old(self)@.head + 1 && final(self)@.batches == old(self)@.batches.update(
                wrap_index(old(self)@.head as int + 1, old(self)@.n()),
                batch_append_step(
                    old(self)@.batches[wrap_index(old(self)@.head as int + 1, old(self)@.n())],
                    data@,
                ),
            ) && r is Ok && (r matches Ok(i) ==> i == 0usize),
    {
        let ghost v0 = self@;
        let n = self.buffer.len();
        let hi = self.head_idx;
        let mut b = self.buffer.remove(hi);
        proof {
            assert(b@ == v0.batches[hi as int]);
        }
        let r1 = b.append(data);
        let ghost bv1 = b@;
        self.buffer.insert(hi, b);
        proof {
            assert(self@.batches =~= v0.batches.update(hi as int, bv1));
        }
        match r1 {
            Some(i) => {
                proof {
                    lemma_wf_after_append_at_head(v0, self@, data@);
                }
                Ok(i)
            },
            None => {
                proof {
                    assert(self@.batches =~= v0.batches);
                }
                if self.occupied == n {
                    proof {
                        lemma_wrap_add_n(v0.tail as int, v0.n());
                        assert(v0.batches[wrap_index(v0.tail as int, v0.n())].reserved
                            == v0.cap());
                    }
                    return Err(AppendError::AllBuffersFull);
                }
                // the current batch is full and a free batch exists: advance
                // the head and retry against the next batch.
                self.head_idx = if hi + 1 == n {
                    0
                } else {
                    hi + 1
                };
                self.occupied = self.occupied + 1;
                proof {
                    self.head@ = (self.head@ + 1) as nat;
                    lemma_wrap_step(v0.head as int, v0.n());
                    lemma_wf_after_advance(v0, self@);
                }
                let ghost vmid = self@;
                let hi2 = self.head_idx;
                let mut b2 = self.buffer.remove(hi2);
                proof {
                    assert(b2@ == vmid.batches[hi2 as int]);
                }
                let r2 = b2.append(data);
                let ghost bv2 = b2@;
                self.buffer.insert(hi2, b2);
                proof {
                    assert(self@.batches =~= vmid.batches.update(hi2 as int, bv2));
                }
                match r2 {
                    Some(i) => {
                        proof {
                            lemma_wf_after_append_at_head(vmid, self@, data@);
                        }
                        Ok(i)
                    },
                    None => {
                        proof {
                            assert(self@.batches =~= vmid.batches);
                            // a rejecting batch right after an advance means
                            // the ring is completely occupied.
                            if vmid.head < vmid.tail + vmid.n() {
                                assert(vmid.cur().reserved == 0);
                                assert(false);
                            }
                        }
                        Err(AppendError::AllBuffersFull)
                    },
                }
            },
        }
    }

    /// Reclaim the oldest retired batch: reset it for reuse and advance the
    /// tail. `NotReady` means nothing is pending reclamation (`head ==
    /// tail`); it is always safe to retry later. One consumer at a time is
    /// the discipline here, and the exclusive borrow enforces it, which is
    /// what makes resetting before the tail advances safe.
    pub fn consume_buffer(&mut self) -> (r: Result<(), AppendError>)
        requires
            old(self).inv(),
        ensures
            final(self).inv(),
            final(self)@.wf(),
            final(self)@.n() == old(self)@.n(),
            final(self)@.cap() == old(self)@.cap(),
            final(self)@.tensor_size() == old(self)@.tensor_size(),
            final(self)@.head == old(self)@.head,
            (r is Err) == (old(self)@.head == old(self)@.tail),
            r is Err ==> r == Err::<(), AppendError>(AppendError::NotReady) && final(self)@.batches == old(self)@.batches && final(self)@.tail == old(self)@.tail,
            r is Ok ==> final(self)@.tail == old(self)@.tail + 1 && final(self)@.batches == old(self)@.batches.update(
                old(self)@.tail_slot(),
                batch_reset_step(old(self)@.batches[old(self)@.tail_slot()]),
            ),
    {
        let ghost v0 = self@;
        if self.occupied == 0 {
            return Err(AppendError::NotReady);
        }
        let n = self.buffer.len();
        let ti = self.tail_idx;
        let mut b = self.buffer.remove(ti);
        b.reset();
        let ghost bv = b@;
        self.buffer.insert(ti, b);
        proof {
            assert(self@.batches =~= v0.batches.update(ti as int, bv));
        }
        self.tail_idx = if ti + 1 == n {
            0
        } else {
            ti + 1
        };
        self.occupied = self.occupied - 1;
        proof {
            self.tail@ = (self.tail@ + 1) as nat;
            lemma_wrap_step(v0.tail as int, v0.n());
            lemma_wf_after_reclaim(v0, self@);
        }
        Ok(())
    }
}

/// After a granted append into the batch at the head, the ring is still
/// well-formed: only the current batch changed, and only its counters grew.
proof fn lemma_wf_after_append_at_head(v0: RingView, v1: RingView, rec: Seq<u8>)
    requires
        v0.wf(),
        v0.cur().grants(),
        rec.len() == v0.tensor_size(),
        v1.batches == v0.batches.update(v0.head_slot(), batch_append_step(v0.cur(), rec)),
        v1.head == v0.head,
        v1.tail == v0.tail,
    ensures
        v1.wf(),
        v1.cap() == v0.cap(),
        v1.tensor_size() == v0.tensor_size(),
        v1.head_slot() == v0.head_slot(),
        v1.tail_slot() == v0.tail_slot(),
{
    let n = v0.n();
    // the head batch cannot grant a slot while the ring is completely
    // occupied: in that state it is the retired batch at the tail.
    if v0.head == v0.tail + n {
        lemma_wrap_add_n(v0.tail as int, n);
        assert(v0.batches[wrap_index(v0.tail as int, n)].reserved == v0.cap());
        assert(false);
    }
    lemma_wrap_bound(v0.head as int, n);
    let hs = v0.head_slot();
    assert forall|j: int| 0 <= j < v1.n() implies (#[trigger] v1.batches[j]).wf()
        && v1.batches[j].capacity == v1.cap() && v1.batches[j].tensor_size == v1.tensor_size()
        && v1.batches[j].written == v1.batches[j].reserved by {
        if j == hs {
            assert(v1.batches[j] == batch_append_step(v0.cur(), rec));
        } else {
            assert(v1.batches[j] == v0.batches[j]);
        }
    }
    assert forall|l: int| #![trigger wrap_index(l, v1.n())] v1.tail <= l < v1.head implies
        v1.batches[wrap_index(l, v1.n())].reserved == v1.cap() by {
        lemma_wrap_bound(l, n);
        if wrap_index(l, n) == wrap_index(v0.head as int, n) {
            lemma_wrap_distinct(l, v0.head as int, v0.tail as int, n);
        }
        assert(v0.batches[wrap_index(l, n)].reserved == v0.cap());
    }
    assert forall|l: int| #![trigger wrap_index(l, v1.n())] v1.head < l < v1.tail + v1.n() implies
        v1.batches[wrap_index(l, v1.n())].reserved == 0 by {
        lemma_wrap_bound(l, n);
        if wrap_index(l, n) == wrap_index(v0.head as int, n) {
            lemma_wrap_distinct(l, v0.head as int, v0.tail as int, n);
        }
        assert(v0.batches[wrap_index(l, n)].reserved == 0);
    }
}

/// Advancing the head past a full batch keeps the ring well-formed: the
/// batch left behind joins the retired window, and the new current batch is
/// either a free batch or, when the ring is now completely occupied, the
/// retired batch at the tail.
proof fn lemma_wf_after_advance(v0: RingView, v1: RingView)
    requires
        v0.wf(),
        v0.cur().reserved == v0.cap(),
        v0.head + 1 <= v0.tail + v0.n(),
        v1.batches == v0.batches,
        v1.head == v0.head + 1,
        v1.tail == v0.tail,
    ensures
        v1.wf(),
        v1.cap() == v0.cap(),
        v1.tensor_size() == v0.tensor_size(),
        v1.head < v1.tail + v1.n() ==> v1.cur().reserved == 0,
        v1.head == v1.tail + v1.n() ==> v1.cur().reserved == v1.cap(),
{
    let n = v0.n();
    assert forall|l: int| #![trigger wrap_index(l, v1.n())] v1.tail <= l < v1.head implies
        v1.batches[wrap_index(l, v1.n())].reserved == v1.cap() by {
        if l < v0.head {
            assert(v0.batches[wrap_index(l, n)].reserved == v0.cap());
        } else {
            assert(l == v0.head);
            assert(v0.batches[wrap_index(v0.head as int, n)].reserved == v0.cap());
        }
    }
    assert forall|l: int| #![trigger wrap_index(l, v1.n())] v1.head < l < v1.tail + v1.n() implies
        v1.batches[wrap_index(l, v1.n())].reserved == 0 by {
        assert(v0.batches[wrap_index(l, n)].reserved == 0);
    }
    if v1.head < v1.tail + n {
        assert(v0.batches[wrap_index(v0.head as int + 1, n)].reserved == 0);
    } else {
        lemma_wrap_add_n(v0.tail as int, n);
        if v0.tail < v0.head {
            assert(v0.batches[wrap_index(v0.tail as int, n)].reserved == v0.cap());
        } else {
            // head == tail and n == 1: the current batch is the tail batch.
            assert(v0.head == v0.tail);
            assert(wrap_index(v0.head as int + 1, n) == wrap_index(v0.head as int, n));
        }
    }
}

/// Resetting the batch at the tail and advancing the tail keeps the ring
/// well-formed: the reset batch leaves the retired window and becomes free.
proof fn lemma_wf_after_reclaim(v0: RingView, v1: RingView)
    requires
        v0.wf(),
        v0.tail < v0.head,
        v1.batches == v0.batches.update(
            v0.tail_slot(),
            batch_reset_step(v0.batches[v0.tail_slot()]),
        ),
        v1.head == v0.head,
        v1.tail == v0.tail + 1,
    ensures
        v1.wf(),
        v1.cap() == v0.cap(),
        v1.tensor_size() == v0.tensor_size(),
{
    let n = v0.n();
    lemma_wrap_bound(v0.tail as int, n);
    let ts = v0.tail_slot();
    assert forall|j: int| 0 <= j < v1.n() implies (#[trigger] v1.batches[j]).wf()
        && v1.batches[j].capacity == v1.cap() && v1.batches[j].tensor_size == v1.tensor_size()
        && v1.batches[j].written == v1.batches[j].reserved by {
        if j == ts {
            assert(v1.batches[j] == batch_reset_step(v0.batches[ts]));
        } else {
            assert(v1.batches[j] == v0.batches[j]);
        }
    }
    assert forall|l: int| #![trigger wrap_index(l, v1.n())] v1.tail <= l < v1.head implies
        v1.batches[wrap_index(l, v1.n())].reserved == v1.cap() by {
        lemma_wrap_bound(l, n);
        if wrap_index(l, n) == wrap_index(v0.tail as int, n) {
            lemma_wrap_distinct(l, v0.tail as int, v0.tail as int, n);
        }
        assert(v0.batches[wrap_index(l, n)].reserved == v0.cap());
    }
    assert forall|l: int| #![trigger wrap_index(l, v1.n())] v1.head < l < v1.tail + v1.n() implies
        v1.batches[wrap_index(l, v1.n())].reserved == 0 by {
        lemma_wrap_bound(l, n);
        if l == v0.tail + n {
            lemma_wrap_add_n(v0.tail as int, n);
        } else {
            if wrap_index(l, n) == wrap_index(v0.tail as int, n) {
                lemma_wrap_distinct(l, v0.tail as int, v0.tail as int, n);
            }
            assert(v0.batches[wrap_index(l, n)].reserved == 0);
        }
    }
}

} // verus!
