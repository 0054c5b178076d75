use vstd::prelude::*;
use vstd::arithmetic::mul::lemma_mul_inequality;

verus! {

/// Errors surfaced by the ring buffer to its callers.
///
/// `AllBuffersFull` is backpressure: every batch of the ring is occupied and
/// none has been reclaimed yet. `NotReady` means there is nothing to reclaim
/// right now. Both are retryable conditions, not faults.
#[derive(Debug, Clone, Copy, PartialEq, Eq)]
pub enum AppendError {
    AllBuffersFull,
    NotReady,
}

/// Mathematical model of one batch: the flat byte storage, the two slot
/// counters, and the fixed geometry (`capacity` slots of `tensor_size` bytes).
pub ghost struct BatchView {
    pub data: Seq<u8>,
    pub reserved: nat,
    pub written: nat,
    pub capacity: nat,
    pub tensor_size: nat,
}

impl BatchView {
    /// Count ordering invariant: `0 <= written <= reserved <= capacity`,
    /// and the storage spans exactly `capacity` slots of `tensor_size` bytes.
    pub open spec fn wf(self) -> bool {
        &&& self.written <= self.reserved <= self.capacity
        &&& self.capacity >= 1
        &&& self.tensor_size >= 1
        &&& self.data.len() == self.capacity * self.tensor_size
    }

    /// A reservation attempt on this batch is granted a slot.
    pub open spec fn grants(self) -> bool {
        self.reserved < self.capacity
    }

    /// The slot index a granted reservation receives: the pre-increment
    /// value of the reservation counter.
    pub open spec fn grant_slot(self) -> nat {
        self.reserved
    }

    /// Ready means every slot has been both reserved and fully written.
    pub open spec fn is_ready(self) -> bool {
        self.written == self.capacity
    }

    /// A batch with no reservations and no writes (new, or just reset).
    pub open spec fn is_fresh(self) -> bool {
        self.reserved == 0 && self.written == 0
    }
}

/// The storage after `rec` has been copied into slot `slot`: bytes inside
/// `[slot * tensor_size, (slot + 1) * tensor_size)` come from `rec`, all
/// others are untouched.
pub open spec fn write_slot(data: Seq<u8>, slot: nat, tensor_size: nat, rec: Seq<u8>) -> Seq<u8> {
    Seq::new(
        data.len(),
        |i: int|
            if slot * tensor_size <= i < (slot + 1) * tensor_size {
                rec[i - slot * tensor_size]
            } else {
                data[i]
            },
    )
}

/// The batch after one append of `rec`: if a slot is granted, the record is
/// stored in it and both counters advance by one; a rejected attempt leaves
/// the batch unchanged.
pub open spec fn batch_append_step(b: BatchView, rec: Seq<u8>) -> BatchView {
    if b.grants() {
        BatchView {
            data: write_slot(b.data, b.reserved, b.tensor_size, rec),
            reserved: b.reserved + 1,
            written: b.written + 1,
            ..b
        }
    } else {
        b
    }
}

/// The batch after a reset: both counters return to zero, the storage is
/// left as it was.
pub open spec fn batch_reset_step(b: BatchView) -> BatchView {
    BatchView { reserved: 0, written: 0, ..b }
}

/// The batch after a whole sequence of appends, applied in order.
pub open spec fn apply_appends(b: BatchView, recs: Seq<Seq<u8>>) -> BatchView
    decreases recs.len(),
{
    if recs.len() == 0 {
        b
    } else {
        batch_append_step(apply_appends(b, recs.drop_last()), recs.last())
    }
}

/// How many of a sequence of appends are granted a slot.
pub open spec fn append_successes(b: BatchView, recs: Seq<Seq<u8>>) -> nat
    decreases recs.len(),
{
    if recs.len() == 0 {
        0
    } else {
        append_successes(b, recs.drop_last()) + (if apply_appends(b, recs.drop_last()).grants() {
            1nat
        } else {
            0nat
        })
    }
}

/// Count ordering invariant: an append step and a reset both keep
/// `0 <= written <= reserved <= capacity`, and a reservation is never
/// counted past the capacity.
pub proof fn lemma_count_ordering(b: BatchView, rec: Seq<u8>)
    requires
        b.wf(),
    ensures
        batch_append_step(b, rec).wf(),
        batch_append_step(b, rec).reserved <= b.capacity,
        batch_reset_step(b).wf(),
        b.is_ready() ==> batch_append_step(b, rec) == b,
{
}

/// The batch after a prefix of `i + 1` appends is one step past the batch
/// after the prefix of `i`.
proof fn lemma_apply_take_step(b: BatchView, recs: Seq<Seq<u8>>, i: int)
    requires
        0 <= i < recs.len(),
    ensures
        apply_appends(b, recs.take(i + 1)) == batch_append_step(
            apply_appends(b, recs.take(i)),
            recs[i],
        ),
{
    assert(recs.take(i + 1).drop_last() =~= recs.take(i));
    assert(recs.take(i + 1).last() == recs[i]);
}

/// The reservation count never decreases along a sequence of appends.
proof fn lemma_reserved_monotone(b: BatchView, recs: Seq<Seq<u8>>, i: int, j: int)
    requires
        0 <= i <= j <= recs.len(),
    ensures
        apply_appends(b, recs.take(j)).reserved >= apply_appends(b, recs.take(i)).reserved,
    decreases j - i,
{
    if i < j {
        lemma_reserved_monotone(b, recs, i, j - 1);
        lemma_apply_take_step(b, recs, j - 1);
    }
}

/// Slot exclusivity: within one generation (no reset in between), two
/// appends that are both granted a slot are granted different slots — a
/// slot index is handed out at most once.
pub proof fn lemma_slot_exclusivity(b: BatchView, recs: Seq<Seq<u8>>, i: int, j: int)
    requires
        0 <= i < j < recs.len(),
        apply_appends(b, recs.take(i)).grants(),
        apply_appends(b, recs.take(j)).grants(),
    ensures
        apply_appends(b, recs.take(i)).grant_slot() != apply_appends(b, recs.take(j)).grant_slot(),
{
    lemma_apply_take_step(b, recs, i);
    lemma_reserved_monotone(b, recs, i + 1, j);
}

/// As long as writes keep pace with reservations — which sequential appends
/// guarantee — the written count equals the number of granted appends.
pub proof fn lemma_written_counts_successes(b: BatchView, recs: Seq<Seq<u8>>)
    requires
        b.written == b.reserved,
    ensures
        apply_appends(b, recs).written == b.written + append_successes(b, recs),
        apply_appends(b, recs).written == apply_appends(b, recs).reserved,
    decreases recs.len(),
{
    if recs.len() > 0 {
        lemma_written_counts_successes(b, recs.drop_last());
    }
}

/// The reservation count saturates at the capacity: each append is granted
/// while there is room and rejected afterwards.
proof fn lemma_reserved_saturates(b: BatchView, recs: Seq<Seq<u8>>)
    requires
        b.reserved <= b.capacity,
    ensures
        apply_appends(b, recs).capacity == b.capacity,
        apply_appends(b, recs).tensor_size == b.tensor_size,
        apply_appends(b, recs).reserved == if b.reserved + recs.len() <= b.capacity {
            b.reserved + recs.len()
        } else {
            b.capacity
        },
        append_successes(b, recs) == apply_appends(b, recs).reserved - b.reserved,
        b.wf() ==> apply_appends(b, recs).wf(),
    decreases recs.len(),
{
    if recs.len() > 0 {
        lemma_reserved_saturates(b, recs.drop_last());
    }
}

/// Readiness correctness: starting from a fresh batch, the batch reports
/// ready exactly when `capacity` appends have been granted and completed.
pub proof fn lemma_readiness_correctness(b: BatchView, recs: Seq<Seq<u8>>)
    requires
        b.wf(),
        b.is_fresh(),
    ensures
        apply_appends(b, recs).is_ready() <==> append_successes(b, recs) == b.capacity,
{
    lemma_written_counts_successes(b, recs);
    lemma_reserved_saturates(b, recs);
}

/// Reset idempotence under correct usage: a fresh batch — new, or just
/// reset — accepts exactly `capacity` appends before reporting full again,
/// and every one of them is granted.
pub proof fn lemma_fresh_accepts_capacity(b: BatchView, recs: Seq<Seq<u8>>)
    requires
        b.is_fresh(),
    ensures
        recs.len() <= b.capacity ==> append_successes(b, recs) == recs.len(),
        recs.len() >= b.capacity ==> append_successes(b, recs) == b.capacity,
        apply_appends(b, recs).grants() <==> recs.len() < b.capacity,
{
    lemma_reserved_saturates(b, recs);
}

/// Records land whole and disjointly: when a fresh batch takes a sequence of
/// appends that all fit, every byte of the record granted slot `k` is found
/// at its place in slot `k` of the storage — no later append disturbs it.
pub proof fn lemma_slots_hold_records(b: BatchView, recs: Seq<Seq<u8>>, k: int, o: int)
    requires
        b.wf(),
        b.is_fresh(),
        recs.len() <= b.capacity,
        forall|m: int| 0 <= m < recs.len() ==> (#[trigger] recs[m]).len() == b.tensor_size,
        0 <= k < recs.len(),
        0 <= o < b.tensor_size,
    ensures
        apply_appends(b, recs).data[k * b.tensor_size + o] == recs[k][o],
    decreases recs.len(),
{
    let ts = b.tensor_size as int;
    let cap = b.capacity as int;
    let prev = recs.drop_last();
    let sp = apply_appends(b, prev);
    lemma_reserved_saturates(b, prev);
    assert((k + 1) * ts == k * ts + ts) by (nonlinear_arith);
    lemma_mul_inequality(k + 1, cap, ts);
    if k == recs.len() - 1 {
        assert(sp.grants());
        assert(apply_appends(b, recs).data == write_slot(sp.data, sp.reserved, sp.tensor_size, recs.last()));
        assert(apply_appends(b, recs).data[k * ts + o] == recs.last()[o]);
    } else {
        lemma_slots_hold_records(b, prev, k, o);
        lemma_mul_inequality(k + 1, sp.reserved as int, ts);
        assert(apply_appends(b, recs).data[k * ts + o] == sp.data[k * ts + o]);
    }
}

/// A fixed-capacity buffer of `capacity` fixed-size records, filled one
/// slot per append and reclaimed wholesale by a reset.
pub struct TensorBatch {
    data: Vec<u8>,
    capacity: usize,
    tensor_size: usize,
    reserved_slots: usize,
    written_slots: usize,
}

impl View for TensorBatch {
    type V = BatchView;

    closed spec fn view(&self) -> BatchView {
        BatchView {
            data: self.data@,
            reserved: self.reserved_slots as nat,
            written: self.written_slots as nat,
            capacity: self.capacity as nat,
            tensor_size: self.tensor_size as nat,
        }
    }
}

impl TensorBatch {
    /// Construct a batch of `capacity` slots, each `tensor_size` bytes,
    /// with zeroed storage and both counters at zero.
    pub fn new(tensor_size: usize, capacity: usize) -> (b: TensorBatch)
        requires
            tensor_size >= 1,
            capacity >= 1,
            capacity * tensor_size <= usize::MAX,
        ensures
            b@.wf(),
            b@.is_fresh(),
            b@.capacity == capacity as nat,
            b@.tensor_size == tensor_size as nat,
            b@.data == Seq::new((capacity * tensor_size) as nat, |i: int| 0u8),
    {
        let total: usize = capacity * tensor_size;
        let mut data: Vec<u8> = Vec::new();
        let mut k: usize = 0;
        while k < total
            invariant
                k <= total,
                data@.len() == k as nat,
                forall|j: int| 0 <= j < k ==> data@[j] == 0u8,
            decreases total - k,
        {
            data.push(0u8);
            k = k + 1;
        }
        assert(data@ =~= Seq::new((capacity * tensor_size) as nat, |i: int| 0u8));
        TensorBatch { data, capacity, tensor_size, reserved_slots: 0, written_slots: 0 }
    }

    /// Reserve a slot and copy `data` into it. Rejected (with `None` and no
    /// change to the batch) exactly when every slot is already reserved;
    /// otherwise the returned index is the pre-increment reservation count,
    /// the record lands in that slot, and both counters advance by one.
    pub fn append(&mut self, data: &[u8]) -> (r: Option<usize>)
        requires
            old(self)@.wf(),
            data@.len() == old(self)@.tensor_size,
        ensures
            final(self)@.wf(),
            final(self)@ == batch_append_step(old(self)@, data@),
            r is Some <==> old(self)@.grants(),
            r matches Some(i) ==> i as nat == old(self)@.grant_slot(),
    {
        if self.reserved_slots >= self.capacity {
            return None;
        }
        let idx = self.reserved_slots;
        let dlen: usize = self.data.len();
        proof {
            lemma_mul_inequality(idx as int + 1, self.capacity as int, self.tensor_size as int);
            assert((idx as int + 1) * (self.tensor_size as int) == idx as int * (self.tensor_size as int)
                + self.tensor_size as int) by (nonlinear_arith);
            assert(idx as int * (self.tensor_size as int) + self.tensor_size as int <= dlen as int);
        }
        let start: usize = idx * self.tensor_size;
        self.reserved_slots = idx + 1;
        let ghost mid = self@;
        let mut k: usize = 0;
        while k < self.tensor_size
            invariant
                k <= mid.tensor_size,
                self@.reserved == mid.reserved,
                self@.written == mid.written,
                self@.capacity == mid.capacity,
                self@.tensor_size == mid.tensor_size,
                data@.len() == mid.tensor_size,
                start == (mid.reserved - 1) * mid.tensor_size,
                start + mid.tensor_size <= mid.data.len(),
                mid.data.len() <= usize::MAX,
                self@.data.len() == mid.data.len(),
                forall|j: int| 0 <= j < k ==> self@.data[start + j] == data@[j],
                forall|j: int|
                    0 <= j < mid.data.len() && !(start <= j < start + k) ==> self@.data[j]
                        == mid.data[j],
            decreases mid.tensor_size - k,
        {
            self.data.set(start + k, data[k]);
            k = k + 1;
        }
        self.written_slots = self.written_slots + 1;
        proof {
            let stepped = batch_append_step(old(self)@, data@);
            assert forall|i: int| 0 <= i < self@.data.len() implies self@.data[i]
                == stepped.data[i] by {
                if start <= i < start + mid.tensor_size {
                    assert(self@.data[i] == data@[i - start]);
                }
            }
            assert(self@.data =~= stepped.data);
        }
        Some(idx)
    }

    /// The full storage, exposed only once the batch is ready; a batch that
    /// is not fully written yields `None`, never partial data.
    pub fn get_data(&self) -> (r: Option<&Vec<u8>>)
        ensures
            r is Some <==> self@.is_ready(),
            r matches Some(v) ==> v@ == self@.data,
    {
        if self.written_slots == self.capacity {
            Some(&self.data)
        } else {
            None
        }
    }

    /// Whether every slot is already reserved (no reservation can be granted;
    /// distinct from ready, which asks that every slot is also written).
    pub fn is_full(&self) -> (r: bool)
        ensures
            r == (self@.reserved >= self@.capacity),
    {
        self.reserved_slots >= self.capacity
    }

    /// The number of slots currently reserved.
    pub fn reserved_count(&self) -> (r: usize)
        ensures
            r as nat == self@.reserved,
    {
        self.reserved_slots
    }

    /// The number of slots fully written.
    pub fn written_count(&self) -> (r: usize)
        ensures
            r as nat == self@.written,
    {
        self.written_slots
    }

    /// Whether the batch is ready: every slot reserved and written.
    pub fn is_ready(&self) -> (r: bool)
        ensures
            r == self@.is_ready(),
    {
        self.written_slots == self.capacity
    }

    /// Reset the batch for reuse: both counters return to zero. The caller
    /// must hold the batch exclusively, which the mutable borrow enforces.
    pub fn reset(&mut self)
        ensures
            final(self)@ == batch_reset_step(old(self)@),
            old(self)@.wf() ==> final(self)@.wf(),
    {
        self.reserved_slots = 0;
        self.written_slots = 0;
    }

    /// The number of slots in this batch.
    pub fn capacity(&self) -> (r: usize)
        ensures
            r as nat == self@.capacity,
    {
        self.capacity
    }

    /// The fixed size in bytes of each record.
    pub fn tensor_size(&self) -> (r: usize)
        ensures
            r as nat == self@.tensor_size,
    {
        self.tensor_size
    }
}

} // verus!
