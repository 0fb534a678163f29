//! The bounded rolling history of records: a fixed-capacity ring.
//!
//! The store holds at most [`CAP`] records. While it is below capacity an
//! accepted reading is appended; once it is full, the record at the cursor is
//! overwritten. The cursor advances by one position per accepted write and
//! wraps modulo [`CAP`], so from an empty store eviction is strictly FIFO.

use vstd::prelude::*;

use crate::data::{Reading, Record};

verus! {

/// Maximum number of records the store ever holds.
pub const CAP: usize = 144;

/// The record sequence after one accepted write: append below capacity,
/// otherwise overwrite the slot at `cursor`.
pub open spec fn accept_records(recs: Seq<Record>, cursor: int, rec: Record) -> Seq<Record> {
    if recs.len() < CAP {
        recs.push(rec)
    } else {
        recs.update(cursor, rec)
    }
}

/// The record sequence reached by accepting `inputs` in order, starting from
/// an empty store, whose cursor equals the count of accepted writes mod `CAP`.
pub open spec fn store_after(inputs: Seq<Record>) -> Seq<Record>
    decreases inputs.len(),
{
    if inputs.len() == 0 {
        Seq::empty()
    } else {
        accept_records(
            store_after(inputs.drop_last()),
            ((inputs.len() - 1) as int) % (CAP as int),
            inputs.last(),
        )
    }
}

/// Index of the write whose record occupies slot `j` after `n` accepted
/// writes from an empty store: the largest `m < n` with `m % CAP == j`.
pub open spec fn slot_source(n: int, j: int) -> int {
    if n <= CAP {
        j
    } else if j < n % (CAP as int) {
        n - n % (CAP as int) + j
    } else {
        n - n % (CAP as int) + j - CAP
    }
}

/// The bounded history of records together with its overwrite cursor.
pub struct Store {
    pub records: Vec<Record>,
    pub cursor: usize,
}

impl Store {
    /// Structural invariant: never more than `CAP` records, cursor in range.
    pub open spec fn wf(self) -> bool {
        self.records@.len() <= CAP && self.cursor < CAP
    }

    /// An empty store, as used when no persisted history could be read.
    pub fn new() -> (s: Store)
        ensures
            s.wf(),
            s.records@ == Seq::<Record>::empty(),
            s.cursor == 0,
    {
        Store { records: Vec::new(), cursor: 0 }
    }

    /// The store at startup from a reloaded record sequence. The cursor is
    /// not persisted and restarts at the first slot.
    pub fn from_loaded(records: Vec<Record>) -> (s: Store)
        requires
            records@.len() <= CAP,
        ensures
            s.wf(),
            s.records@ == records@,
            s.cursor == 0,
    {
        Store { records, cursor: 0 }
    }

    /// Number of records currently held.
    pub fn len(&self) -> (n: usize)
        ensures
            n == self.records@.len(),
    {
        self.records.len()
    }

    /// Accept one reading stamped with capture time `date`: append below
    /// capacity, otherwise overwrite at the cursor; the cursor advances by
    /// one and wraps modulo `CAP`.
    pub fn accept_at(&mut self, value: Reading, date: i64)
        requires
            old(self).wf(),
        ensures
            final(self).wf(),
            final(self).records@ == accept_records(
                old(self).records@,
                old(self).cursor as int,
                Record { value, date },
            ),
            final(self).cursor == (old(self).cursor + 1) % (CAP as int),
    {
        let rec = Record { value, date };
        if self.records.len() < CAP {
            self.records.push(rec);
        } else {
            self.records.set(self.cursor, rec);
        }
        self.cursor = (self.cursor + 1) % CAP;
    }

    /// Accept one reading stamped with the wall clock at the moment of
    /// acceptance: some capture time is recorded, and the ring advances by
    /// exactly one write with it.
    pub fn accept(&mut self, value: Reading)
        requires
            old(self).wf(),
        ensures
            final(self).wf(),
            exists|ts: i64|
                final(self).records@ == accept_records(
                    old(self).records@,
                    old(self).cursor as int,
                    Record { value, date: ts },
                ),
            final(self).cursor == (old(self).cursor + 1) % (CAP as int),
    {
        let ts = now_ts();
        self.accept_at(value, ts);
        proof {
            let ghost r = Record { value, date: ts };
            assert(self.records@ == accept_records(
                old(self).records@,
                old(self).cursor as int,
                r,
            ));
        }
    }

    /// Authenticate one external submission and, only on a secret match,
    /// accept its reading exactly as [`Store::accept_at`] does. A rejected
    /// submission leaves the store — length, contents and cursor — unchanged.
    pub fn submit_at(
        &mut self,
        value: Reading,
        date: i64,
        supplied: &Vec<u8>,
        secret: &Vec<u8>,
    ) -> (accepted: bool)
        requires
            old(self).wf(),
        ensures
            final(self).wf(),
            accepted == (supplied@ == secret@),
            accepted ==> final(self).records@ == accept_records(
                old(self).records@,
                old(self).cursor as int,
                Record { value, date },
            ) && final(self).cursor == (old(self).cursor + 1) % (CAP as int),
            !accepted ==> *final(self) == *old(self),
    {
        if bytes_eq(supplied, secret) {
            self.accept_at(value, date);
            true
        } else {
            false
        }
    }
}

/// Relies on chrono's `Utc::now` for the server's wall-clock capture time,
/// as Unix seconds. Nothing is assumed of the value.
#[verifier::external_body]
fn now_ts() -> i64 {
    chrono::Utc::now().timestamp()
}

/// Byte-for-byte equality of two secrets (plain equality, not constant-time).
pub fn bytes_eq(a: &Vec<u8>, b: &Vec<u8>) -> (r: bool)
    ensures
        r == (a@ == b@),
{
    if a.len() != b.len() {
        assert(a@ != b@) by {
            assert(a@.len() != b@.len());
        }
        return false;
    }
    let n = a.len();
    let mut i: usize = 0;
    while i < n
        invariant
            n == a@.len() == b@.len(),
            0 <= i <= n,
            forall|k: int| 0 <= k < i ==> a@[k] == b@[k],
        decreases n - i,
    {
        if a[i] != b[i] {
            return false;
        }
        i += 1;
    }
    assert(a@ =~= b@);
    true
}

/// Law: from an empty store, `N` accepted readings leave exactly
/// `min(N, CAP)` records in the store.
pub proof fn lemma_capacity(inputs: Seq<Record>)
    ensures
        store_after(inputs).len() == if inputs.len() <= CAP {
            inputs.len()
        } else {
            CAP as nat
        },
    decreases inputs.len(),
{
    if inputs.len() > 0 {
        lemma_capacity(inputs.drop_last());
    }
}

/// Law: from an empty store, after `n` accepted writes slot `j` holds the
/// record of write `slot_source(n, j)` — the most recent write to that slot.
pub proof fn lemma_slot_contents(inputs: Seq<Record>)
    ensures
        forall|j: int|
            0 <= j < store_after(inputs).len() ==> store_after(inputs)[j] == inputs[slot_source(
                inputs.len() as int,
                j,
            )],
    decreases inputs.len(),
{
    if inputs.len() > 0 {
        let prev = inputs.drop_last();
        lemma_slot_contents(prev);
        lemma_capacity(prev);
    }
}

/// Law: strict FIFO eviction. Once the store is saturated, the write with
/// index `m` (counting from 0) overwrites exactly the record that was
/// accepted `CAP` writes prior.
pub proof fn lemma_fifo_eviction(inputs: Seq<Record>, m: int)
    requires
        CAP <= m < inputs.len(),
    ensures
        store_after(inputs.take(m))[m % (CAP as int)] == inputs[m - CAP],
        store_after(inputs.take(m + 1))[m % (CAP as int)] == inputs[m],
{
    let before = inputs.take(m);
    let after = inputs.take(m + 1);
    lemma_slot_contents(before);
    lemma_slot_contents(after);
    lemma_capacity(before);
    lemma_capacity(after);
    assert(slot_source(m, m % (CAP as int)) == m - CAP);
    assert(slot_source(m + 1, m % (CAP as int)) == m);
}

/// Law: one more accepted write extends the fold model by one step at the
/// cursor position `inputs.len() % CAP`, matching what `accept_at` ensures.
pub proof fn lemma_accept_step(inputs: Seq<Record>, rec: Record)
    ensures
        store_after(inputs.push(rec)) == accept_records(
            store_after(inputs),
            (inputs.len() as int) % (CAP as int),
            rec,
        ),
{
    let pushed = inputs.push(rec);
    assert(pushed.drop_last() =~= inputs);
    assert(pushed.last() == rec);
}

} // verus!
