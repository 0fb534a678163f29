//! Read-only projection of the store for the HTTP surface: every record is
//! turned into a display entry and the listing is sorted by timestamp,
//! ascending or descending. `last` yields the most recent entry alone.

use vstd::prelude::*;
use vstd::multiset::Multiset;
use vstd::seq_lib::group_to_multiset_ensures;

use crate::data::{Record, RecordEntry};
use crate::store::Store;

verus! {

broadcast use group_to_multiset_ensures;

/// Timestamp order used by a listing: ascending by default, descending when
/// the query asks for it.
pub open spec fn le_by_date(descending: bool, a: Record, b: Record) -> bool {
    if descending {
        a.date >= b.date
    } else {
        a.date <= b.date
    }
}

/// The record sequence is sorted for the requested order.
pub open spec fn sorted_by_date(rs: Seq<Record>, descending: bool) -> bool {
    forall|i: int, j: int| 0 <= i <= j < rs.len() ==> le_by_date(descending, rs[i], rs[j])
}

/// The rendered date string of a record: the localized form for timestamps
/// the calendar library accepts, the empty string otherwise.
pub open spec fn entry_date_view(ts: int) -> Seq<char> {
    if 0 <= ts <= 250_000_000_000 {
        rfc2822_paris_of(ts)
    } else {
        Seq::<char>::empty()
    }
}

/// The display entry `e` is exactly the projection of record `r`.
pub open spec fn entry_matches(e: RecordEntry, r: Record) -> bool {
    &&& e.temperature_bits == r.value.temperature_bits
    &&& e.humidity_bits == r.value.humidity_bits
    &&& e.timestamp == r.date
    &&& e.date@ == entry_date_view(r.date as int)
}

/// Entry sequence `es` is the element-wise projection of record sequence `rs`.
pub open spec fn entries_match_seq(es: Seq<RecordEntry>, rs: Seq<Record>) -> bool {
    es.len() == rs.len() && forall|i: int| 0 <= i < rs.len() ==> entry_matches(es[i], rs[i])
}

/// Entry `e` projects a maximum-timestamp record of `records`, and the
/// latest such record in snapshot order when timestamps tie.
pub open spec fn is_latest_entry(e: RecordEntry, records: Seq<Record>) -> bool {
    exists|i: int|
        {
            &&& 0 <= i < records.len()
            &&& #[trigger] entry_matches(e, records[i])
            &&& forall|j: int| 0 <= j < records.len() ==> records[j].date <= records[i].date
            &&& forall|j: int| i < j < records.len() ==> records[j].date < records[i].date
        }
}

/// What a calendar render of a Unix-seconds timestamp in the Europe/Paris
/// time zone looks like; fixed by the timestamp alone.
pub uninterp spec fn rfc2822_paris_of(ts: int) -> Seq<char>;

/// Relies on chrono's `DateTime::from_timestamp` and `to_rfc2822`, and on
/// chrono-tz's `Europe/Paris` table: within the admitted range the timestamp
/// is representable, the rendered year has at most four digits, and the
/// resulting string depends on the timestamp alone.
#[verifier::external_body]
fn format_paris(ts: i64) -> (r: String)
    requires
        0 <= ts <= 250_000_000_000,
    ensures
        r@ == rfc2822_paris_of(ts as int),
{
    chrono::DateTime::from_timestamp(ts, 0)
        .map(|d| d.with_timezone(&chrono_tz::Tz::Europe__Paris).to_rfc2822())
        .unwrap_or_default()
}

/// Project one record into its display entry. Timestamps outside the range
/// the calendar library accepts render as an empty date string.
pub fn entry_of(rec: &Record) -> (e: RecordEntry)
    ensures
        entry_matches(e, *rec),
{
    let date = if 0 <= rec.date && rec.date <= 250_000_000_000 {
        format_paris(rec.date)
    } else {
        String::new()
    };
    RecordEntry {
        temperature_bits: rec.value.temperature_bits,
        humidity_bits: rec.value.humidity_bits,
        timestamp: rec.date,
        date,
    }
}

impl Store {
    /// A snapshot of the records sorted by capture time in the requested
    /// order: a permutation of the store's contents.
    pub fn sorted_records(&self, descending: bool) -> (out: Vec<Record>)
        ensures
            out@.len() == self.records@.len(),
            out@.to_multiset() == self.records@.to_multiset(),
            sorted_by_date(out@, descending),
    {
        let n = self.records.len();
        let mut src: Vec<Record> = Vec::new();
        let mut i: usize = 0;
        while i < n
            invariant
                n == self.records@.len(),
                0 <= i <= n,
                src@ == self.records@.take(i as int),
            decreases n - i,
        {
            src.push(self.records[i]);
            assert(src@ =~= self.records@.take(i + 1));
            i += 1;
        }
        assert(src@ =~= self.records@);

        let mut out: Vec<Record> = Vec::new();
        while src.len() > 0
            invariant
                out@.to_multiset().add(src@.to_multiset()) == self.records@.to_multiset(),
                out@.len() + src@.len() == self.records@.len(),
                sorted_by_date(out@, descending),
                forall|a: int, b: int|
                    0 <= a < out@.len() && 0 <= b < src@.len() ==> le_by_date(
                        descending,
                        out@[a],
                        src@[b],
                    ),
            decreases src@.len(),
        {
            let m = src.len();
            let mut best: usize = 0;
            let mut j: usize = 1;
            while j < m
                invariant
                    m == src@.len(),
                    0 <= best < m,
                    1 <= j <= m,
                    forall|k: int| 0 <= k < j ==> le_by_date(descending, src@[best as int], src@[k]),
                decreases m - j,
            {
                let better = if descending {
                    src[j].date > src[best].date
                } else {
                    src[j].date < src[best].date
                };
                if better {
                    best = j;
                }
                j += 1;
            }
            let ghost old_out = out@;
            let ghost old_src = src@;
            let picked = src.remove(best);
            out.push(picked);
            proof {
                assert(old_src.remove(best as int).to_multiset() == old_src.to_multiset().remove(
                    old_src[best as int],
                ));
                assert(out@.to_multiset() == old_out.to_multiset().insert(picked));
                assert(old_src.to_multiset().count(picked) > 0) by {
                    assert(old_src.contains(picked));
                }
                assert(out@.to_multiset().add(src@.to_multiset()) =~= old_out.to_multiset().add(
                    old_src.to_multiset(),
                ));
                assert forall|b: int| 0 <= b < src@.len() implies le_by_date(
                    descending,
                    picked,
                    src@[b],
                ) by {
                    if b < best {
                        assert(src@[b] == old_src[b]);
                    } else {
                        assert(src@[b] == old_src[b + 1]);
                    }
                }
            }
        }
        proof {
            assert(src@.to_multiset() =~= Multiset::<Record>::empty());
            assert(out@.to_multiset() =~= out@.to_multiset().add(src@.to_multiset()));
        }
        out
    }

    /// The full listing served over HTTP: every record projected to a display
    /// entry, sorted by timestamp in the requested order. The result is the
    /// element-wise projection of a sorted permutation of the snapshot, and
    /// its timestamps are non-decreasing (ascending) or non-increasing
    /// (descending) throughout.
    pub fn list(&self, descending: bool) -> (out: Vec<RecordEntry>)
        ensures
            out@.len() == self.records@.len(),
            forall|i: int, j: int|
                0 <= i <= j < out@.len() ==> if descending {
                    out@[i].timestamp >= out@[j].timestamp
                } else {
                    out@[i].timestamp <= out@[j].timestamp
                },
            exists|rs: Seq<Record>|
                rs.to_multiset() == self.records@.to_multiset() && sorted_by_date(rs, descending)
                    && #[trigger] entries_match_seq(out@, rs),
    {
        let rs = self.sorted_records(descending);
        let n = rs.len();
        let mut out: Vec<RecordEntry> = Vec::new();
        let mut i: usize = 0;
        while i < n
            invariant
                n == rs@.len(),
                0 <= i <= n,
                out@.len() == i,
                forall|k: int| 0 <= k < i ==> entry_matches(out@[k], rs@[k]),
            decreases n - i,
        {
            let e = entry_of(&rs[i]);
            out.push(e);
            i += 1;
        }
        proof {
            assert(entries_match_seq(out@, rs@));
            assert forall|a: int, b: int| 0 <= a <= b < out@.len() implies (if descending {
                out@[a].timestamp >= out@[b].timestamp
            } else {
                out@[a].timestamp <= out@[b].timestamp
            }) by {
                assert(entry_matches(out@[a], rs@[a]));
                assert(entry_matches(out@[b], rs@[b]));
                assert(le_by_date(descending, rs@[a], rs@[b]));
            }
        }
        out
    }

    /// The single most recent entry: the projection of a maximum-timestamp
    /// record, the latest such record in snapshot order when timestamps tie;
    /// absent exactly when the store is empty.
    pub fn last(&self) -> (r: Option<RecordEntry>)
        ensures
            r is Some <==> self.records@.len() > 0,
            r matches Some(e) ==> is_latest_entry(e, self.records@),
    {
        let n = self.records.len();
        if n == 0 {
            return None;
        }
        let mut best: usize = 0;
        let mut j: usize = 1;
        while j < n
            invariant
                n == self.records@.len(),
                0 <= best < j <= n,
                forall|k: int|
                    0 <= k < j ==> self.records@[k].date <= self.records@[best as int].date,
                forall|k: int|
                    best < k < j ==> self.records@[k].date < self.records@[best as int].date,
            decreases n - j,
        {
            if self.records[j].date >= self.records[best].date {
                best = j;
            }
            j += 1;
        }
        let e = entry_of(&self.records[best]);
        proof {
            let i = best as int;
            assert(0 <= i < self.records@.len());
            assert(entry_matches(e, self.records@[i]));
            assert(forall|k: int|
                0 <= k < self.records@.len() ==> self.records@[k].date
                    <= self.records@[i].date);
            assert(forall|k: int|
                i < k < self.records@.len() ==> self.records@[k].date
                    < self.records@[i].date);
            assert(is_latest_entry(e, self.records@));
        }
        Some(e)
    }
}

/// Law: the final element of any ascending-sorted permutation of a snapshot
/// is a maximum-timestamp element of that snapshot — so `last` agrees with
/// the tail of the ascending listing.
pub proof fn lemma_last_is_max(records: Seq<Record>, rs: Seq<Record>)
    requires
        rs.to_multiset() == records.to_multiset(),
        sorted_by_date(rs, false),
        rs.len() > 0,
    ensures
        records.len() == rs.len(),
        exists|i: int| 0 <= i < records.len() && records[i] == rs.last(),
        forall|j: int| 0 <= j < records.len() ==> records[j].date <= rs.last().date,
{
    assert(records.len() == rs.len()) by {
        assert(records.to_multiset().len() == records.len());
        assert(rs.to_multiset().len() == rs.len());
    }
    assert(records.contains(rs.last())) by {
        assert(rs.contains(rs.last()));
        assert(rs.to_multiset().count(rs.last()) > 0);
        assert(records.to_multiset().count(rs.last()) > 0);
    }
    assert(exists|i: int| 0 <= i < records.len() && records[i] == rs.last()) by {
        let i = choose|i: int| 0 <= i < records.len() && records[i] == rs.last();
        assert(records.contains(rs.last()));
    }
    assert forall|j: int| 0 <= j < records.len() implies records[j].date <= rs.last().date by {
        assert(records.contains(records[j]));
        assert(records.to_multiset().count(records[j]) > 0);
        assert(rs.to_multiset().count(records[j]) > 0);
        assert(rs.contains(records[j]));
        let k = choose|k: int| 0 <= k < rs.len() && rs[k] == records[j];
        assert(le_by_date(false, rs[k], rs[rs.len() - 1]));
    }
}

} // verus!
