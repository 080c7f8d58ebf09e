//! The range index: records keyed by the start of their range, answering which
//! record's range holds a given address.
use vstd::prelude::*;
use crate::addr::{Addr, key, addr_le, addr_eq};

verus! {

/// One autonomous-system range entry.
#[derive(Debug)]
pub struct Record {
    pub range_start: Addr,
    pub range_end: Addr,
    pub as_number: u32,
    pub country_code: Vec<u8>,
    pub description: Vec<u8>,
}

/// A record as a mathematical value.
pub struct RecordView {
    pub range_start: Addr,
    pub range_end: Addr,
    pub as_number: u32,
    pub country_code: Seq<u8>,
    pub description: Seq<u8>,
}

impl View for Record {
    type V = RecordView;

    open spec fn view(&self) -> RecordView {
        RecordView {
            range_start: self.range_start,
            range_end: self.range_end,
            as_number: self.as_number,
            country_code: self.country_code@,
            description: self.description@,
        }
    }
}

/// Whether the record's range, both ends included, holds address key `a`.
pub open spec fn holds(r: RecordView, a: int) -> bool {
    key(r.range_start) <= a <= key(r.range_end)
}

} // verus!

verus! {

/// The keys of the records' range starts rise strictly along the sequence.
pub open spec fn strictly_sorted(s: Seq<RecordView>) -> bool {
    forall|i: int, j: int|
        0 <= i < j < s.len() ==> key(#[trigger] s[i].range_start) < key(#[trigger] s[j].range_start)
}

/// Whether some record of `s` starts at address key `k`.
pub open spec fn starts_at(s: Seq<RecordView>, k: int) -> bool {
    exists|i: int| 0 <= i < s.len() && key(#[trigger] s[i].range_start) == k
}

/// The records of `s` keyed by the start of their range.
pub open spec fn map_of(s: Seq<RecordView>) -> Map<int, RecordView> {
    Map::new(
        |k: int| starts_at(s, k),
        |k: int| s[choose|i: int| 0 <= i < s.len() && key(#[trigger] s[i].range_start) == k],
    )
}

/// Whether `k` is the greatest key of `m` at or below `a`.
pub open spec fn is_predecessor(m: Map<int, RecordView>, a: int, k: int) -> bool {
    &&& m.dom().contains(k)
    &&& k <= a
    &&& forall|k2: int| #[trigger] m.dom().contains(k2) && k2 <= a ==> k2 <= k
}

/// The answer of a lookup of address key `a` in the records `m` keyed by range
/// start: the record at the greatest key at or below `a`, provided its range
/// reaches `a`; no record when there is no such key or its range ends below `a`.
pub open spec fn lookup_map(m: Map<int, RecordView>, a: int) -> Option<RecordView> {
    if exists|k: int| is_predecessor(m, a, k) {
        let k = choose|k: int| is_predecessor(m, a, k);
        if a <= key(m[k].range_end) {
            Some(m[k])
        } else {
            None
        }
    } else {
        None
    }
}

/// The records keyed by range start that inserting `rs` in order gives, a later
/// record replacing an earlier one with the same start.
pub open spec fn built(rs: Seq<RecordView>) -> Map<int, RecordView>
    decreases rs.len(),
{
    if rs.len() == 0 {
        Map::empty()
    } else {
        built(rs.drop_last()).insert(key(rs.last().range_start), rs.last())
    }
}

/// The record at an index of a strictly sorted sequence is the one its key maps to.
pub proof fn lemma_map_of_at(s: Seq<RecordView>, i: int)
    requires
        strictly_sorted(s),
        0 <= i < s.len(),
    ensures
        map_of(s).dom().contains(key(s[i].range_start)),
        map_of(s)[key(s[i].range_start)] == s[i],
{
    let k = key(s[i].range_start);
    assert(starts_at(s, k));
    let j = choose|j: int| 0 <= j < s.len() && key(#[trigger] s[j].range_start) == k;
    assert(j == i);
}

/// Placing a record at its place in a strictly sorted sequence adds it to the
/// records keyed by start.
pub proof fn lemma_map_of_insert(s: Seq<RecordView>, n: int, r: RecordView)
    requires
        strictly_sorted(s),
        0 <= n <= s.len(),
        forall|i: int| 0 <= i < n ==> key(#[trigger] s[i].range_start) < key(r.range_start),
        forall|i: int| n <= i < s.len() ==> key(#[trigger] s[i].range_start) > key(r.range_start),
    ensures
        strictly_sorted(s.insert(n, r)),
        map_of(s.insert(n, r)) == map_of(s).insert(key(r.range_start), r),
{
    let t = s.insert(n, r);
    let k = key(r.range_start);
    assert forall|i: int, j: int| 0 <= i < j < t.len() implies key(#[trigger] t[i].range_start) < key(
        #[trigger] t[j].range_start,
    ) by {
        if j < n {
            assert(t[i] == s[i] && t[j] == s[j]);
        } else if j == n {
            assert(t[i] == s[i]);
        } else if i < n {
            assert(t[i] == s[i] && t[j] == s[j - 1]);
        } else if i == n {
            assert(t[j] == s[j - 1]);
        } else {
            assert(t[i] == s[i - 1] && t[j] == s[j - 1]);
        }
    }
    assert forall|k2: int| #[trigger] starts_at(t, k2) <==> (starts_at(s, k2) || k2 == k) by {
        if starts_at(t, k2) {
            let j = choose|j: int| 0 <= j < t.len() && key(#[trigger] t[j].range_start) == k2;
            if j < n {
                assert(s[j] == t[j]);
            } else if j > n {
                assert(s[j - 1] == t[j]);
            }
        }
        if starts_at(s, k2) {
            let j = choose|j: int| 0 <= j < s.len() && key(#[trigger] s[j].range_start) == k2;
            if j < n {
                assert(s[j] == t[j]);
            } else {
                assert(s[j] == t[j + 1]);
            }
        }
        if k2 == k {
            assert(t[n] == r);
        }
    }
    assert forall|k2: int| #[trigger] map_of(t).dom().contains(k2) implies map_of(t)[k2] == map_of(s).insert(k, r)[k2] by {
        if k2 == k {
            lemma_map_of_at(t, n);
        } else {
            let j = choose|j: int| 0 <= j < s.len() && key(#[trigger] s[j].range_start) == k2;
            lemma_map_of_at(s, j);
            if j < n {
                lemma_map_of_at(t, j);
            } else {
                lemma_map_of_at(t, j + 1);
            }
        }
    }
    assert(map_of(t) =~= map_of(s).insert(k, r));
}

/// Replacing a record by one with the same start keeps the sequence strictly
/// sorted and replaces that start's record.
pub proof fn lemma_map_of_update(s: Seq<RecordView>, n: int, r: RecordView)
    requires
        strictly_sorted(s),
        0 <= n < s.len(),
        key(s[n].range_start) == key(r.range_start),
    ensures
        strictly_sorted(s.update(n, r)),
        map_of(s.update(n, r)) == map_of(s).insert(key(r.range_start), r),
{
    let t = s.update(n, r);
    let k = key(r.range_start);
    assert forall|i: int, j: int| 0 <= i < j < t.len() implies key(#[trigger] t[i].range_start) < key(
        #[trigger] t[j].range_start,
    ) by {
        assert(key(s[i].range_start) < key(s[j].range_start));
    }
    assert forall|k2: int| #[trigger] starts_at(t, k2) <==> starts_at(s, k2) by {
        if starts_at(t, k2) {
            let j = choose|j: int| 0 <= j < t.len() && key(#[trigger] t[j].range_start) == k2;
            if j != n {
                assert(s[j] == t[j]);
            } else {
                assert(key(s[n].range_start) == k2);
            }
        }
        if starts_at(s, k2) {
            let j = choose|j: int| 0 <= j < s.len() && key(#[trigger] s[j].range_start) == k2;
            if j != n {
                assert(s[j] == t[j]);
            } else {
                assert(key(t[n].range_start) == k2);
            }
        }
    }
    lemma_map_of_at(s, n);
    assert forall|k2: int| #[trigger] map_of(t).dom().contains(k2) implies map_of(t)[k2] == map_of(s).insert(k, r)[k2] by {
        let j = choose|j: int| 0 <= j < t.len() && key(#[trigger] t[j].range_start) == k2;
        lemma_map_of_at(t, j);
        if j != n {
            lemma_map_of_at(s, j);
        }
    }
    assert(map_of(t) =~= map_of(s).insert(k, r));
}

/// The table of records, sorted by the start of their range, one per start.
pub struct Database {
    entries: Vec<Record>,
}

impl Database {
    /// The records in the order of their range starts.
    pub closed spec fn records(&self) -> Seq<RecordView> {
        self.entries@.map_values(|r: Record| r@)
    }

    pub closed spec fn well_formed(&self) -> bool {
        strictly_sorted(self.records())
    }

    /// The records keyed by the start of their range.
    pub closed spec fn view(&self) -> Map<int, RecordView> {
        map_of(self.records())
    }

    /// A table with no record.
    pub fn new() -> (d: Self)
        ensures
            d.well_formed(),
            d.view() == Map::<int, RecordView>::empty(),
    {
        let d = Database { entries: Vec::new() };
        assert(d.view() =~= Map::<int, RecordView>::empty());
        d
    }

    /// The number of records whose range starts at or below `a`.
    fn count_at_or_below(&self, a: &Addr) -> (n: usize)
        requires
            self.well_formed(),
        ensures
            n <= self.records().len(),
            forall|i: int| 0 <= i < n ==> key(#[trigger] self.records()[i].range_start) <= key(*a),
            forall|i: int|
                n <= i < self.records().len() ==> key(#[trigger] self.records()[i].range_start) > key(*a),
    {
        let mut lo: usize = 0;
        let mut hi: usize = self.entries.len();
        while lo < hi
            invariant
                self.well_formed(),
                lo <= hi <= self.entries.len(),
                self.records().len() == self.entries.len(),
                forall|i: int| 0 <= i < lo ==> key(#[trigger] self.records()[i].range_start) <= key(*a),
                forall|i: int|
                    hi <= i < self.records().len() ==> key(#[trigger] self.records()[i].range_start) > key(*a),
            decreases hi - lo,
        {
            let mid = lo + (hi - lo) / 2;
            assert(self.records()[mid as int] == self.entries@[mid as int]@);
            if addr_le(&self.entries[mid].range_start, a) {
                assert forall|i: int| 0 <= i <= mid implies key(#[trigger] self.records()[i].range_start) <= key(*a) by {
                    if i < mid {
                        assert(key(self.records()[i].range_start) < key(self.records()[mid as int].range_start));
                    }
                }
                lo = mid + 1;
            } else {
                assert forall|i: int| mid <= i < self.records().len() implies key(#[trigger] self.records()[i].range_start) > key(*a) by {
                    if i > mid {
                        assert(key(self.records()[mid as int].range_start) < key(self.records()[i].range_start));
                    }
                }
                hi = mid;
            }
        }
        lo
    }

    /// The table that inserting `records` in order gives: a later record
    /// replaces an earlier one with the same range start.
    pub fn build(records: Vec<Record>) -> (d: Self)
        ensures
            d.well_formed(),
            d.view() == built(records@.map_values(|r: Record| r@)),
    {
        let ghost rs = records@.map_values(|r: Record| r@);
        let mut d = Database::new();
        for record in it: records.into_iter()
            invariant
                it.seq() == records@,
                rs == records@.map_values(|r: Record| r@),
                d.well_formed(),
                d.view() == built(rs.take(it.index() as int)),
        {
            proof {
                let i = it.index() as int;
                assert(rs.take(i + 1).drop_last() =~= rs.take(i));
                assert(rs.take(i + 1).last() == record@);
            }
            d.insert(record);
        }
        assert(rs.take(rs.len() as int) =~= rs);
        d
    }

    /// Adds `record`, replacing the record that starts where it starts, if any.
    pub fn insert(&mut self, record: Record)
        requires
            old(self).well_formed(),
        ensures
            final(self).well_formed(),
            final(self).view() == old(self).view().insert(key(record.range_start), record@),
    {
        let n = self.count_at_or_below(&record.range_start);
        let ghost s = self.records();
        let ghost r = record@;
        if n > 0 && addr_eq(&self.entries[n - 1].range_start, &record.range_start) {
            proof {
                assert(s[n - 1] == self.entries@[n - 1]@);
                lemma_map_of_update(s, n - 1, r);
            }
            self.entries[n - 1] = record;
            assert(self.records() =~= s.update(n - 1, r));
        } else {
            proof {
                if n > 0 {
                    assert(s[n - 1] == self.entries@[n - 1]@);
                    assert(key(s[n - 1].range_start) != key(r.range_start));
                }
                assert forall|i: int| 0 <= i < n implies key(#[trigger] s[i].range_start) < key(r.range_start) by {
                    if i < n - 1 {
                        assert(key(s[i].range_start) < key(s[n - 1].range_start));
                    }
                }
                lemma_map_of_insert(s, n as int, r);
            }
            self.entries.insert(n, record);
            assert(self.records() =~= s.insert(n as int, r));
        }
    }

    /// The record whose range holds `address`, found as the record with the
    /// greatest range start at or below it.
    pub fn get(&self, address: Addr) -> (r: Option<&Record>)
        requires
            self.well_formed(),
        ensures
            match r {
                Some(rec) => lookup_map(self.view(), key(address)) == Some(rec@),
                None => lookup_map(self.view(), key(address)) is None,
            },
    {
        let n = self.count_at_or_below(&address);
        let ghost s = self.records();
        let ghost m = self.view();
        let ghost a = key(address);
        if n == 0 {
            assert forall|k: int| !is_predecessor(m, a, k) by {
                if m.dom().contains(k) {
                    let i = choose|i: int| 0 <= i < s.len() && key(#[trigger] s[i].range_start) == k;
                    assert(key(s[i].range_start) > a);
                }
            }
            None
        } else {
            let rec = &self.entries[n - 1];
            let ghost i = n - 1;
            let ghost k = key(s[i].range_start);
            assert(s[i] == rec@);
            proof {
                lemma_map_of_at(s, i);
                assert forall|k2: int| #[trigger] m.dom().contains(k2) && k2 <= a implies k2 <= k by {
                    let j = choose|j: int| 0 <= j < s.len() && key(#[trigger] s[j].range_start) == k2;
                    if j > i {
                        assert(key(s[j].range_start) > a);
                    }
                }
                assert(is_predecessor(m, a, k));
                let k3 = choose|k3: int| is_predecessor(m, a, k3);
                assert(k3 == k);
            }
            if addr_le(&address, &rec.range_end) {
                Some(rec)
            } else {
                None
            }
        }
    }
}

} // verus!

verus! {

/// Every record's range starts at or before its end.
pub open spec fn valid_ranges(rs: Seq<RecordView>) -> bool {
    forall|i: int| 0 <= i < rs.len() ==> key(#[trigger] rs[i].range_start) <= key(rs[i].range_end)
}

/// No two records' ranges share an address.
pub open spec fn non_overlapping(rs: Seq<RecordView>) -> bool {
    forall|i: int, j: int|
        0 <= i < rs.len() && 0 <= j < rs.len() && i != j ==> key(#[trigger] rs[i].range_end) < key(
            rs[j].range_start,
        ) || key(#[trigger] rs[j].range_end) < key(rs[i].range_start)
}

/// The records' range starts do not decrease along the sequence.
pub open spec fn sorted_by_start(rs: Seq<RecordView>) -> bool {
    forall|i: int, j: int|
        0 <= i < j < rs.len() ==> key(#[trigger] rs[i].range_start) <= key(#[trigger] rs[j].range_start)
}

/// The record that the table built from `rs` keeps for a start is the last
/// record of `rs` with that start.
proof fn lemma_built_last(rs: Seq<RecordView>, j: int)
    requires
        0 <= j < rs.len(),
        forall|l: int| j < l < rs.len() ==> key(#[trigger] rs[l].range_start) != key(rs[j].range_start),
    ensures
        built(rs).dom().contains(key(rs[j].range_start)),
        built(rs)[key(rs[j].range_start)] == rs[j],
    decreases rs.len(),
{
    if j < rs.len() - 1 {
        let p = rs.drop_last();
        assert forall|l: int| j < l < p.len() implies key(#[trigger] p[l].range_start) != key(p[j].range_start) by {
            assert(p[l] == rs[l]);
        }
        lemma_built_last(p, j);
        assert(key(rs[rs.len() - 1].range_start) != key(rs[j].range_start));
    }
}

/// Each record of the table built from `rs` is a record of `rs` with that start.
proof fn lemma_built_from(rs: Seq<RecordView>, k: int)
    requires
        built(rs).dom().contains(k),
    ensures
        exists|i: int| 0 <= i < rs.len() && key(#[trigger] rs[i].range_start) == k && built(rs)[k] == rs[i],
    decreases rs.len(),
{
    let p = rs.drop_last();
    if key(rs.last().range_start) == k {
        assert(key(rs[rs.len() - 1].range_start) == k && built(rs)[k] == rs[rs.len() - 1]);
    } else {
        lemma_built_from(p, k);
        let i = choose|i: int| 0 <= i < p.len() && key(#[trigger] p[i].range_start) == k && built(p)[k] == p[i];
        assert(rs[i] == p[i]);
    }
}

/// Of two records with the same range start, building keeps the later one
/// (here `rs[j]`, with no record after it sharing its start).
pub proof fn lemma_later_duplicate_wins(rs: Seq<RecordView>, i: int, j: int)
    requires
        0 <= i < j < rs.len(),
        key(rs[i].range_start) == key(rs[j].range_start),
        forall|l: int| j < l < rs.len() ==> key(#[trigger] rs[l].range_start) != key(rs[j].range_start),
    ensures
        built(rs).dom().contains(key(rs[i].range_start)),
        built(rs)[key(rs[i].range_start)] == rs[j],
{
    lemma_built_last(rs, j);
}

/// For records whose ranges are well formed and do not overlap, a lookup in the
/// table built from them finds the record whose range holds the address, and
/// finds nothing when no record's range holds it.
pub proof fn lemma_lookup_finds_holder(rs: Seq<RecordView>, a: Addr)
    requires
        valid_ranges(rs),
        non_overlapping(rs),
    ensures
        forall|i: int| 0 <= i < rs.len() && holds(#[trigger] rs[i], key(a)) ==> lookup_map(built(rs), key(a)) == Some(rs[i]),
        (forall|i: int| 0 <= i < rs.len() ==> !holds(#[trigger] rs[i], key(a))) ==> lookup_map(built(rs), key(a)) is None,
{
    let m = built(rs);
    let x = key(a);
    assert forall|i: int| 0 <= i < rs.len() && holds(#[trigger] rs[i], x) implies lookup_map(m, x) == Some(rs[i]) by {
        let ki = key(rs[i].range_start);
        assert forall|l: int| i < l < rs.len() implies key(#[trigger] rs[l].range_start) != ki by {
            assert(key(rs[l].range_start) <= key(rs[l].range_end));
            assert(key(rs[i].range_end) < key(rs[l].range_start) || key(rs[l].range_end) < key(rs[i].range_start));
        }
        lemma_built_last(rs, i);
        assert forall|k2: int| #[trigger] m.dom().contains(k2) && k2 <= x implies k2 <= ki by {
            lemma_built_from(rs, k2);
            let j = choose|j: int| 0 <= j < rs.len() && key(#[trigger] rs[j].range_start) == k2 && m[k2] == rs[j];
            if j != i {
                assert(key(rs[j].range_start) <= key(rs[j].range_end));
                assert(key(rs[i].range_end) < key(rs[j].range_start) || key(rs[j].range_end) < key(rs[i].range_start));
            }
        }
        assert(is_predecessor(m, x, ki));
        let k = choose|k: int| is_predecessor(m, x, k);
        assert(k == ki);
    }
    if forall|i: int| 0 <= i < rs.len() ==> !holds(#[trigger] rs[i], x) {
        if exists|k: int| is_predecessor(m, x, k) {
            let k = choose|k: int| is_predecessor(m, x, k);
            lemma_built_from(rs, k);
            let j = choose|j: int| 0 <= j < rs.len() && key(#[trigger] rs[j].range_start) == k && m[k] == rs[j];
            assert(!holds(rs[j], x));
        }
    }
}

/// Both ends of a range are inside it: for records sorted by start, with well
/// formed ranges that do not overlap, looking up the first or the last address
/// of a record's range finds that record.
pub proof fn lemma_lookup_range_ends(rs: Seq<RecordView>, i: int)
    requires
        sorted_by_start(rs),
        valid_ranges(rs),
        non_overlapping(rs),
        0 <= i < rs.len(),
    ensures
        lookup_map(built(rs), key(rs[i].range_start)) == Some(rs[i]),
        lookup_map(built(rs), key(rs[i].range_end)) == Some(rs[i]),
{
    assert(key(rs[i].range_start) <= key(rs[i].range_end));
    lemma_lookup_finds_holder(rs, rs[i].range_start);
    lemma_lookup_finds_holder(rs, rs[i].range_end);
    assert(holds(rs[i], key(rs[i].range_start)));
    assert(holds(rs[i], key(rs[i].range_end)));
}

} // verus!
