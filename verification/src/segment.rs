//! Plain-data model of the compacted record segment.
//!
//! The on-disk segment is a sorted store of rows keyed by offset id. The
//! reader here holds the row data directly and answers the rank, select and
//! lookup queries that the operators need; whatever fetches the rows from
//! storage hands them over as plain values.

use vstd::prelude::*;

use crate::sorted::cnt_lt;
use crate::sorted::lemma_cnt_lt_at_index;
use crate::sorted::lemma_cnt_lt_bounds;
use crate::sorted::lemma_cnt_lt_partition;
use crate::sorted::sorted_strict;

verus! {

/// A scalar metadata value attached to a record under a string key.
#[derive(Clone, Debug, PartialEq)]
pub enum MetadataValue {
    Bool(bool),
    Int(i64),
    Str(String),
}

/// A metadata map, kept as a list of key/value pairs.
pub type Metadata = Vec<(String, MetadataValue)>;

/// One row of the compacted segment.
pub struct SegmentRecord {
    pub offset_id: u32,
    pub user_id: String,
    pub metadata: Option<Metadata>,
    pub document: Option<String>,
}

/// Read access to the compacted segment: a sorted sequence of records plus
/// the largest offset id ever assigned (which deletions may have pushed past
/// the largest stored id).
pub struct RecordSegmentReader {
    records: Vec<SegmentRecord>,
    current_max_offset_id: u32,
}

impl RecordSegmentReader {
    /// The stored records, in segment order.
    pub closed spec fn records_seq(&self) -> Seq<SegmentRecord> {
        self.records@
    }

    /// The stored offset ids, in ascending order.
    pub open spec fn ids(&self) -> Seq<u32> {
        self.records_seq().map_values(|r: SegmentRecord| r.offset_id)
    }

    /// The largest offset id ever assigned.
    pub closed spec fn max_assigned(&self) -> u32 {
        self.current_max_offset_id
    }

    /// Well-formed: ids strictly ascending and none above the assigned
    /// maximum.
    pub open spec fn wf(&self) -> bool {
        &&& sorted_strict(self.ids())
        &&& forall|i: int|
            0 <= i < self.ids().len() ==> #[trigger] self.ids()[i] <= self.max_assigned()
    }

    /// The record stored under `o`, if any.
    pub open spec fn seg_record(&self, o: u32) -> Option<SegmentRecord> {
        if self.ids().contains(o) {
            Some(self.records_seq()[self.index_of(o)])
        } else {
            None
        }
    }

    /// The index of the record stored under `o`.
    pub open spec fn index_of(&self, o: u32) -> int {
        choose|i: int| 0 <= i < self.records_seq().len() && self.records_seq()[i].offset_id == o
    }

    pub fn new(records: Vec<SegmentRecord>, current_max_offset_id: u32) -> (r: Self)
        requires
            sorted_strict(records@.map_values(|r: SegmentRecord| r.offset_id)),
            forall|i: int|
                0 <= i < records@.len() ==> #[trigger] records@[i].offset_id
                    <= current_max_offset_id,
        ensures
            r.wf(),
            r.records_seq() == records@,
            r.max_assigned() == current_max_offset_id,
    {
        let r = RecordSegmentReader { records, current_max_offset_id };
        proof {
            assert forall|i: int| 0 <= i < r.ids().len() implies #[trigger] r.ids()[i]
                <= r.max_assigned() by {
                assert(r.ids()[i] == r.records_seq()[i].offset_id);
            }
        }
        r
    }

    /// The number of stored rows.
    pub fn count(&self) -> (r: usize)
        ensures
            r == self.ids().len(),
    {
        self.records.len()
    }

    pub fn get_current_max_offset_id(&self) -> (r: u32)
        ensures
            r == self.max_assigned(),
    {
        self.current_max_offset_id
    }

    /// The number of stored offset ids strictly below `o`.
    pub fn get_offset_id_rank(&self, o: u32) -> (r: usize)
        requires
            self.wf(),
        ensures
            r as int == cnt_lt(self.ids(), o as int),
    {
        let ghost s = self.ids();
        let mut lo: usize = 0;
        let mut hi: usize = self.records.len();
        while lo < hi
            invariant
                0 <= lo <= hi <= s.len(),
                s == self.ids(),
                self.records@.len() == s.len(),
                sorted_strict(s),
                forall|j: int| 0 <= j < lo ==> (#[trigger] s[j] as int) < o as int,
                forall|j: int| hi <= j < s.len() ==> (#[trigger] s[j] as int) >= o as int,
            decreases hi - lo,
        {
            let mid = lo + (hi - lo) / 2;
            assert(s[mid as int] == self.records@[mid as int].offset_id);
            if self.records[mid].offset_id < o {
                lo = mid + 1;
            } else {
                hi = mid;
            }
        }
        proof {
            lemma_cnt_lt_partition(s, o as int);
            lemma_cnt_lt_bounds(s, o as int);
            let c = cnt_lt(s, o as int);
            if c < lo as int {
                assert((s[c] as int) < o as int);
            }
            if c > lo as int {
                assert((s[lo as int] as int) < o as int);
            }
        }
        lo
    }

    /// The `i`-th stored offset id, in ascending order.
    pub fn get_offset_id_at_index(&self, i: usize) -> (r: u32)
        requires
            i < self.ids().len(),
        ensures
            r == self.ids()[i as int],
    {
        proof {
            assert(self.ids()[i as int] == self.records_seq()[i as int].offset_id);
        }
        self.records[i].offset_id
    }

    /// All stored offset ids, ascending.
    pub fn get_all_offset_ids(&self) -> (r: Vec<u32>)
        ensures
            r@ == self.ids(),
    {
        let mut out: Vec<u32> = Vec::new();
        let n = self.records.len();
        let mut i: usize = 0;
        while i < n
            invariant
                0 <= i <= n,
                n == self.records@.len(),
                out@ == self.ids().subrange(0, i as int),
            decreases n - i,
        {
            proof {
                assert(self.ids()[i as int] == self.records_seq()[i as int].offset_id);
            }
            out.push(self.records[i].offset_id);
            proof {
                assert(out@ =~= self.ids().subrange(0, i as int + 1));
            }
            i = i + 1;
        }
        proof {
            assert(out@ =~= self.ids());
        }
        out
    }

    /// The record stored under offset id `o`, if present.
    pub fn get_data_for_offset_id(&self, o: u32) -> (r: Option<&SegmentRecord>)
        requires
            self.wf(),
        ensures
            match r {
                Some(rec) => self.seg_record(o) == Some(*rec),
                None => self.seg_record(o) is None,
            },
    {
        let i = self.get_offset_id_rank(o);
        proof {
            lemma_cnt_lt_bounds(self.ids(), o as int);
        }
        if i < self.records.len() {
            proof {
                assert(self.ids()[i as int] == self.records_seq()[i as int].offset_id);
            }
            if self.records[i].offset_id == o {
                proof {
                    self.lemma_found_at_rank(o, i as int);
                }
                Some(&self.records[i])
            } else {
                proof {
                    self.lemma_not_found(o);
                }
                None
            }
        } else {
            proof {
                self.lemma_not_found(o);
            }
            None
        }
    }

    /// The user id of the record stored under `o`, if present.
    pub fn get_user_id_for_offset_id(&self, o: u32) -> (r: Option<String>)
        requires
            self.wf(),
        ensures
            match r {
                Some(u) => self.seg_record(o) is Some && u == self.seg_record(o).unwrap().user_id,
                None => self.seg_record(o) is None,
            },
    {
        match self.get_data_for_offset_id(o) {
            Some(rec) => Some(rec.user_id.clone()),
            None => None,
        }
    }

    /// If the record at the rank of `o` carries `o` itself, it is the stored
    /// record for `o`.
    proof fn lemma_found_at_rank(&self, o: u32, i: int)
        requires
            self.wf(),
            0 <= i < self.records_seq().len(),
            self.records_seq()[i].offset_id == o,
            cnt_lt(self.ids(), o as int) == i,
        ensures
            self.ids().contains(o),
            self.index_of(o) == i,
            self.seg_record(o) == Some(self.records_seq()[i]),
    {
        assert(self.ids()[i] == o);
        assert(self.ids().contains(o));
        let j = self.index_of(o);
        assert(0 <= j < self.records_seq().len() && self.records_seq()[j].offset_id == o) by {
            assert(self.records_seq()[i].offset_id == o);
        }
        assert(self.ids()[j] == o);
        if i != j {
            assert(self.ids()[i] == self.ids()[j]);
            if i < j {
                assert(self.ids()[i] < self.ids()[j]);
            } else {
                assert(self.ids()[j] < self.ids()[i]);
            }
        }
    }

    /// If the record at the rank of `o` does not carry `o`, no record does.
    proof fn lemma_not_found(&self, o: u32)
        requires
            self.wf(),
            ({
                let c = cnt_lt(self.ids(), o as int);
                c >= self.records_seq().len() || self.records_seq()[c].offset_id != o
            }),
        ensures
            self.seg_record(o) is None,
    {
        if self.ids().contains(o) {
            let j = choose|j: int| 0 <= j < self.ids().len() && self.ids()[j] == o;
            lemma_cnt_lt_at_index(self.ids(), j);
            assert(self.records_seq()[j].offset_id == o);
        }
    }
}

} // verus!
