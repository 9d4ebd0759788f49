//! In-memory data blocks and on-disk block descriptors.

use vstd::prelude::*;

use crate::codec::{ts_bytes, vals_bytes};
use crate::error::Error;

verus! {

/// No timestamp is smaller than the one before it.
pub open spec fn nondecreasing(ts: Seq<i64>) -> bool {
    forall|i: int| #![trigger ts[i]] 1 <= i < ts.len() ==> ts[i - 1] <= ts[i]
}

/// One field's complete time-ordered run prior to persistence: a value-type
/// tag and two parallel arrays of timestamps and 64-bit value words.
pub struct DataBlock {
    filed_type: u8,
    ts: Vec<i64>,
    val: Vec<u64>,
}

/// An on-disk block's location descriptor: offset of its leading checksum,
/// byte size of the two encoded buffers (the two 4-byte checksums are not
/// counted), the time range covered, the value-type tag, and the transient
/// index of the reader that owns it.
#[derive(Clone, Copy, Debug, PartialEq, Eq, Structural)]
pub struct FileBlock {
    pub min_ts: i64,
    pub max_ts: i64,
    pub offset: u64,
    pub filed_type: u8,
    pub size: u64,
    pub reader_idx: usize,
}

impl DataBlock {
    /// The value-type tag.
    pub closed spec fn spec_filed_type(self) -> u8 {
        self.filed_type
    }

    /// The timestamps.
    pub closed spec fn timestamps(self) -> Seq<i64> {
        self.ts@
    }

    /// The value words.
    pub closed spec fn values(self) -> Seq<u64> {
        self.val@
    }

    /// Well-formed: parallel arrays of one length, timestamps non-decreasing,
    /// and small enough that the encoded streams fit in memory.
    pub open spec fn wf(self) -> bool {
        &&& self.timestamps().len() == self.values().len()
        &&& nondecreasing(self.timestamps())
        &&& 8 * self.timestamps().len() <= usize::MAX
    }

    /// Builds a block from parallel arrays; refused unless the arrays have
    /// one length and the timestamps never decrease.
    pub fn new(filed_type: u8, ts: Vec<i64>, val: Vec<u64>) -> (r: Option<DataBlock>)
        ensures
            r is Some <==> (ts@.len() == val@.len() && nondecreasing(ts@) && 8 * ts@.len()
                <= usize::MAX),
            r matches Some(b) ==> {
                &&& b.wf()
                &&& b.spec_filed_type() == filed_type
                &&& b.timestamps() == ts@
                &&& b.values() == val@
            },
    {
        if ts.len() != val.len() {
            return None;
        }
        if ts.len() > usize::MAX / 8 {
            return None;
        }
        let mut i: usize = 1;
        while i < ts.len()
            invariant
                1 <= i,
                forall|j: int| #![trigger ts@[j]] 1 <= j < i && j < ts@.len() ==> ts@[j - 1] <= ts@[j],
            decreases ts@.len() - i,
        {
            if ts[i - 1] > ts[i] {
                return None;
            }
            i = i + 1;
        }
        Some(DataBlock { filed_type, ts, val })
    }

    /// The value-type tag of this block.
    pub fn filed_type(&self) -> (r: u8)
        ensures
            r == self.spec_filed_type(),
    {
        self.filed_type
    }

    /// The number of values held.
    pub fn len(&self) -> (r: usize)
        ensures
            r == self.timestamps().len(),
    {
        self.ts.len()
    }

    /// The smallest and largest timestamps over the non-empty half-open
    /// range `[start, end)`.
    pub fn time_range(&self, start: usize, end: usize) -> (r: (i64, i64))
        requires
            self.wf(),
            start < end <= self.timestamps().len(),
        ensures
            r.0 == self.timestamps()[start as int],
            r.1 == self.timestamps()[end - 1],
            forall|k: int|
                #![trigger self.timestamps()[k]]
                start <= k < end ==> r.0 <= self.timestamps()[k] <= r.1,
    {
        proof {
            assert forall|k: int|
                #![trigger self.timestamps()[k]]
                start <= k < end implies self.timestamps()[start as int]
                <= self.timestamps()[k] <= self.timestamps()[end - 1] by {
                lemma_nondecreasing(self.timestamps(), start as int, k);
                lemma_nondecreasing(self.timestamps(), k, end - 1);
            }
        }
        (self.ts[start], self.ts[end - 1])
    }

    /// Columnar encoding of the half-open range `[start, end)`: the timestamp
    /// stream and the value stream, 8 big-endian bytes per element each.
    /// Fails exactly when the range does not lie within `[0, len()]`.
    pub fn encode(&self, start: usize, end: usize) -> (r: Result<(Vec<u8>, Vec<u8>), Error>)
        requires
            self.wf(),
        ensures
            r is Ok <==> start <= end <= self.timestamps().len(),
            r matches Ok(bufs) ==> {
                &&& bufs.0@ == ts_bytes(self.timestamps().subrange(start as int, end as int))
                &&& bufs.1@ == vals_bytes(self.values().subrange(start as int, end as int))
                &&& bufs.0@.len() == 8 * (end - start)
                &&& bufs.1@.len() == 8 * (end - start)
            },
    {
        if start > end || end > self.ts.len() {
            return Err(Error::WriteTsmErr { reason: "encode range out of bounds".to_string() });
        }
        let mut ts_buf: Vec<u8> = Vec::new();
        crate::codec::encode_ts_range(&mut ts_buf, &self.ts, start, end);
        let mut val_buf: Vec<u8> = Vec::new();
        crate::codec::encode_vals_range(&mut val_buf, &self.val, start, end);
        proof {
            crate::codec::lemma_ts_bytes_len(self.timestamps().subrange(start as int, end as int));
            crate::codec::lemma_vals_bytes_len(self.values().subrange(start as int, end as int));
        }
        Ok((ts_buf, val_buf))
    }
}

/// In a non-decreasing run, an earlier element never exceeds a later one.
pub proof fn lemma_nondecreasing(ts: Seq<i64>, i: int, j: int)
    requires
        nondecreasing(ts),
        0 <= i <= j < ts.len(),
    ensures
        ts[i] <= ts[j],
    decreases j - i,
{
    if i < j {
        lemma_nondecreasing(ts, i + 1, j);
    }
}

} // verus!
