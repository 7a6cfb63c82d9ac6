//! Record and field addressing over a finished structural index.
//!
//! A record source exposes a byte region, its structural index and the
//! header-derived geometry (field count, stride, record count).  Records and
//! fields are then located purely by arithmetic on index positions: record
//! `r` occupies index positions `(r + 1) * stride + 1` through
//! `(r + 2) * stride`, and field `f` of record `r` lies between the index
//! entries `(r + 1) * stride + f` and `(r + 1) * stride + f + 1`.

use vstd::prelude::*;
use vstd::slice::slice_subrange;

use crate::error::StructureError;
use crate::stage1::{KeyToPos, NewLine, StructureIndex};

verus! {

/// A value viewed through its record source.
pub struct WithRecordSource<T>(pub T);

/// Random access to records and fields through a structural index.
pub trait RecordSource {
    /// The offsets stored in the structural index, sentinel included.
    spec fn src_index(&self) -> Seq<int>;

    /// The underlying byte region.
    spec fn src_bytes(&self) -> Seq<u8>;

    /// Fields per record.
    spec fn src_field_cnt(&self) -> u32;

    /// Index positions from one record start to the next.
    spec fn src_stride(&self) -> int;

    /// Number of data records, once computed.
    spec fn src_record_cnt(&self) -> Option<u32>;

    /// The line ending in use.
    spec fn src_new_line(&self) -> NewLine;

    /// The source is internally consistent.
    spec fn src_wf(&self) -> bool;

    /// What consistency guarantees: once the record count is known, the
    /// index has one entry per structural byte of every row, starts at the
    /// sentinel, increases strictly past it, and stays inside the region.
    proof fn src_wf_facts(&self)
        requires
            self.src_wf(),
        ensures
            self.src_stride() == self.src_field_cnt() + (if self.src_new_line() is CRLF {
                1int
            } else {
                0int
            }),
            self.src_field_cnt() >= 1,
            match self.src_record_cnt() {
                Some(rc) => {
                    &&& self.src_index().len() == 1 + (rc as int + 1) * self.src_stride()
                    &&& self.src_index()[0] == 0
                    &&& forall|k: int, l: int|
                        1 <= k < l < self.src_index().len() ==> #[trigger] self.src_index()[k]
                            < #[trigger] self.src_index()[l]
                    &&& forall|k: int|
                        1 <= k < self.src_index().len() ==> 0 <= #[trigger] self.src_index()[k]
                            < self.src_bytes().len()
                },
                None => true,
            },
    ;

    /// Number of data records, or `None` before it has been computed.
    fn record_cnt(&self) -> (r: Option<u32>)
        ensures
            r == self.src_record_cnt(),
    ;

    /// The structural index.
    fn index(&self) -> (r: &StructureIndex)
        ensures
            r.positions() == self.src_index(),
    ;

    /// The stride: how many index positions one record advances.
    fn record_jump_size(&self) -> (r: Result<KeyToPos, StructureError>)
        requires
            self.src_wf(),
        ensures
            match r {
                Ok(k) => self.src_record_cnt() is Some && k.0 == self.src_stride(),
                Err(e) => self.src_record_cnt() is None && e == StructureError::InvalidState,
            },
    ;

    /// Fields per record.
    fn field_cnt(&self) -> (r: u32)
        ensures
            r == self.src_field_cnt(),
    ;

    /// The line ending in use.
    fn new_line_tag(&self) -> (r: &NewLine)
        ensures
            *r == self.src_new_line(),
    ;

    /// The underlying byte region.
    fn data_bytes(&self) -> (r: &[u8])
        ensures
            r@ == self.src_bytes(),
    ;

    /// Borrow data record `record_idx` (0-based, the header row excluded):
    /// the bytes between the previous record's terminator and this record's
    /// terminator.  Out-of-range records answer `Ok(None)`; a source whose
    /// record count is not yet computed answers `Err(InvalidState)`.
    fn seek_record(&self, record_idx: u32) -> (r: Result<Option<&[u8]>, StructureError>)
        requires
            self.src_wf(),
        ensures
            match r {
                Err(e) => self.src_record_cnt() is None && e == StructureError::InvalidState,
                Ok(opt) => match self.src_record_cnt() {
                    Some(rc) => match opt {
                        None => record_idx >= rc,
                        Some(s) => record_idx < rc && s@ == self.src_bytes().subrange(
                            self.src_index()[(record_idx + 1) * self.src_stride()] + 1,
                            self.src_index()[(record_idx + 1) * self.src_stride()
                                + self.src_field_cnt()],
                        ),
                    },
                    None => false,
                },
            },
    {
        proof {
            self.src_wf_facts();
        }
        let rc: u32 = match self.record_cnt() {
            Some(rc) => rc,
            None => {
                return Err(StructureError::InvalidState);
            },
        };
        if record_idx >= rc {
            return Ok(None);
        }
        let field_cnt: u32 = self.field_cnt();
        let jump: KeyToPos = match self.record_jump_size() {
            Ok(k) => k,
            Err(e) => {
                return Err(e);
            },
        };
        let index: &StructureIndex = self.index();
        let n: usize = index.len();
        proof {
            lemma_row_arithmetic(record_idx as int, rc as int, self.src_stride(), field_cnt as int);
        }
        let idx_start: usize = (record_idx as usize + 1) * jump.0;
        let mem_start: usize = index.get(idx_start).0;
        let mem_end: usize = index.get(idx_start + field_cnt as usize).0;
        let bytes: &[u8] = self.data_bytes();
        proof {
            let ix = self.src_index();
            assert(n == ix.len());
            assert(mem_start as int == ix[idx_start as int]);
            assert(mem_end as int == ix[idx_start as int + field_cnt as int]);
            assert(ix[idx_start as int] < ix[idx_start as int + field_cnt as int]);
            assert((mem_end as int) < self.src_bytes().len());
        }
        Ok(Some(slice_subrange(bytes, mem_start + 1, mem_end)))
    }

    /// Borrow field `field_idx` of data record `record_idx`: the bytes
    /// between the two index entries that bracket the field.  Out-of-range
    /// records or fields answer `Ok(None)`.
    fn seek_field(&self, record_idx: u32, field_idx: u32) -> (r: Result<
        Option<&[u8]>,
        StructureError,
    >)
        requires
            self.src_wf(),
        ensures
            match r {
                Err(e) => self.src_record_cnt() is None && e == StructureError::InvalidState,
                Ok(opt) => match self.src_record_cnt() {
                    Some(rc) => match opt {
                        None => record_idx >= rc || field_idx >= self.src_field_cnt(),
                        Some(s) => record_idx < rc && field_idx < self.src_field_cnt() && s@
                            == self.src_bytes().subrange(
                            self.src_index()[(record_idx + 1) * self.src_stride() + field_idx]
                                + 1,
                            self.src_index()[(record_idx + 1) * self.src_stride() + field_idx
                                + 1],
                        ),
                    },
                    None => false,
                },
            },
    {
        proof {
            self.src_wf_facts();
        }
        let rc: u32 = match self.record_cnt() {
            Some(rc) => rc,
            None => {
                return Err(StructureError::InvalidState);
            },
        };
        if record_idx >= rc {
            return Ok(None);
        }
        let field_cnt: u32 = self.field_cnt();
        if field_idx >= field_cnt {
            return Ok(None);
        }
        let jump: KeyToPos = match self.record_jump_size() {
            Ok(k) => k,
            Err(e) => {
                return Err(e);
            },
        };
        let index: &StructureIndex = self.index();
        let n: usize = index.len();
        proof {
            lemma_row_arithmetic(record_idx as int, rc as int, self.src_stride(), field_cnt as int);
        }
        let idx_start: usize = (record_idx as usize + 1) * jump.0 + field_idx as usize;
        let mem_start: usize = index.get(idx_start).0;
        let mem_end: usize = index.get(idx_start + 1).0;
        let bytes: &[u8] = self.data_bytes();
        proof {
            let ix = self.src_index();
            assert(n == ix.len());
            assert(mem_start as int == ix[idx_start as int]);
            assert(mem_end as int == ix[idx_start as int + 1]);
            assert(ix[idx_start as int] < ix[idx_start as int + 1]);
            assert((mem_end as int) < self.src_bytes().len());
        }
        Ok(Some(slice_subrange(bytes, mem_start + 1, mem_end)))
    }
}

/// Index arithmetic of one row: with `r < rc` records of stride `st`, the
/// positions addressed for record `r` stay within an index of
/// `1 + (rc + 1) * st` entries, past the sentinel.
proof fn lemma_row_arithmetic(r: int, rc: int, st: int, fc: int)
    requires
        0 <= r < rc,
        1 <= fc <= st <= fc + 1,
    ensures
        1 <= st <= (r + 1) * st,
        (r + 1) * st + st <= (rc + 1) * st,
        (r + 1) * st + fc + 1 <= 1 + (rc + 1) * st,
{
    assert((r + 1) * st >= 1 * st) by (nonlinear_arith)
        requires
            r >= 0 && st >= 1,
    ;
    assert((r + 1) * st + st == (r + 2) * st) by (nonlinear_arith);
    assert((r + 2) * st <= (rc + 1) * st) by (nonlinear_arith)
        requires
            r + 2 <= rc + 1 && st >= 1,
    ;
}

} // verus!
