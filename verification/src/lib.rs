//! Structural indexing for comma-delimited text.
//!
//! Given an immutable byte region holding a delimited text file (one header
//! row, a fixed number of comma-separated fields per record, CRLF or LF line
//! endings), this crate produces a *structural index*: the ordered sequence of
//! byte offsets of every field or record delimiter that lies outside a quoted
//! string.  A thin access layer then answers "record `i`" and "field `j` of
//! record `i`" queries by arithmetic on that index, returning borrowed byte
//! slices into the region.

/// Specification of the structural scan: byte classes, quote parity and the
/// sequence of structural positions, together with the lemmas relating them.
pub mod model;

/// Per-block structural scan: nibble-table classifier, bitmap extraction,
/// in-string mask and bit-to-index expansion.
pub mod stage1;

/// Block driver that feeds the scan over a whole byte region.
pub mod reader;

/// Classification of a single 16-byte lane, exposed on its own.
pub mod structure;

/// Error types surfaced by indexing and lookups.
pub mod error;

/// Small reporting helpers over byte regions.
pub mod helper;

/// Record and field addressing over a finished index.
pub mod record_source;

/// The tape: region, index and header metadata composed for random access.
pub mod tape;

pub use crate::error::StructureError;
pub use crate::helper::ByteReport;
pub use crate::record_source::{RecordSource, WithRecordSource};
pub use crate::stage1::StructureIndex;
pub use crate::tape::{Header, Tape, TapeCore};

use vstd::prelude::*;

use crate::model::structural_positions;
use crate::tape::{spec_bom_len, spec_find_terminator, spec_probe_stride, DataBytes};

verus! {

/// Build a tape over a byte region: probe the header, scan the region into
/// its structural index, and compose them, checking that the index holds one
/// header row plus a whole number of fixed-width records.
pub fn create(bytes: Vec<u8>) -> (r: Result<Tape, StructureError>)
    requires
        bytes@.len() < u32::MAX,
        bytes@.len() + 64 <= usize::MAX,
    ensures
        ({
            let s = bytes@;
            let end = spec_find_terminator(s, spec_bom_len(s));
            let st = spec_probe_stride(s);
            let cnt = structural_positions(s).len() as int;
            match r {
                Err(e) => e == StructureError::InvalidCsvFormat && (end == s.len() || cnt % st != 0
                    || cnt < st),
                Ok(t) => {
                    &&& end < s.len()
                    &&& cnt % st == 0
                    &&& cnt >= st
                    &&& t.wf()
                    &&& t.bytes.0@ == s
                    &&& t.header.wf_probe(s)
                    &&& t.index.positions() == seq![0int] + structural_positions(s)
                },
            }
        }),
{
    let header = match tape::Header::new(bytes.as_slice()) {
        Ok(h) => h,
        Err(e) => {
            return Err(e);
        },
    };
    let index = reader::read(bytes.as_slice());
    let core = TapeCore::create(DataBytes(bytes), index, header);
    proof {
        assert(core.wf());
        assert(core.header.spec_stride() == spec_probe_stride(core.bytes.0@));
        assert(core.index.positions().len() == core.index.0@.len());
    }
    Tape::from_core(core)
}

} // verus!

