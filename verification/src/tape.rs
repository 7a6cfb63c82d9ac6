//! The tape: byte region, structural index and header metadata composed
//! into a randomly addressable view of the records.

use vstd::arithmetic::div_mod::lemma_fundamental_div_mod;
use vstd::prelude::*;
use vstd::utf8::{decode_utf8, valid_utf8};

use crate::error::StructureError;
use crate::helper::bytes_to_string_lossy;
use crate::model::{
    is_structural, lemma_structural_positions_in_count, lemma_structural_positions_in_range,
    quote_parity, structural_positions,
};
use crate::record_source::{RecordSource, WithRecordSource};
use crate::stage1::{KeyToPos, NewLine, StructureIndex};

verus! {

/// A contiguous range of records handed to one parallel consumer.  The
/// range is delimited by positions *into the structural index* (multiples of
/// the stride), not byte offsets.
pub struct Chunk<'index> {
    /// Number of the chunk, in record order.
    pub id: u8,
    /// Index position of the first entry of the first record of the chunk.
    pub start: KeyToPos,
    /// Index position one record past the last record of the chunk.
    pub end: KeyToPos,
    /// Number of records in the chunk.
    pub record_cnt: u32,
    /// The structural index the keys point into.
    pub index: &'index StructureIndex,
}

/// The chunks of a tape, in record order.
pub type Chunks<'index> = Vec<Chunk<'index>>;

/// The byte region underlying a tape.  The region is immutable for the
/// lifetime of the tape; every offset in the structural index points into
/// it.
#[derive(Debug)]
pub struct DataBytes(pub Vec<u8>);

impl DataBytes {
    /// The bytes of the region.
    pub fn as_slice(&self) -> (r: &[u8])
        ensures
            r@ == self.0@,
    {
        self.0.as_slice()
    }

    /// Length of the region in bytes.
    pub fn len(&self) -> (n: usize)
        ensures
            n == self.0@.len(),
    {
        self.0.len()
    }
}

/// True of a record-terminator byte (`\r` or `\n`).
pub open spec fn is_terminator_byte(b: u8) -> bool {
    b == 0x0d || b == 0x0a
}

/// True of the bytes trimmed from the ends of a header field name.
pub open spec fn is_space_byte(b: u8) -> bool {
    b == 0x20 || b == 0x09 || b == 0x0a || b == 0x0b || b == 0x0c || b == 0x0d
}

/// Length of the byte-order-mark prefix: 3 when the region starts with
/// `EF BB BF`, else 0.
pub open spec fn spec_bom_len(s: Seq<u8>) -> int {
    if s.len() >= 3 && s[0] == 0xef && s[1] == 0xbb && s[2] == 0xbf {
        3
    } else {
        0
    }
}

/// Position of the first terminator byte at or after `i`; the length of the
/// region when there is none.
pub open spec fn spec_find_terminator(s: Seq<u8>, i: int) -> int
    recommends
        0 <= i <= s.len(),
    decreases s.len() - i,
{
    if i < 0 || i >= s.len() {
        s.len() as int
    } else if is_terminator_byte(s[i]) {
        i
    } else {
        spec_find_terminator(s, i + 1)
    }
}

/// Whether the terminator found at `end` opens a CRLF pair.
pub open spec fn spec_is_crlf(s: Seq<u8>, end: int) -> bool {
    &&& 0 <= end < s.len()
    &&& s[end] == 0x0d
    &&& end + 1 < s.len()
    &&& s[end + 1] == 0x0a
}

/// Offset of the first byte of the first data record: one past the header
/// terminator, or two past it for CRLF.
pub open spec fn spec_data_start(s: Seq<u8>) -> int {
    let end = spec_find_terminator(s, spec_bom_len(s));
    if spec_is_crlf(s, end) {
        end + 2
    } else {
        end + 1
    }
}

/// The pieces of `s` split at every comma byte.  Splitting never yields an
/// empty sequence of pieces: a region without commas is one piece.
pub open spec fn spec_split_commas(s: Seq<u8>) -> Seq<Seq<u8>>
    decreases s.len(),
{
    if s.len() == 0 {
        seq![s]
    } else if s[0] == 0x2c {
        seq![Seq::empty()] + spec_split_commas(s.drop_first())
    } else {
        let rest = spec_split_commas(s.drop_first());
        seq![seq![s[0]] + rest[0]] + rest.drop_first()
    }
}

/// `s` with leading space bytes removed.
pub open spec fn spec_trim_start(s: Seq<u8>) -> Seq<u8>
    decreases s.len(),
{
    if s.len() > 0 && is_space_byte(s[0]) {
        spec_trim_start(s.drop_first())
    } else {
        s
    }
}

/// `s` with trailing space bytes removed.
pub open spec fn spec_trim_end(s: Seq<u8>) -> Seq<u8>
    decreases s.len(),
{
    if s.len() > 0 && is_space_byte(s.last()) {
        spec_trim_end(s.drop_last())
    } else {
        s
    }
}

/// `s` with space bytes removed from both ends.
pub open spec fn spec_trim(s: Seq<u8>) -> Seq<u8> {
    spec_trim_end(spec_trim_start(s))
}

/// The trimmed field-name bytes of header row `hdr`.
pub open spec fn spec_field_names(hdr: Seq<u8>) -> Seq<Seq<u8>> {
    spec_split_commas(hdr).map_values(|p: Seq<u8>| spec_trim(p))
}

/// The stride that the header probe assigns to region `s`: the field count,
/// plus one when the line ending is CRLF.
pub open spec fn spec_probe_stride(s: Seq<u8>) -> int {
    let bom = spec_bom_len(s);
    let end = spec_find_terminator(s, bom);
    let fc = spec_split_commas(s.subrange(bom, end)).len() as int;
    if spec_is_crlf(s, end) {
        fc + 1
    } else {
        fc
    }
}

/// Splitting yields at least one piece.
pub proof fn lemma_split_commas_nonempty(s: Seq<u8>)
    ensures
        spec_split_commas(s).len() >= 1,
    decreases s.len(),
{
    if s.len() > 0 {
        lemma_split_commas_nonempty(s.drop_first());
    }
}

/// Splitting yields at most one piece per byte, plus one.
pub proof fn lemma_split_commas_count(s: Seq<u8>)
    ensures
        spec_split_commas(s).len() <= s.len() + 1,
    decreases s.len(),
{
    if s.len() > 0 {
        lemma_split_commas_count(s.drop_first());
        lemma_split_commas_nonempty(s.drop_first());
    }
}

/// If the first comma of `s` is at `c` (or there is none and `c` is the
/// length), the split is the prefix before `c` followed by the split of the
/// rest.
pub proof fn lemma_split_commas_step(s: Seq<u8>, c: int)
    requires
        0 <= c <= s.len(),
        forall|j: int| 0 <= j < c ==> s[j] != 0x2c,
        c < s.len() ==> s[c] == 0x2c,
    ensures
        c < s.len() ==> spec_split_commas(s) == seq![s.take(c)] + spec_split_commas(s.skip(c + 1)),
        c == s.len() ==> spec_split_commas(s) == seq![s],
    decreases c,
{
    lemma_split_commas_nonempty(s);
    if c == 0 {
        if 0 < s.len() {
            assert(s.take(0) =~= Seq::<u8>::empty());
            assert(s.skip(1) =~= s.drop_first());
        }
    } else {
        let d = s.drop_first();
        lemma_split_commas_step(d, c - 1);
        lemma_split_commas_nonempty(d);
        let rest = spec_split_commas(d);
        assert(s[0] != 0x2c);
        assert(spec_split_commas(s) == seq![seq![s[0]] + rest[0]] + rest.drop_first());
        if c < s.len() {
            assert(rest == seq![d.take(c - 1)] + spec_split_commas(d.skip(c)));
            assert(rest[0] == d.take(c - 1));
            assert(rest.drop_first() =~= spec_split_commas(d.skip(c)));
            assert(seq![s[0]] + d.take(c - 1) =~= s.take(c));
            assert(d.skip(c) =~= s.skip(c + 1));
            assert(seq![seq![s[0]] + rest[0]] + rest.drop_first() =~= seq![s.take(c)]
                + spec_split_commas(s.skip(c + 1)));
        } else {
            assert(rest == seq![d]);
            assert(rest[0] == d);
            assert(rest.drop_first() =~= Seq::<Seq<u8>>::empty());
            assert(seq![s[0]] + d =~= s);
            assert(seq![seq![s[0]] + rest[0]] + rest.drop_first() =~= seq![s]);
        }
    }
}

/// If the first `a` bytes are spaces and byte `a` is not (or `a` is the
/// length), trimming the start drops exactly `a` bytes.
pub proof fn lemma_trim_start_at(s: Seq<u8>, a: int)
    requires
        0 <= a <= s.len(),
        forall|j: int| 0 <= j < a ==> is_space_byte(s[j]),
        a < s.len() ==> !is_space_byte(s[a]),
    ensures
        spec_trim_start(s) == s.skip(a),
    decreases a,
{
    if a == 0 {
        assert(s.skip(0) =~= s);
    } else {
        assert(is_space_byte(s[0]));
        lemma_trim_start_at(s.drop_first(), a - 1);
        assert(s.drop_first().skip(a - 1) =~= s.skip(a));
    }
}

/// If the bytes from `b` on are spaces and byte `b - 1` is not (or `b` is
/// zero), trimming the end keeps exactly the first `b` bytes.
pub proof fn lemma_trim_end_at(s: Seq<u8>, b: int)
    requires
        0 <= b <= s.len(),
        forall|j: int| b <= j < s.len() ==> is_space_byte(s[j]),
        b > 0 ==> !is_space_byte(s[b - 1]),
    ensures
        spec_trim_end(s) == s.take(b),
    decreases s.len(),
{
    if b == s.len() {
        if s.len() > 0 {
            assert(!is_space_byte(s.last()));
        }
        assert(s.take(b) =~= s);
    } else {
        assert(is_space_byte(s.last()));
        lemma_trim_end_at(s.drop_last(), b);
        assert(s.drop_last().take(b) =~= s.take(b));
    }
}

/// Whether the byte is trimmed from the ends of a field name.
fn space_byte(b: u8) -> (r: bool)
    ensures
        r == is_space_byte(b),
{
    b == 0x20 || b == 0x09 || b == 0x0a || b == 0x0b || b == 0x0c || b == 0x0d
}

/// Copy `v[start..end]` with space bytes trimmed from both ends.
fn trim_copy(v: &[u8], start: usize, end: usize) -> (r: Vec<u8>)
    requires
        start <= end <= v@.len(),
    ensures
        r@ == spec_trim(v@.subrange(start as int, end as int)),
{
    let ghost piece = v@.subrange(start as int, end as int);
    let mut a: usize = start;
    while a < end && space_byte(v[a])
        invariant
            start <= a <= end <= v@.len(),
            forall|j: int| start <= j < a ==> is_space_byte(v@[j]),
        decreases end - a,
    {
        a += 1;
    }
    let mut b: usize = end;
    while b > a && space_byte(v[b - 1])
        invariant
            a <= b <= end <= v@.len(),
            forall|j: int| b <= j < end ==> is_space_byte(v@[j]),
        decreases b,
    {
        b -= 1;
    }
    proof {
        lemma_trim_start_at(piece, a - start);
        assert(piece.skip(a - start) =~= v@.subrange(a as int, end as int));
        lemma_trim_end_at(v@.subrange(a as int, end as int), b - a);
        assert(v@.subrange(a as int, end as int).take(b - a) =~= v@.subrange(a as int, b as int));
    }
    let mut r: Vec<u8> = Vec::new();
    let mut i: usize = a;
    while i < b
        invariant
            a <= i <= b <= v@.len(),
            r@.len() == i - a,
            forall|j: int| 0 <= j < i - a ==> r@[j] == v@[a + j],
        decreases b - i,
    {
        r.push(v[i]);
        i += 1;
    }
    proof {
        assert(r@ =~= v@.subrange(a as int, b as int));
    }
    r
}

/// Metadata gathered by probing the header row: the field names, the line
/// ending in use, the field count and the offset of the first data record.
#[derive(Debug)]
pub struct Header {
    /// The trimmed field names of the header row.
    pub header: Vec<String>,
    /// The line ending convention the file uses.
    pub new_line: NewLine,
    /// Number of fields per record.
    pub field_cnt: u32,
    /// The field delimiter byte (always the comma).
    pub delimiter: u8,
    /// Offset of the first byte of the first data record.
    pub record_offset: u32,
}

impl Header {
    /// The index-position distance from one record start to the next under
    /// this header: one entry per field separator and terminator byte.
    pub open spec fn spec_stride(self) -> int {
        if self.new_line is CRLF {
            self.field_cnt + 1
        } else {
            self.field_cnt as int
        }
    }

    /// The probe results expected for region `s`.
    pub open spec fn wf_probe(self, s: Seq<u8>) -> bool {
        let bom = spec_bom_len(s);
        let end = spec_find_terminator(s, bom);
        let names = spec_field_names(s.subrange(bom, end));
        &&& end < s.len()
        &&& self.new_line == (if spec_is_crlf(s, end) {
            NewLine::CRLF
        } else {
            NewLine::LF
        })
        &&& self.record_offset == spec_data_start(s)
        &&& self.field_cnt == names.len()
        &&& self.field_cnt >= 1
        &&& self.field_cnt < u32::MAX
        &&& self.delimiter == 0x2c
        &&& self.header@.len() == names.len()
        &&& forall|k: int|
            0 <= k < names.len() ==> (valid_utf8(#[trigger] names[k]) ==> self.header@[k]@
                == decode_utf8(names[k]))
    }

    /// Probe the header row of a region.
    ///
    /// Skips an optional byte-order mark, finds the first record terminator,
    /// chooses the line ending, and splits the header row into trimmed field
    /// names.  An empty region, or one without any terminator, is rejected.
    pub fn new(bytes: &[u8]) -> (r: Result<Header, StructureError>)
        requires
            bytes@.len() < u32::MAX,
        ensures
            match r {
                Ok(h) => h.wf_probe(bytes@),
                Err(e) => e == StructureError::InvalidCsvFormat && spec_find_terminator(
                    bytes@,
                    spec_bom_len(bytes@),
                ) == bytes@.len(),
            },
    {
        let len: usize = bytes.len();
        let bom: usize = if len >= 3 && bytes[0] == 0xef && bytes[1] == 0xbb && bytes[2] == 0xbf {
            3
        } else {
            0
        };
        assert(bom == spec_bom_len(bytes@));

        let mut end: usize = bom;
        while end < len && !(bytes[end] == 0x0d || bytes[end] == 0x0a)
            invariant
                bom <= end <= len,
                len == bytes@.len(),
                forall|j: int| bom <= j < end ==> !is_terminator_byte(bytes@[j]),
            decreases len - end,
        {
            end += 1;
        }
        proof {
            lemma_find_terminator_at(bytes@, bom as int, end as int);
        }
        if end == len {
            return Err(StructureError::InvalidCsvFormat);
        }
        let crlf: bool = bytes[end] == 0x0d && end + 1 < len && bytes[end + 1] == 0x0a;
        let new_line = if crlf {
            NewLine::CRLF
        } else {
            NewLine::LF
        };
        let record_offset: u32 = if crlf {
            (end + 2) as u32
        } else {
            (end + 1) as u32
        };

        let ghost hdr = bytes@.subrange(bom as int, end as int);
        let ghost pieces = spec_split_commas(hdr);
        proof {
            lemma_split_commas_nonempty(hdr);
        }
        let mut names: Vec<String> = Vec::new();
        let mut start: usize = bom;
        while start <= end
            invariant
                bom <= start <= end + 1,
                end < len == bytes@.len(),
                len < u32::MAX,
                hdr == bytes@.subrange(bom as int, end as int),
                pieces == spec_split_commas(hdr),
                names@.len() <= pieces.len(),
                start <= end ==> pieces == pieces.take(names@.len() as int) + spec_split_commas(
                    bytes@.subrange(start as int, end as int),
                ),
                start == end + 1 ==> names@.len() == pieces.len(),
                forall|k: int|
                    0 <= k < names@.len() ==> (valid_utf8(
                        #[trigger] spec_trim(pieces[k]),
                    ) ==> names@[k]@ == decode_utf8(spec_trim(pieces[k]))),
            decreases end + 1 - start,
        {
            let ghost suffix = bytes@.subrange(start as int, end as int);
            let mut c: usize = start;
            while c < end && bytes[c] != 0x2c
                invariant
                    start <= c <= end < bytes@.len(),
                    forall|j: int| start <= j < c ==> bytes@[j] != 0x2c,
                decreases end - c,
            {
                c += 1;
            }
            proof {
                lemma_split_commas_step(suffix, c - start);
                assert(suffix.take(c - start) =~= bytes@.subrange(start as int, c as int));
                if c < end {
                    assert(suffix[c - start] == bytes@[c as int]);
                    assert(suffix.skip(c - start + 1) =~= bytes@.subrange(
                        c as int + 1,
                        end as int,
                    ));
                }
            }
            let name_bytes = trim_copy(bytes, start, c);
            let name = bytes_to_string_lossy(name_bytes.as_slice());
            let ghost k = names@.len() as int;
            proof {
                assert(spec_split_commas(suffix)[0] == bytes@.subrange(start as int, c as int));
                assert(pieces[k] == spec_split_commas(suffix)[0]);
                assert(name_bytes@ == spec_trim(pieces[k]));
            }
            names.push(name);
            proof {
                assert(pieces.take(k + 1) =~= pieces.take(k).push(pieces[k]));
                if c < end {
                    assert(spec_split_commas(suffix).drop_first() =~= spec_split_commas(
                        bytes@.subrange(c as int + 1, end as int),
                    ));
                    assert(pieces =~= pieces.take(k + 1) + spec_split_commas(
                        bytes@.subrange(c as int + 1, end as int),
                    ));
                } else {
                    assert(spec_split_commas(suffix) =~= seq![suffix]);
                    assert(pieces =~= pieces.take(k + 1));
                }
            }
            start = c + 1;
        }
        proof {
            assert(pieces.take(pieces.len() as int) =~= pieces);
            lemma_split_commas_count(hdr);
            assert(names@.len() < u32::MAX);
        }

        let field_cnt: u32 = names.len() as u32;
        let h = Header { header: names, new_line, field_cnt, delimiter: 0x2c, record_offset };
        proof {
            assert forall|k: int| 0 <= k < spec_field_names(hdr).len() implies (valid_utf8(
                #[trigger] spec_field_names(hdr)[k],
            ) ==> h.header@[k]@ == decode_utf8(spec_field_names(hdr)[k])) by {
                assert(spec_field_names(hdr)[k] == spec_trim(pieces[k]));
            }
        }
        Ok(h)
    }

    /// Number of fields per record, as found in the header row.
    pub fn field_cnt(&self) -> (r: u32)
        ensures
            r == self.field_cnt,
    {
        self.field_cnt
    }
}

/// Scanning over non-terminator bytes lands on the first terminator.
pub proof fn lemma_find_terminator_at(s: Seq<u8>, i: int, e: int)
    requires
        0 <= i <= e <= s.len(),
        forall|j: int| i <= j < e ==> !is_terminator_byte(s[j]),
        e < s.len() ==> is_terminator_byte(s[e]),
    ensures
        spec_find_terminator(s, i) == e,
    decreases e - i,
{
    if i < e {
        lemma_find_terminator_at(s, i + 1, e);
    }
}

/// A contiguous range of work units: `len` units starting at `start`.
#[derive(Debug, Clone, Copy, PartialEq, Eq, Structural)]
pub struct Boundary {
    /// First unit of the range.
    pub start: usize,
    /// Number of units in the range.
    pub len: usize,
}

/// Number of units every job receives.
pub open spec fn spec_job_size(task_size: u32, job_count: u8) -> int {
    task_size as int / job_count as int
}

/// Number of jobs that receive one extra unit.
pub open spec fn spec_job_rem(task_size: u32, job_count: u8) -> int {
    task_size as int % job_count as int
}

/// First unit of job `i`.
pub open spec fn spec_boundary_start(task_size: u32, job_count: u8, i: int) -> int {
    i * spec_job_size(task_size, job_count) + (if i < spec_job_rem(task_size, job_count) {
        i
    } else {
        spec_job_rem(task_size, job_count)
    })
}

/// Number of units of job `i`.
pub open spec fn spec_boundary_len(task_size: u32, job_count: u8, i: int) -> int {
    spec_job_size(task_size, job_count) + (if i < spec_job_rem(task_size, job_count) {
        1int
    } else {
        0int
    })
}

/// Divide `task_size` units of work into `job_count` near-equal contiguous
/// ranges.
///
/// The first `task_size % job_count` ranges receive one extra unit.  Returns
/// `None` when either argument is zero, and a single range covering
/// everything when there are fewer units than jobs.
pub fn boundaries(task_size: u32, job_count: u8) -> (r: Option<Vec<Boundary>>)
    ensures
        (r is None) == (task_size == 0 || job_count == 0),
        (task_size != 0 && job_count != 0 && task_size < job_count) ==> (match r {
            Some(v) => v@.len() == 1 && v@[0].start == 0 && v@[0].len == task_size,
            None => false,
        }),
        (job_count != 0 && task_size >= job_count) ==> (match r {
            Some(v) => {
                &&& v@.len() == job_count as int
                &&& forall|i: int|
                    0 <= i < job_count ==> (#[trigger] v@[i]).start == spec_boundary_start(
                        task_size,
                        job_count,
                        i,
                    ) && v@[i].len == spec_boundary_len(task_size, job_count, i)
            },
            None => false,
        }),
{
    if task_size == 0 || job_count == 0 {
        return None;
    }
    if task_size < job_count as u32 {
        let mut v: Vec<Boundary> = Vec::new();
        v.push(Boundary { start: 0, len: task_size as usize });
        return Some(v);
    }
    let job_size: u32 = task_size / (job_count as u32);
    let remainder: u32 = task_size % (job_count as u32);
    proof {
        lemma_fundamental_div_mod(task_size as int, job_count as int);
    }
    let mut v: Vec<Boundary> = Vec::new();
    let mut acc_end: u32 = 0;
    let mut i: u8 = 0;
    while i < job_count
        invariant
            0 < job_count,
            job_count as u32 <= task_size,
            job_size == spec_job_size(task_size, job_count),
            remainder == spec_job_rem(task_size, job_count),
            task_size as int == job_count as int * job_size + remainder,
            remainder < job_count as u32,
            i <= job_count,
            v@.len() == i as int,
            acc_end == spec_boundary_start(task_size, job_count, i as int),
            acc_end <= task_size,
            forall|k: int|
                0 <= k < i ==> (#[trigger] v@[k]).start == spec_boundary_start(
                    task_size,
                    job_count,
                    k,
                ) && v@[k].len == spec_boundary_len(task_size, job_count, k),
        decreases job_count - i,
    {
        let extra: u32 = if (i as u32) < remainder {
            1
        } else {
            0
        };
        proof {
            assert((i as int + 1) * job_size as int == i as int * job_size as int
                + job_size as int) by (nonlinear_arith);
            assert(spec_boundary_start(task_size, job_count, i as int + 1) <= task_size as int) by {
                assert((i as int + 1) * job_size as int <= job_count as int * job_size as int) by (
                nonlinear_arith)
                    requires
                        0 <= i as int + 1 <= job_count as int,
                        job_size as int >= 0,
                ;
            }
        }
        v.push(Boundary { start: acc_end as usize, len: (job_size + extra) as usize });
        acc_end = acc_end + job_size + extra;
        i += 1;
    }
    Some(v)
}

/// Multiplying a smaller non-negative factor by a non-negative number
/// keeps the order.
proof fn lemma_mul_le(a: int, b: int, c: int)
    by (nonlinear_arith)
    requires
        0 <= a <= b,
        0 <= c,
    ensures
        a * c <= b * c,
{
}

/// Each boundary starts where the previous one ended, holds at least one
/// unit, and stays within the task.
pub proof fn lemma_boundary_within(task_size: u32, job_count: u8, i: int)
    requires
        0 < job_count,
        job_count as u32 <= task_size,
        0 <= i < job_count,
    ensures
        0 <= spec_boundary_start(task_size, job_count, i),
        spec_boundary_start(task_size, job_count, i) + spec_boundary_len(task_size, job_count, i)
            == spec_boundary_start(task_size, job_count, i + 1),
        spec_boundary_start(task_size, job_count, i + 1) <= task_size,
        spec_boundary_len(task_size, job_count, i) >= 1,
{
    let q = spec_job_size(task_size, job_count);
    let rem = spec_job_rem(task_size, job_count);
    lemma_fundamental_div_mod(task_size as int, job_count as int);
    vstd::arithmetic::div_mod::lemma_div_pos_is_pos(task_size as int, job_count as int);
    assert(job_count as int * 0 == 0) by (nonlinear_arith);
    assert(q >= 1);
    assert(i * q >= 0) by (nonlinear_arith)
        requires
            i >= 0 && q >= 0,
    ;
    assert((i + 1) * q == i * q + q) by (nonlinear_arith);
    lemma_mul_le(i + 1, job_count as int, q);
}

/// Transitional form of a tape: the region, index and header are assembled,
/// but the record geometry has not been computed yet.
#[derive(Debug)]
pub struct TapeCore {
    /// The probed header metadata.
    pub header: Header,
    /// The structural index of the region.
    pub index: StructureIndex,
    /// The byte region itself.
    pub bytes: DataBytes,
    /// Index position of the first data record, once computed.
    pub first_record_idx: Option<usize>,
    /// Number of data records, once computed.
    pub record_cnt: Option<u32>,
    /// Index positions from one record start to the next, once computed.
    pub record_jump_size: Option<KeyToPos>,
}

impl TapeCore {
    /// The index lists the sentinel followed by exactly the structural
    /// positions of the region.
    pub open spec fn index_matches(self) -> bool {
        self.index.positions() == seq![0int] + structural_positions(self.bytes.0@)
    }

    /// The assembled parts are consistent: the index describes the region,
    /// the header names at least one field, and offsets fit the index type.
    pub open spec fn wf(self) -> bool {
        &&& self.index_matches()
        &&& 1 <= self.header.field_cnt < u32::MAX
        &&& (self.header.new_line is CRLF || self.header.new_line is LF)
        &&& self.bytes.0@.len() < u32::MAX
    }

    /// The record geometry has been computed and matches the index.
    pub open spec fn initialized(self) -> bool {
        let n = self.index.0@.len() as int;
        let st = self.header.spec_stride();
        &&& self.record_jump_size == Some(KeyToPos(st as usize))
        &&& (n - 1) % st == 0
        &&& n - 1 >= st
        &&& self.record_cnt == Some((((n - 1) / st - 1) as u32))
    }

    /// Assemble a tape core from its parts; the record geometry is computed
    /// by `Tape::from_core`.
    pub fn create(bytes: DataBytes, index: StructureIndex, header: Header) -> (r: Self)
        ensures
            r.header == header,
            r.index == index,
            r.bytes == bytes,
            r.first_record_idx is None,
            r.record_cnt is None,
            r.record_jump_size is None,
    {
        TapeCore {
            header,
            index,
            bytes,
            first_record_idx: None,
            record_cnt: None,
            record_jump_size: None,
        }
    }

    /// Compute the stride and the record count, and check that the index
    /// length is consistent with fixed-width records: one header row plus a
    /// whole number of records.
    pub(crate) fn init(&mut self) -> (r: Result<(), StructureError>)
        requires
            old(self).wf(),
        ensures
            match r {
                Ok(()) => {
                    &&& final(self).header == old(self).header
                    &&& final(self).index == old(self).index
                    &&& final(self).bytes == old(self).bytes
                    &&& final(self).first_record_idx == old(self).first_record_idx
                    &&& final(self).initialized()
                },
                Err(e) => {
                    &&& e == StructureError::InvalidCsvFormat
                    &&& *final(self) == *old(self)
                    &&& ((old(self).index.0@.len() - 1) % old(self).header.spec_stride() != 0 || (
                    old(self).index.0@.len() - 1) < old(self).header.spec_stride())
                },
            },
    {
        proof {
            lemma_structural_positions_in_count(
                self.bytes.0@,
                0,
                self.bytes.0@.len() as int,
            );
            assert(self.index.positions().len() == self.index.0@.len());
            assert(self.index.0@.len() == 1 + structural_positions(self.bytes.0@).len());
        }
        let n: usize = self.index.len();
        let jump: usize = match self.header.new_line {
            NewLine::CRLF => self.header.field_cnt as usize + 1,
            _ => self.header.field_cnt as usize,
        };
        let rows: usize = (n - 1) / jump;
        let problem: usize = (n - 1) % jump;
        if problem != 0 || rows == 0 {
            proof {
                if problem == 0 && rows == 0 {
                    lemma_fundamental_div_mod(n as int - 1, jump as int);
                    assert(jump as int * 0 == 0) by (nonlinear_arith);
                }
            }
            return Err(StructureError::InvalidCsvFormat);
        }
        proof {
            lemma_fundamental_div_mod(n as int - 1, jump as int);
            assert(rows as int * jump as int >= 1 * jump as int) by (nonlinear_arith)
                requires
                    rows >= 1 && jump >= 1,
            ;
            assert(rows as int * jump as int >= rows as int * 1) by (nonlinear_arith)
                requires
                    rows >= 0 && jump >= 1,
            ;
            assert(jump as int * rows as int == rows as int * jump as int) by (nonlinear_arith);
            assert(rows <= n - 1);
        }
        self.record_jump_size = Some(KeyToPos(jump));
        self.record_cnt = Some((rows - 1) as u32);
        Ok(())
    }

    /// The field names of the header row.
    pub fn header(&self) -> (r: &[String])
        ensures
            r@ == self.header.header@,
    {
        self.header.header.as_slice()
    }
}

/// The tape: the byte region, its structural index and the header metadata,
/// with the record geometry computed, supporting random access to records
/// and fields.
pub struct Tape {
    /// The probed header metadata.
    pub header: Header,
    /// Number of data records (the header row excluded).
    pub record_cnt: u32,
    /// Index positions from one record start to the next.
    pub record_jump_size: KeyToPos,
    /// The byte region.
    pub bytes: DataBytes,
    /// The structural index of the region.
    pub index: StructureIndex,
}

impl Tape {
    /// Index positions from one record start to the next.
    pub open spec fn stride(self) -> int {
        self.record_jump_size.0 as int
    }

    /// Number of rows in the region, the header row included.
    pub open spec fn rows(self) -> int {
        (self.index.0@.len() - 1) / self.stride()
    }

    /// The tape is consistent: the index lists the sentinel and exactly the
    /// structural positions of the region, the stride matches the header,
    /// and the index holds one header row plus `record_cnt` whole records.
    pub open spec fn wf(self) -> bool {
        &&& self.index.positions() == seq![0int] + structural_positions(self.bytes.0@)
        &&& 1 <= self.header.field_cnt < u32::MAX
        &&& (self.header.new_line is CRLF || self.header.new_line is LF)
        &&& self.record_jump_size.0 as int == self.header.spec_stride()
        &&& self.bytes.0@.len() < u32::MAX
        &&& (self.index.0@.len() - 1) % self.stride() == 0
        &&& self.rows() >= 1
        &&& self.record_cnt as int == self.rows() - 1
    }

    /// Compute the record geometry of an assembled core and seal it as a
    /// tape.  Fails with `InvalidCsvFormat` when the index length is not one
    /// header row plus a whole number of records.
    pub fn from_core(core: TapeCore) -> (r: Result<Tape, StructureError>)
        requires
            core.wf(),
        ensures
            match r {
                Ok(t) => {
                    &&& t.wf()
                    &&& t.header == core.header
                    &&& t.bytes == core.bytes
                    &&& t.index == core.index
                    &&& (core.index.0@.len() - 1) % core.header.spec_stride() == 0
                    &&& core.index.0@.len() - 1 >= core.header.spec_stride()
                },
                Err(e) => {
                    &&& e == StructureError::InvalidCsvFormat
                    &&& ((core.index.0@.len() - 1) % core.header.spec_stride() != 0 || (
                    core.index.0@.len() - 1) < core.header.spec_stride())
                },
            },
    {
        let mut core = core;
        match core.init() {
            Err(e) => Err(e),
            Ok(()) => {
                proof {
                    lemma_fundamental_div_mod(
                        core.index.0@.len() as int - 1,
                        core.header.spec_stride(),
                    );
                    lemma_structural_positions_in_count(
                        core.bytes.0@,
                        0,
                        core.bytes.0@.len() as int,
                    );
                    assert(core.index.positions().len() == core.index.0@.len());
                    assert(core.index.0@.len() == 1 + structural_positions(core.bytes.0@).len());
                }
                let record_cnt: u32 = match core.record_cnt {
                    Some(c) => c,
                    None => {
                        proof {
                            assert(false);
                        }
                        0
                    },
                };
                let record_jump_size: KeyToPos = match core.record_jump_size {
                    Some(k) => k,
                    None => {
                        proof {
                            assert(false);
                        }
                        KeyToPos(1)
                    },
                };
                Ok(
                    Tape {
                        header: core.header,
                        record_cnt,
                        record_jump_size,
                        bytes: DataBytes(core.bytes.0),
                        index: core.index,
                    },
                )
            },
        }
    }

    /// Split the rows of the tape into `num` chunks of near-equal record
    /// count.  The first chunk starts one stride in, skipping the header
    /// row.  Fails with `InvalidState` when no split is possible.
    pub fn chunks<'index>(&'index self, num: u8) -> (r: Result<Chunks<'index>, StructureError>)
        requires
            self.wf(),
        ensures
            match r {
                Err(e) => e == StructureError::InvalidState && num == 0,
                Ok(cs) => num != 0 && ({
                    let rows = (self.record_cnt + 1) as u32;
                    let st = self.stride();
                    &&& cs@.len() == (if rows < num as u32 {
                        1int
                    } else {
                        num as int
                    })
                    &&& forall|i: int|
                        0 <= i < cs@.len() ==> {
                            let c = #[trigger] cs@[i];
                            &&& c.id == i
                            &&& c.index == &self.index
                            &&& c.record_cnt as int == spec_chunk_blen(rows, num, i) - (if i == 0 {
                                1int
                            } else {
                                0int
                            })
                            &&& c.start.0 as int == (if i == 0 {
                                st
                            } else {
                                spec_chunk_bstart(rows, num, i) * st
                            })
                            &&& c.end.0 as int == (spec_chunk_bstart(rows, num, i)
                                + spec_chunk_blen(rows, num, i)) * st
                        }
                }),
            },
    {
        proof {
            self.chunk_arith_facts();
        }
        let rows: u32 = self.record_cnt + 1;
        let bs: Vec<Boundary> = match boundaries(rows, num) {
            Some(b) => b,
            None => {
                return Err(StructureError::InvalidState);
            },
        };
        proof {
            if rows >= num as u32 {
                assert forall|k: int| 0 <= k < bs@.len() implies 0 <= (#[trigger] bs@[k]).start
                    && 1 <= bs@[k].len && bs@[k].start + bs@[k].len <= rows by {
                    lemma_boundary_within(rows, num, k);
                }
            }
        }
        let st: usize = self.record_jump_size.0;
        let n: usize = self.index.len();
        let mut cs: Vec<Chunk<'index>> = Vec::new();
        let mut i: usize = 0;
        while i < bs.len()
            invariant
                self.wf(),
                rows == self.record_cnt + 1,
                1 <= rows,
                num != 0,
                st == self.stride(),
                n == self.index.0@.len(),
                n - 1 == ((n - 1) as int / st as int) * st,
                rows <= (n - 1) as int / st as int,
                bs@.len() == (if rows < num as u32 {
                    1int
                } else {
                    num as int
                }),
                forall|k: int|
                    0 <= k < bs@.len() ==> (#[trigger] bs@[k]).start == spec_chunk_bstart(
                        rows,
                        num,
                        k,
                    ) && bs@[k].len == spec_chunk_blen(rows, num, k),
                forall|k: int|
                    0 <= k < bs@.len() ==> 0 <= (#[trigger] bs@[k]).start && 1 <= bs@[k].len
                        && bs@[k].start + bs@[k].len <= rows,
                i <= bs@.len(),
                bs@.len() <= 255,
                cs@.len() == i,
                forall|k: int|
                    0 <= k < i ==> {
                        let c = #[trigger] cs@[k];
                        &&& c.id == k
                        &&& c.index == &self.index
                        &&& c.record_cnt as int == spec_chunk_blen(rows, num, k) - (if k == 0 {
                            1int
                        } else {
                            0int
                        })
                        &&& c.start.0 as int == (if k == 0 {
                            self.stride()
                        } else {
                            spec_chunk_bstart(rows, num, k) * self.stride()
                        })
                        &&& c.end.0 as int == (spec_chunk_bstart(rows, num, k) + spec_chunk_blen(
                            rows,
                            num,
                            k,
                        )) * self.stride()
                    },
            decreases bs@.len() - i,
        {
            let b: Boundary = bs[i];
            proof {
                lemma_mul_le(b.start as int + b.len as int, rows as int, st as int);
                lemma_mul_le(rows as int, (n - 1) as int / st as int, st as int);
                assert(rows as int * st as int <= n - 1);
                lemma_mul_le(b.start as int, b.start as int + b.len as int, st as int);
            }
            let end_key: usize = (b.start + b.len) * st;
            let (start_key, cnt): (usize, u32) = if i == 0 {
                (st, (b.len - 1) as u32)
            } else {
                (b.start * st, b.len as u32)
            };
            cs.push(
                Chunk {
                    id: i as u8,
                    start: KeyToPos(start_key),
                    end: KeyToPos(end_key),
                    record_cnt: cnt,
                    index: &self.index,
                },
            );
            i += 1;
        }
        Ok(cs)
    }

    /// Arithmetic facts tying the record count to the index length.
    proof fn chunk_arith_facts(&self)
        requires
            self.wf(),
        ensures
            self.record_cnt as int + 1 == self.rows(),
            self.rows() * self.stride() == self.index.0@.len() - 1,
            self.rows() <= self.index.0@.len() - 1,
            self.index.0@.len() - 1 <= self.bytes.0@.len(),
            self.record_cnt as int + 1 < u32::MAX,
    {
        let n = self.index.0@.len() as int;
        let st = self.stride();
        assert(self.index.positions().len() == n);
        lemma_fundamental_div_mod(n - 1, st);
        assert(self.rows() * st >= self.rows() * 1) by (nonlinear_arith)
            requires
                self.rows() >= 0 && st >= 1,
        ;
        assert(self.rows() * st >= 1 * st) by (nonlinear_arith)
            requires
                self.rows() >= 1 && st >= 1,
        ;
        lemma_structural_positions_in_count(self.bytes.0@, 0, self.bytes.0@.len() as int);
        assert(structural_positions(self.bytes.0@).len() == n - 1);
    }

    /// The structural index of the region.
    pub fn index(&self) -> (r: &StructureIndex)
        ensures
            r == &self.index,
    {
        &self.index
    }

    /// The byte region.
    pub fn bytes(&self) -> (r: &DataBytes)
        ensures
            r == &self.bytes,
    {
        &self.bytes
    }

    /// View the tape through its record source.
    pub fn as_records(&self) -> (r: WithRecordSource<&Tape>)
        ensures
            r.0 == self,
    {
        WithRecordSource(self)
    }

    /// The field names of the header row.
    pub fn header(&self) -> (r: &Vec<String>)
        ensures
            r == &self.header.header,
    {
        &self.header.header
    }
}

/// First record of chunk `i`, counted over all rows: the plain boundary
/// start, or zero when everything fits one chunk.
pub open spec fn spec_chunk_bstart(rows: u32, num: u8, i: int) -> int {
    if rows < num as u32 {
        0
    } else {
        spec_boundary_start(rows, num, i)
    }
}

/// Number of rows of chunk `i`: the plain boundary length, or all rows when
/// everything fits one chunk.
pub open spec fn spec_chunk_blen(rows: u32, num: u8, i: int) -> int {
    if rows < num as u32 {
        rows as int
    } else {
        spec_boundary_len(rows, num, i)
    }
}

impl RecordSource for Tape {
    open spec fn src_index(&self) -> Seq<int> {
        self.index.positions()
    }

    open spec fn src_bytes(&self) -> Seq<u8> {
        self.bytes.0@
    }

    open spec fn src_field_cnt(&self) -> u32 {
        self.header.field_cnt
    }

    open spec fn src_stride(&self) -> int {
        self.record_jump_size.0 as int
    }

    open spec fn src_record_cnt(&self) -> Option<u32> {
        Some(self.record_cnt)
    }

    open spec fn src_new_line(&self) -> NewLine {
        self.header.new_line
    }

    open spec fn src_wf(&self) -> bool {
        self.wf()
    }

    proof fn src_wf_facts(&self) {
        assert(self.src_stride() == self.header.spec_stride());
        assert(self.header.spec_stride() == self.header.field_cnt as int + (
        if self.header.new_line is CRLF {
            1int
        } else {
            0int
        }));
        assert(self.src_stride() == self.src_field_cnt() + (if self.src_new_line() is CRLF {
            1int
        } else {
            0int
        }));
        lemma_tape_geometry(
            self.index.positions(),
            self.bytes.0@,
            self.record_cnt as int,
            self.stride(),
            self.index.0@.len() as int,
        );
    }

    fn record_cnt(&self) -> (r: Option<u32>) {
        Some(self.record_cnt)
    }

    fn index(&self) -> (r: &StructureIndex) {
        &self.index
    }

    fn record_jump_size(&self) -> (r: Result<KeyToPos, StructureError>) {
        Ok(self.record_jump_size)
    }

    fn field_cnt(&self) -> (r: u32) {
        self.header.field_cnt
    }

    fn new_line_tag(&self) -> (r: &NewLine) {
        &self.header.new_line
    }

    fn data_bytes(&self) -> (r: &[u8]) {
        self.bytes.0.as_slice()
    }
}

impl RecordSource for TapeCore {
    open spec fn src_index(&self) -> Seq<int> {
        self.index.positions()
    }

    open spec fn src_bytes(&self) -> Seq<u8> {
        self.bytes.0@
    }

    open spec fn src_field_cnt(&self) -> u32 {
        self.header.field_cnt
    }

    open spec fn src_stride(&self) -> int {
        self.header.spec_stride()
    }

    open spec fn src_record_cnt(&self) -> Option<u32> {
        self.record_cnt
    }

    open spec fn src_new_line(&self) -> NewLine {
        self.header.new_line
    }

    open spec fn src_wf(&self) -> bool {
        &&& self.wf()
        &&& (self.record_cnt is Some <==> self.record_jump_size is Some)
        &&& (self.record_cnt is Some ==> self.initialized())
    }

    proof fn src_wf_facts(&self) {
        assert(self.src_stride() == self.header.spec_stride());
        assert(self.header.spec_stride() == self.header.field_cnt as int + (
        if self.header.new_line is CRLF {
            1int
        } else {
            0int
        }));
        assert(self.src_stride() == self.src_field_cnt() + (if self.src_new_line() is CRLF {
            1int
        } else {
            0int
        }));
        if self.record_cnt is Some {
            let n = self.index.0@.len() as int;
            let st = self.header.spec_stride();
            lemma_structural_positions_in_count(self.bytes.0@, 0, self.bytes.0@.len() as int);
            assert(self.index.positions().len() == n);
            lemma_fundamental_div_mod(n - 1, st);
            let rows = (n - 1) / st;
            assert(st * rows == rows * st) by (nonlinear_arith);
            assert(rows <= 0 ==> st * rows <= 0) by (nonlinear_arith)
                requires
                    st >= 1,
            ;
            assert(rows >= 1);
            assert(rows * st >= 1 * st) by (nonlinear_arith)
                requires
                    rows >= 1 && st >= 1,
            ;
            assert(rows as int * st as int >= rows as int * 1) by (nonlinear_arith)
                requires
                    rows >= 0 && st >= 1,
            ;
            lemma_tape_geometry(self.index.positions(), self.bytes.0@, rows - 1, st, n);
        }
    }

    fn record_cnt(&self) -> (r: Option<u32>) {
        self.record_cnt
    }

    fn index(&self) -> (r: &StructureIndex) {
        &self.index
    }

    fn record_jump_size(&self) -> (r: Result<KeyToPos, StructureError>) {
        match self.record_jump_size {
            Some(k) => Ok(k),
            None => Err(StructureError::InvalidState),
        }
    }

    fn field_cnt(&self) -> (r: u32) {
        self.header.field_cnt
    }

    fn new_line_tag(&self) -> (r: &NewLine) {
        &self.header.new_line
    }

    fn data_bytes(&self) -> (r: &[u8]) {
        self.bytes.0.as_slice()
    }
}

/// Geometry of a consistent tape: an index that lists the sentinel followed
/// by the structural positions of the region, with one header row plus `rc`
/// whole records of stride `st`, starts at zero, increases strictly past the
/// sentinel and stays inside the region.
proof fn lemma_tape_geometry(ix: Seq<int>, s: Seq<u8>, rc: int, st: int, n: int)
    requires
        ix == seq![0int] + structural_positions(s),
        ix.len() == n,
        st >= 1,
        (n - 1) % st == 0,
        (n - 1) / st >= 1,
        rc == (n - 1) / st - 1,
    ensures
        ix.len() == 1 + (rc + 1) * st,
        ix[0] == 0,
        forall|k: int, l: int| 1 <= k < l < ix.len() ==> #[trigger] ix[k] < #[trigger] ix[l],
        forall|k: int| 1 <= k < ix.len() ==> 0 <= #[trigger] ix[k] < s.len(),
{
    let sp = structural_positions(s);
    lemma_fundamental_div_mod(n - 1, st);
    assert(st * ((n - 1) / st) == ((n - 1) / st) * st) by (nonlinear_arith);
    assert((rc + 1) * st == n - 1);
    lemma_structural_positions_in_range(s, 0, s.len() as int);
    assert(ix[0] == 0);
    assert forall|k: int, l: int| 1 <= k < l < ix.len() implies #[trigger] ix[k]
        < #[trigger] ix[l] by {
        assert(ix[k] == sp[k - 1]);
        assert(ix[l] == sp[l - 1]);
    }
    assert forall|k: int| 1 <= k < ix.len() implies 0 <= #[trigger] ix[k] < s.len() by {
        assert(ix[k] == sp[k - 1]);
    }
}

impl Tape {
    /// The offset stored at index position `k`.
    pub open spec fn pos(self, k: int) -> int {
        self.index.positions()[k]
    }

    /// The terminator byte sequence of the tape's line ending.
    pub open spec fn terminator(self) -> Seq<u8> {
        if self.header.new_line is CRLF {
            seq![0x0du8, 0x0au8]
        } else {
            seq![0x0au8]
        }
    }

    /// Every record boundary of the index points at a terminator of the
    /// file's convention, the region ends at its last terminator, and the
    /// data records begin right after the header terminator.
    pub open spec fn records_terminated(self) -> bool {
        let st = self.stride();
        let n = self.index.0@.len() as int;
        &&& forall|k: int|
            1 <= k <= self.rows() ==> self.bytes.0@[#[trigger] self.pos(k * st)] == 0x0a
        &&& (self.header.new_line is CRLF ==> forall|k: int|
            1 <= k <= self.rows() ==> #[trigger] self.pos(k * st - 1) == self.pos(k * st) - 1
                && self.bytes.0@[self.pos(k * st) - 1] == 0x0d)
        &&& self.pos(n - 1) == self.bytes.0@.len() - 1
        &&& self.header.record_offset == self.pos(self.stride()) + 1
    }

    /// The whole-record slice of record `r`: from one past the previous
    /// record's terminator up to (and excluding) this record's terminator.
    pub open spec fn record_slice(self, r: int) -> Seq<u8> {
        self.bytes.0@.subrange(
            self.pos((r + 1) * self.stride()) + 1,
            self.pos((r + 1) * self.stride() + self.header.field_cnt),
        )
    }

    /// Records `0 .. n`, each followed by the terminator of the tape's line
    /// ending.
    pub open spec fn records_concat(self, n: int) -> Seq<u8>
        decreases n,
    {
        if n <= 0 {
            Seq::empty()
        } else {
            self.records_concat(n - 1) + self.record_slice(n - 1) + self.terminator()
        }
    }
}

/// A sealed tape keeps the row invariant: the entries past the sentinel form
/// whole rows of one stride each, the sentinel is zero, and the record count
/// excludes exactly the header row.
pub proof fn lemma_tape_row_invariant(t: Tape)
    requires
        t.wf(),
    ensures
        (t.index.0@.len() - 1) % t.stride() == 0,
        t.index.positions()[0] == 0,
        t.record_cnt as int == (t.index.0@.len() - 1) / t.stride() - 1,
{
}

/// The positions addressed for field `f` of record `r` lie within the index
/// and past the sentinel.
proof fn lemma_field_position_bounds(t: Tape, r: int, f: int)
    requires
        t.wf(),
        0 <= r < t.record_cnt,
        0 <= f < t.header.field_cnt,
    ensures
        1 <= (r + 1) * t.stride() + f,
        (r + 1) * t.stride() + f + 1 <= t.index.0@.len() - 1,
        t.rows() * t.stride() == t.index.0@.len() - 1,
{
    let st = t.stride();
    let n = t.index.0@.len() as int;
    lemma_fundamental_div_mod(n - 1, st);
    assert(st * t.rows() == t.rows() * st) by (nonlinear_arith);
    assert((r + 1) * st >= 1 * st) by (nonlinear_arith)
        requires
            r >= 0 && st >= 1,
    ;
    assert((r + 1) * st + st == (r + 2) * st) by (nonlinear_arith);
    assert((r + 2) * st <= t.rows() * st) by (nonlinear_arith)
        requires
            r + 2 <= t.rows() && st >= 1,
    ;
}

/// Inside a field no byte is structural: every field-delimiter byte between
/// two consecutive index entries lies within a quoted span (the quote count
/// strictly to its left is odd).
pub proof fn lemma_field_commas_quoted(t: Tape, r: int, f: int)
    requires
        t.wf(),
        0 <= r < t.record_cnt,
        0 <= f < t.header.field_cnt,
    ensures
        ({
            let p = (r + 1) * t.stride() + f;
            forall|j: int|
                t.pos(p) < j < t.pos(p + 1) ==> (t.bytes.0@[j] == 0x2c ==> quote_parity(
                    #[trigger] t.bytes.0@.take(j),
                ))
        }),
{
    let s = t.bytes.0@;
    let sp = structural_positions(s);
    let ix = t.index.positions();
    let st = t.stride();
    let n = t.index.0@.len() as int;
    let p = (r + 1) * st + f;
    lemma_field_position_bounds(t, r, f);
    lemma_structural_positions_in_range(s, 0, s.len() as int);
    assert(ix.len() == n);
    assert(sp.len() == n - 1);
    assert(ix[p] == sp[p - 1]);
    assert(ix[p + 1] == sp[p]);
    assert forall|j: int| t.pos(p) < j < t.pos(p + 1) implies (t.bytes.0@[j] == 0x2c
        ==> quote_parity(#[trigger] t.bytes.0@.take(j))) by {
        if s[j] == 0x2c && !quote_parity(s.take(j)) {
            assert(is_structural(s, j));
            crate::model::lemma_structural_positions_in_complete(s, 0, s.len() as int, j);
            assert(sp.contains(j));
            let l = choose|l: int| 0 <= l < sp.len() && sp[l] == j;
            if l <= p - 1 {
                assert(sp[l] <= sp[p - 1]);
            } else {
                assert(sp[l] >= sp[p]);
            }
            assert(false);
        }
    }
}

/// Round trip: the whole-record slices of all records, each followed by the
/// terminator of the tape's line ending, concatenate to the data region
/// exactly, byte for byte.
pub proof fn lemma_round_trip(t: Tape)
    requires
        t.wf(),
        t.records_terminated(),
    ensures
        t.records_concat(t.record_cnt as int) == t.bytes.0@.subrange(
            t.header.record_offset as int,
            t.bytes.0@.len() as int,
        ),
{
    let st = t.stride();
    let n = t.index.0@.len() as int;
    lemma_round_trip_upto(t, t.record_cnt as int);
    lemma_tape_sorted(t);
    lemma_fundamental_div_mod(n - 1, st);
    assert(st * t.rows() == t.rows() * st) by (nonlinear_arith);
    assert(t.rows() * st >= 1 * st) by (nonlinear_arith)
        requires
            t.rows() >= 1 && st >= 1,
    ;
    assert((t.record_cnt as int + 1) * st == n - 1);
    assert(st <= n - 1);
    assert(t.pos(n - 1) + 1 == t.bytes.0@.len());
    assert(t.records_concat(t.record_cnt as int) =~= t.bytes.0@.subrange(
        t.header.record_offset as int,
        t.bytes.0@.len() as int,
    ));
}

/// The index of a consistent tape is sorted past the sentinel and stays
/// inside the region.
proof fn lemma_tape_sorted(t: Tape)
    requires
        t.wf(),
    ensures
        forall|k: int, l: int|
            1 <= k < l < t.index.0@.len() ==> #[trigger] t.pos(k) < #[trigger] t.pos(l),
        forall|k: int|
            1 <= k < t.index.0@.len() ==> 0 <= #[trigger] t.pos(k) < t.bytes.0@.len(),
        t.pos(0) == 0,
        t.index.positions().len() == t.index.0@.len(),
{
    let n = t.index.0@.len() as int;
    let st = t.stride();
    lemma_fundamental_div_mod(n - 1, st);
    assert(t.index.positions().len() == n);
    lemma_tape_geometry(
        t.index.positions(),
        t.bytes.0@,
        t.record_cnt as int,
        st,
        n,
    );
}

/// One step of the round trip: the first `n` records with their terminators
/// cover the data region up to the end of record `n - 1`'s terminator.
proof fn lemma_round_trip_upto(t: Tape, n: int)
    requires
        t.wf(),
        t.records_terminated(),
        0 <= n <= t.record_cnt,
    ensures
        t.records_concat(n) == t.bytes.0@.subrange(
            t.pos(t.stride()) + 1,
            t.pos((n + 1) * t.stride()) + 1,
        ),
    decreases n,
{
    let s = t.bytes.0@;
    let st = t.stride();
    let fc = t.header.field_cnt as int;
    let nn = t.index.0@.len() as int;
    lemma_tape_sorted(t);
    lemma_fundamental_div_mod(nn - 1, st);
    assert(st * t.rows() == t.rows() * st) by (nonlinear_arith);
    assert(t.rows() * st == nn - 1);
    assert(t.rows() * st >= 1 * st) by (nonlinear_arith)
        requires
            t.rows() >= 1 && st >= 1,
    ;
    assert(st <= nn - 1);
    if n == 0 {
        assert(t.pos(st) < s.len());
        assert(t.records_concat(0) =~= s.subrange(t.pos(st) + 1, t.pos(1 * st) + 1));
    } else {
        lemma_round_trip_upto(t, n - 1);
        lemma_field_position_bounds(t, n - 1, 0);
        assert((n + 1) * st == n * st + st) by (nonlinear_arith);
        assert(n * st + st <= t.rows() * st) by (nonlinear_arith)
            requires
                n + 1 <= t.rows() && st >= 1,
        ;
        assert(n * st >= 1 * st) by (nonlinear_arith)
            requires
                n >= 1 && st >= 1,
        ;
        assert(1 <= n + 1 <= t.rows());
        assert(s[t.pos((n + 1) * st)] == 0x0a);
        let d = t.pos(st) + 1;
        let a = t.pos(n * st) + 1;
        let b = t.pos(n * st + fc);
        let e = t.pos((n + 1) * st) + 1;
        assert(t.record_slice(n - 1) == s.subrange(a, b));
        if t.header.new_line is CRLF {
            assert(st == fc + 1);
            assert(n * st + fc == (n + 1) * st - 1);
            assert(t.pos((n + 1) * st - 1) == t.pos((n + 1) * st) - 1);
            assert(s[t.pos((n + 1) * st) - 1] == 0x0d);
            assert(t.terminator() =~= s.subrange(b, e));
        } else {
            assert(st == fc);
            assert(n * st + fc == (n + 1) * st);
            assert(t.terminator() =~= s.subrange(b, e));
        }
        assert(d <= a <= b <= e <= s.len());
        assert(t.records_concat(n) == t.records_concat(n - 1) + t.record_slice(n - 1)
            + t.terminator());
        assert(t.records_concat(n) =~= s.subrange(d, e));
    }
}

} // verus!
