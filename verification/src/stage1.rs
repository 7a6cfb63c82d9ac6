//! Per-block structural scan.
//!
//! A 64-byte block is classified byte by byte through two 16-entry nibble
//! tables, giving each byte a class bitset (`0x01` line terminator, `0x02`
//! field separator, `0x10` quote).  From the classes a 64-bit quote bitmap
//! and a 64-bit delimiter bitmap are extracted; the quote parity, seeded with
//! the carry from the previous block, masks out delimiters inside quoted
//! spans; the surviving bits are expanded into absolute offsets appended to
//! the structural index.

use vstd::prelude::*;
use vstd::std_specs::bits::u64_trailing_zeros;

use crate::model::{
    bit64, bit_positions, bit_positions_from, is_delim_byte, is_quote_byte,
    lemma_bit_positions_from_congruent, lemma_bit_positions_from_range,
    lemma_bit_positions_from_skip_clear, lemma_quote_parity_push, quote_parity, shift_positions,
};

verus! {

/// The memory offset of a code unit in the byte region.  The structural
/// index is a sequence of these; each must lie inside the region.
#[derive(Debug, PartialEq, Clone, Copy)]
pub struct CodeUnitPos(pub usize);

/// A position *into the structural index* (not a byte offset); chunks are
/// delimited by these keys.
#[derive(Debug, PartialEq, Clone, Copy)]
pub struct KeyToPos(pub usize);

/// The structural index of a byte region: the offsets of every structural
/// code unit, led by a sentinel entry `0`.
#[derive(Debug)]
pub struct StructureIndex(pub Vec<CodeUnitPos>);

/// The byte offsets stored in a sequence of code-unit positions, as
/// mathematical integers.
pub open spec fn pos_seq(s: Seq<CodeUnitPos>) -> Seq<int> {
    s.map_values(|c: CodeUnitPos| c.0 as int)
}

impl StructureIndex {
    /// The stored offsets as integers, in storage order.
    pub open spec fn positions(&self) -> Seq<int> {
        pos_seq(self.0@)
    }

    /// Number of entries, sentinel included.
    pub fn len(&self) -> (n: usize)
        ensures
            n == self.0@.len(),
    {
        self.0.len()
    }

    /// The entry at position `i` of the index.
    pub fn get(&self, i: usize) -> (c: CodeUnitPos)
        requires
            i < self.0@.len(),
        ensures
            c == self.0@[i as int],
    {
        self.0[i]
    }
}

/// The low-nibble lookup table of the classifier.
pub open spec fn lo_table(n: u8) -> u8 {
    if n == 0 {
        4
    } else if n == 2 {
        16
    } else if n == 10 {
        1
    } else if n == 12 {
        10
    } else if n == 13 {
        1
    } else {
        0
    }
}

/// The high-nibble lookup table of the classifier.
pub open spec fn hi_table(n: u8) -> u8 {
    if n == 0 {
        1
    } else if n == 2 {
        22
    } else if n == 5 {
        8
    } else {
        0
    }
}

/// The class bitset of a byte: the low-nibble entry masked with the
/// high-nibble entry.
pub open spec fn class_of(b: u8) -> u8 {
    lo_table(b & 0x0f) & hi_table(b >> 4)
}

/// The nibble tables recognise exactly the delimiter bytes (class bits
/// `0x03`) and the quote byte (class bit `0x10`).
pub proof fn lemma_class_of(b: u8)
    by (bit_vector)
    ensures
        ((class_of(b) & 0x03) != 0) == is_delim_byte(b),
        ((class_of(b) & 0x10) != 0) == is_quote_byte(b),
{
}

/// Setting bit `i` leaves every other bit unchanged.
pub proof fn lemma_or_bit(x: u64, i: u64)
    requires
        i < 64,
    ensures
        bit64(x | (1u64 << i), i as int),
        forall|j: int| 0 <= j < 64 && j != i ==> #[trigger] bit64(x | (1u64 << i), j) == bit64(
            x,
            j,
        ),
{
    assert(((x | (1u64 << i)) >> i) & 1u64 == 1u64) by (bit_vector)
        requires
            i < 64,
    ;
    assert(forall|j: u64|
        j < 64 && j != i ==> #[trigger] ((x | (1u64 << i)) >> j) & 1u64 == (x >> j) & 1u64)
        by (bit_vector)
        requires
            i < 64,
    ;
    assert forall|j: int| 0 <= j < 64 && j != i implies #[trigger] bit64(x | (1u64 << i), j)
        == bit64(x, j) by {
        let ju = j as u64;
        assert(((x | (1u64 << i)) >> ju) & 1u64 == (x >> ju) & 1u64);
    }
}

/// The zero word has no set bits.
pub proof fn lemma_zero_bits()
    ensures
        forall|j: int| 0 <= j < 64 ==> !bit64(0u64, j),
{
    assert(forall|j: u64| j < 64 ==> #[trigger] ((0u64 >> j) & 1u64) != 1u64) by (bit_vector);
    assert forall|j: int| 0 <= j < 64 implies !bit64(0u64, j) by {
        let ju = j as u64;
        assert((0u64 >> ju) & 1u64 != 1u64);
    }
}

/// `x & (x - 1)` clears exactly the lowest set bit of a non-zero word.
/// The low bits of `x` below `t` being clear is given as the shifted form
/// `x << (64 - t) == 0`.
proof fn lemma_clear_lowest(x: u64, t: u64, y: u64)
    requires
        x != 0,
        t < 64,
        y == x & ((x - 1) as u64),
        bit64(x, t as int),
        x << ((64 - t) as u64) == 0,
    ensures
        forall|j: int| 0 <= j < 64 ==> #[trigger] bit64(y, j) == (bit64(x, j) && j != t),
        y < x,
{
    assert(forall|j: u64|
        j < 64 ==> #[trigger] ((y >> j) & 1u64) == (if ((x >> j) & 1u64 == 1u64) && j != t {
            1u64
        } else {
            0u64
        })) by (bit_vector)
        requires
            x != 0,
            t < 64,
            y == x & ((x - 1) as u64),
            (x >> t) & 1u64 == 1u64,
            x << ((64 - t) as u64) == 0,
    ;
    assert forall|j: int| 0 <= j < 64 implies #[trigger] bit64(y, j) == (bit64(x, j) && j != t) by {
        let ju = j as u64;
        assert((y >> ju) & 1u64 == (if ((x >> ju) & 1u64 == 1u64) && ju != t {
            1u64
        } else {
            0u64
        }));
    }
    assert(y < x) by (bit_vector)
        requires
            x != 0,
            y == x & ((x - 1) as u64),
    ;
}

/// Clearing the lowest set bit removes the first listed position.
pub proof fn lemma_bit_positions_decompose(x: u64, y: u64)
    requires
        x != 0,
        y == x & ((x - 1) as u64),
    ensures
        u64_trailing_zeros(x) < 64,
        bit_positions(x) == seq![u64_trailing_zeros(x) as int] + bit_positions(y),
        y < x,
{
    broadcast use vstd::std_specs::bits::group_bits_axioms;

    let t = u64_trailing_zeros(x);
    assert(t < 64);
    assert(bit64(x, t as int));
    assert(x << ((64 - t as u64) as u64) == 0);
    lemma_clear_lowest(x, t as u64, y);
    assert forall|j: int| 0 <= j < t implies !bit64(x, j) by {
        let ju = j as u64;
        assert((x >> ju) & 1u64 == 0u64);
    }
    lemma_bit_positions_from_skip_clear(x, 0, t as int);
    assert(bit_positions_from(x, t as int) == seq![t as int] + bit_positions_from(x, t as int + 1));
    lemma_bit_positions_from_congruent(y, x, t as int + 1);
    assert forall|j: int| 0 <= j < t + 1 implies !bit64(y, j) by {
        if j < t {
            assert(!bit64(x, j));
        }
    }
    lemma_bit_positions_from_skip_clear(y, 0, t as int + 1);
}

/// A 64-byte input block: four 16-byte lanes held contiguously.
pub(crate) struct SimdInput {
    v: Vec<u8>,
}

impl View for SimdInput {
    type V = Seq<u8>;

    closed spec fn view(&self) -> Seq<u8> {
        self.v@
    }
}

impl SimdInput {
    /// Load a full 64-byte block starting at offset `at`.
    pub(crate) fn new(bytes: &[u8], at: usize) -> (r: Self)
        requires
            at + 64 <= bytes@.len(),
        ensures
            r@ == bytes@.subrange(at as int, at as int + 64),
    {
        let len: usize = bytes.len();
        let mut v: Vec<u8> = Vec::new();
        let mut i: usize = 0;
        while i < 64
            invariant
                i <= 64,
                v@.len() == i,
                at + 64 <= len,
                len == bytes@.len(),
                forall|j: int| 0 <= j < i ==> v@[j] == bytes@[at + j],
            decreases 64 - i,
        {
            v.push(bytes[at + i]);
            i += 1;
        }
        let r = SimdInput { v };
        proof {
            assert(r@ =~= bytes@.subrange(at as int, at as int + 64));
        }
        r
    }

    /// Load the final partial block starting at offset `at`: the remaining
    /// bytes (fewer than 64) padded with zero bytes up to a full block.
    pub(crate) fn new_with_padding(bytes: &[u8], at: usize) -> (r: Self)
        requires
            at <= bytes@.len() < at + 64,
        ensures
            r@.len() == 64,
            forall|j: int| 0 <= j < bytes@.len() - at ==> r@[j] == bytes@[at + j],
            forall|j: int| bytes@.len() - at <= j < 64 ==> r@[j] == 0,
    {
        let len = bytes.len();
        let mut v: Vec<u8> = Vec::new();
        let mut i: usize = 0;
        while i < 64
            invariant
                i <= 64,
                v@.len() == i,
                at <= len < at + 64,
                len == bytes@.len(),
                forall|j: int| 0 <= j < i && at + j < len ==> v@[j] == bytes@[at + j],
                forall|j: int| 0 <= j < i && at + j >= len ==> v@[j] == 0,
            decreases 64 - i,
        {
            if i < len - at {
                v.push(bytes[at + i]);
            } else {
                v.push(0);
            }
            i += 1;
        }
        SimdInput { v }
    }

    /// Transform the block into its structural bitmap.
    ///
    /// On return, bit `i` of `structure` is set exactly when byte `i` is a
    /// delimiter preceded (carry included) by an even number of quotes, and
    /// `in_string` holds the quote parity at the end of the block: the one
    /// bit of state carried into the next block.
    pub(crate) fn structure(&self, structure: &mut u64, in_string: &mut bool)
        requires
            self@.len() == 64,
        ensures
            forall|i: int|
                0 <= i < 64 ==> #[trigger] bit64(*final(structure), i) == (is_delim_byte(
                    self@[i],
                ) && !(*old(in_string) != quote_parity(self@.take(i)))),
            *final(in_string) == (*old(in_string) != quote_parity(self@)),
    {
        let mut classes: Vec<u8> = Vec::new();
        let mut i: usize = 0;
        while i < 64
            invariant
                i <= 64,
                self@.len() == 64,
                classes@.len() == i,
                forall|j: int| 0 <= j < i ==> classes@[j] == class_of(self@[j]),
            decreases 64 - i,
        {
            classes.push(classify(self.v[i]));
            i += 1;
        }
        let quote_bits: u64 = get_struct_positions(16, &classes);
        let all_struct: u64 = get_struct_positions(3, &classes);

        let ghost carry = *in_string;
        let mut m: u64 = 0;
        let mut parity: bool = *in_string;
        let mut i: u64 = 0;
        proof {
            lemma_zero_bits();
            assert(self@.take(0) =~= Seq::<u8>::empty());
        }
        while i < 64
            invariant
                i <= 64,
                self@.len() == 64,
                classes@.len() == 64,
                forall|j: int| 0 <= j < 64 ==> classes@[j] == class_of(self@[j]),
                forall|j: int|
                    0 <= j < 64 ==> #[trigger] bit64(quote_bits, j) == ((classes@[j] & 16) != 0),
                forall|j: int|
                    0 <= j < 64 ==> #[trigger] bit64(all_struct, j) == ((classes@[j] & 3) != 0),
                parity == (carry != quote_parity(self@.take(i as int))),
                forall|j: int|
                    0 <= j < i ==> #[trigger] bit64(m, j) == (is_delim_byte(self@[j]) && !(carry
                        != quote_parity(self@.take(j)))),
                forall|j: int| i <= j < 64 ==> !bit64(m, j),
            decreases 64 - i,
        {
            let ghost m0 = m;
            let is_delim: bool = ((all_struct >> i) & 1) == 1;
            let is_q: bool = ((quote_bits >> i) & 1) == 1;
            proof {
                lemma_class_of(self@[i as int]);
                assert(bit64(all_struct, i as int) == ((classes@[i as int] & 3) != 0));
                assert(bit64(quote_bits, i as int) == ((classes@[i as int] & 16) != 0));
                assert(is_delim == bit64(all_struct, i as int));
                assert(is_q == bit64(quote_bits, i as int));
            }
            if is_delim && !parity {
                proof {
                    lemma_or_bit(m, i);
                }
                m = m | (1u64 << i);
            }
            proof {
                assert forall|j: int| 0 <= j < i + 1 implies #[trigger] bit64(m, j) == (
                is_delim_byte(self@[j]) && !(carry != quote_parity(self@.take(j)))) by {
                    if j < i {
                        assert(bit64(m0, j) == (is_delim_byte(self@[j]) && !(carry
                            != quote_parity(self@.take(j)))));
                        assert(bit64(m, j) == bit64(m0, j));
                    } else {
                        assert(!bit64(m0, i as int));
                    }
                }
                assert forall|j: int| i + 1 <= j < 64 implies !bit64(m, j) by {
                    assert(!bit64(m0, j));
                }
                assert(self@.take(i as int + 1) =~= self@.take(i as int).push(self@[i as int]));
                lemma_quote_parity_push(self@.take(i as int), self@[i as int]);
            }
            if is_q {
                parity = !parity;
            }
            i += 1;
        }
        proof {
            assert(self@.take(64) =~= self@);
        }
        *structure = m;
        *in_string = parity;
    }
}

/// Look up the low-nibble table.
fn low_nibble_lookup(n: u8) -> (r: u8)
    requires
        n < 16,
    ensures
        r == lo_table(n),
{
    if n == 0 {
        4
    } else if n == 2 {
        16
    } else if n == 10 {
        1
    } else if n == 12 {
        10
    } else if n == 13 {
        1
    } else {
        0
    }
}

/// Look up the high-nibble table.
fn high_nibble_lookup(n: u8) -> (r: u8)
    requires
        n < 16,
    ensures
        r == hi_table(n),
{
    if n == 0 {
        1
    } else if n == 2 {
        22
    } else if n == 5 {
        8
    } else {
        0
    }
}

/// Classify one byte through the nibble tables.
pub fn classify(b: u8) -> (c: u8)
    ensures
        c == class_of(b),
{
    let lo: u8 = b & 0x0f;
    let hi: u8 = b >> 4;
    proof {
        assert(b & 0x0f < 16 && b >> 4 < 16) by (bit_vector);
    }
    low_nibble_lookup(lo) & high_nibble_lookup(hi)
}

/// Extract one class bit across the block: bit `i` of the result is set
/// exactly when class byte `i` has a bit of `search` set.
pub(crate) fn get_struct_positions(search: u8, classes: &Vec<u8>) -> (r: u64)
    requires
        classes@.len() == 64,
    ensures
        forall|j: int| 0 <= j < 64 ==> #[trigger] bit64(r, j) == ((classes@[j] & search) != 0),
{
    let mut r: u64 = 0;
    let mut i: usize = 0;
    proof {
        lemma_zero_bits();
    }
    while i < 64
        invariant
            i <= 64,
            classes@.len() == 64,
            forall|j: int| 0 <= j < i ==> #[trigger] bit64(r, j) == ((classes@[j] & search) != 0),
            forall|j: int| i <= j < 64 ==> !bit64(r, j),
        decreases 64 - i,
    {
        let ghost r0 = r;
        if (classes[i] & search) != 0 {
            proof {
                lemma_or_bit(r, i as u64);
            }
            r = r | (1u64 << (i as u64));
        }
        proof {
            assert forall|j: int| 0 <= j < i + 1 implies #[trigger] bit64(r, j) == ((classes@[j]
                & search) != 0) by {
                if j < i {
                    assert(bit64(r0, j) == ((classes@[j] & search) != 0));
                    assert(bit64(r, j) == bit64(r0, j));
                } else {
                    assert(!bit64(r0, j));
                }
            }
            assert forall|j: int| i + 1 <= j < 64 implies !bit64(r, j) by {
                assert(!bit64(r0, j));
            }
        }
        i += 1;
    }
    r
}

/// Expand the set bits of `set_bits` into absolute offsets appended to the
/// index: for each set bit `i`, lowest first, the offset
/// `codepoint_cnt + i`.  The loop consumes the lowest set bit each round via
/// `set_bits & (set_bits - 1)`.
pub fn crush_set_bits(acc: &mut Vec<CodeUnitPos>, set_bits: u64, codepoint_cnt: usize)
    requires
        codepoint_cnt + 64 <= usize::MAX,
    ensures
        pos_seq(final(acc)@) == pos_seq(old(acc)@) + shift_positions(
            codepoint_cnt as int,
            bit_positions(set_bits),
        ),
{
    let ghost orig = bit_positions(set_bits);
    let mut cur: u64 = set_bits;
    let ghost mut done: int = 0;
    proof {
        assert(orig.take(0) =~= Seq::<int>::empty());
        assert(shift_positions(codepoint_cnt as int, Seq::<int>::empty())
            =~= Seq::<int>::empty());
        assert(pos_seq(acc@) =~= pos_seq(acc@) + Seq::<int>::empty());
        assert(bit_positions(cur) =~= orig.skip(0));
    }
    while cur != 0
        invariant
            codepoint_cnt + 64 <= usize::MAX,
            0 <= done <= orig.len(),
            orig == bit_positions(set_bits),
            bit_positions(cur) == orig.skip(done),
            pos_seq(acc@) == pos_seq(old(acc)@) + shift_positions(
                codepoint_cnt as int,
                orig.take(done),
            ),
        decreases cur,
    {
        let t: u32 = cur.trailing_zeros();
        let y: u64 = cur & (cur - 1);
        proof {
            lemma_bit_positions_decompose(cur, y);
            lemma_bit_positions_from_range(cur, 0);
            assert(bit_positions(cur)[0] == t as int);
            assert((seq![t as int] + bit_positions(y)).len() == 1 + bit_positions(y).len());
            assert(orig.skip(done).len() == orig.len() - done);
            assert(done < orig.len());
            vstd::seq_lib::lemma_seq_skip_index(orig, done, 0);
            assert(orig.skip(done)[0] == orig[done]);
            assert(orig[done] == t as int);
            assert((seq![t as int] + bit_positions(y)).skip(1) =~= bit_positions(y));
            assert(bit_positions(y) =~= orig.skip(done + 1));
        }
        let ghost before = acc@;
        acc.push(CodeUnitPos(codepoint_cnt + (t as usize)));
        proof {
            assert(pos_seq(acc@) =~= pos_seq(before).push(codepoint_cnt + t as int));
            assert(orig.take(done + 1) =~= orig.take(done).push(orig[done]));
            assert(shift_positions(codepoint_cnt as int, orig.take(done + 1)) =~= shift_positions(
                codepoint_cnt as int,
                orig.take(done),
            ).push(codepoint_cnt + t as int));
            assert(pos_seq(acc@) =~= pos_seq(old(acc)@) + shift_positions(
                codepoint_cnt as int,
                orig.take(done + 1),
            ));
            done = done + 1;
        }
        cur = y;
    }
    proof {
        lemma_zero_bits();
        lemma_bit_positions_from_skip_clear(cur, 0, 64);
        assert(bit_positions(cur) =~= Seq::<int>::empty());
        assert(orig.skip(done).len() == 0);
        assert(done == orig.len());
        assert(orig.take(done) =~= orig);
    }
}

/// The line-ending convention of a file: records end in `\r\n` or in `\n`
/// alone.
#[derive(Debug, Clone, Copy, PartialEq, Eq, Structural)]
#[non_exhaustive]
pub enum NewLine {
    /// Records end in a carriage return followed by a line feed.
    CRLF,
    /// Records end in a bare line feed.
    LF,
    /// Records end in some other single byte.
    Any(u8),
}

impl NewLine {
    /// Whether this line ending is the two-byte `\r\n` convention.
    pub fn is_crlf(&self) -> (r: bool)
        requires
            !(*self is LF),
        ensures
            r == (*self is CRLF),
    {
        match *self {
            NewLine::CRLF => true,
            _ => false,
        }
    }

    /// Whether the byte terminates a record under this convention.
    pub fn equals(&self, other: u8) -> (r: bool)
        requires
            !(*self is LF),
        ensures
            r == (match *self {
                NewLine::CRLF => other == 0x0d || other == 0x0a,
                NewLine::Any(b) => other == b,
                NewLine::LF => false,
            }),
    {
        match *self {
            NewLine::CRLF => other == 0x0d || other == 0x0a,
            NewLine::Any(b) => other == b,
            _ => false,
        }
    }
}

impl Default for NewLine {
    fn default() -> (r: NewLine)
        ensures
            r is CRLF,
    {
        NewLine::CRLF
    }
}

} // verus!
