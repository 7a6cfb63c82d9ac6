//! Block driver over a whole byte region.
//!
//! `read` feeds the region to the per-block scan of `stage1` in 64-byte
//! steps, carrying the quote parity from block to block, and materialises
//! the final partial block zero-padded.  The resulting index lists the
//! sentinel `0` followed by every structural position of the region, in
//! increasing order.

use vstd::prelude::*;

use crate::model::{
    bit64, is_delim_byte, is_structural, lemma_mask_positions, lemma_quote_parity_concat,
    lemma_structural_positions_in_concat, quote_parity, shift_positions, structural_positions,
    structural_positions_in,
};
use crate::stage1::{crush_set_bits, pos_seq, CodeUnitPos, SimdInput, StructureIndex};

verus! {

/// Whether any byte of the machine word has its high bit set, read through
/// the byte-spread mask `0x8080...80`.
pub fn contains_nonascii(v: usize) -> (r: bool)
    ensures
        r == ((v & (0x8080_8080_8080_8080u64 as usize)) != 0),
{
    (v & (0x8080_8080_8080_8080u64 as usize)) != 0
}

/// Whether every byte of the slice is ASCII (below `0x80`).
pub fn is_ascii(s: &[u8]) -> (r: bool)
    ensures
        r == (forall|i: int| 0 <= i < s@.len() ==> s@[i] < 128),
{
    let len: usize = s.len();
    let mut i: usize = 0;
    while i < len
        invariant
            i <= len,
            len == s@.len(),
            forall|j: int| 0 <= j < i ==> s@[j] < 128,
        decreases len - i,
    {
        if s[i] >= 128 {
            assert(!(s@[i as int] < 128));
            return false;
        }
        i += 1;
    }
    true
}

/// A block bitmap produced with the right carry marks exactly the structural
/// positions of the region covered by the block (zero padding marks none).
proof fn lemma_block_bits(s: Seq<u8>, v: Seq<u8>, base: int, hi: int, m: u64, carry: bool)
    requires
        0 <= base <= hi <= s.len(),
        hi <= base + 64,
        v.len() == 64,
        forall|j: int| 0 <= j < hi - base ==> v[j] == s[base + j],
        forall|j: int| hi - base <= j < 64 ==> v[j] == 0,
        carry == quote_parity(s.take(base)),
        forall|i: int|
            0 <= i < 64 ==> #[trigger] bit64(m, i) == (is_delim_byte(v[i]) && !(carry
                != quote_parity(v.take(i)))),
    ensures
        forall|i: int|
            0 <= i < 64 ==> #[trigger] bit64(m, i) == (base + i < hi && is_structural(s, base + i)),
{
    assert forall|i: int| 0 <= i < 64 implies #[trigger] bit64(m, i) == (base + i < hi
        && is_structural(s, base + i)) by {
        if base + i < hi {
            assert(s.take(base) + v.take(i) =~= s.take(base + i));
            lemma_quote_parity_concat(s.take(base), v.take(i));
            assert(v[i] == s[base + i]);
        } else {
            assert(v[i] == 0);
        }
    }
}

/// Drive the structural scan over the whole region.
///
/// The result is the structural index: a sentinel `0` followed by the offset
/// of every delimiter byte that lies outside a quoted span, in increasing
/// order.
pub fn read(bytes: &[u8]) -> (r: StructureIndex)
    requires
        bytes@.len() + 64 <= usize::MAX,
    ensures
        r.positions() == seq![0int] + structural_positions(bytes@),
{
    let len: usize = bytes.len();
    let mut acc: Vec<CodeUnitPos> = Vec::new();
    acc.push(CodeUnitPos(0));
    let mut in_string: bool = false;
    let mut base: usize = 0;
    proof {
        assert(pos_seq(acc@) =~= seq![0int]);
        assert(structural_positions_in(bytes@, 0, 0) == Seq::<int>::empty());
        assert(pos_seq(acc@) =~= seq![0int] + structural_positions_in(bytes@, 0, 0));
        assert(bytes@.take(0) =~= Seq::<u8>::empty());
    }
    while base + 64 <= len
        invariant
            base <= len,
            len == bytes@.len(),
            len + 64 <= usize::MAX,
            in_string == quote_parity(bytes@.take(base as int)),
            pos_seq(acc@) == seq![0int] + structural_positions_in(bytes@, 0, base as int),
        decreases len - base,
    {
        let input = SimdInput::new(bytes, base);
        let mut set_bits: u64 = 0;
        let ghost carry = in_string;
        let ghost before = acc@;
        input.structure(&mut set_bits, &mut in_string);
        proof {
            lemma_block_bits(
                bytes@,
                input@,
                base as int,
                base as int + 64,
                set_bits,
                carry,
            );
            lemma_mask_positions(set_bits, bytes@, base as int, base as int + 64);
            assert(bytes@.take(base as int) + input@ =~= bytes@.take(base as int + 64));
            lemma_quote_parity_concat(bytes@.take(base as int), input@);
        }
        crush_set_bits(&mut acc, set_bits, base);
        proof {
            lemma_structural_positions_in_concat(bytes@, 0, base as int, base as int + 64);
            assert(pos_seq(acc@) =~= seq![0int] + structural_positions_in(
                bytes@,
                0,
                base as int + 64,
            ));
        }
        base += 64;
    }
    let input = SimdInput::new_with_padding(bytes, base);
    let mut set_bits: u64 = 0;
    let ghost carry = in_string;
    input.structure(&mut set_bits, &mut in_string);
    proof {
        lemma_block_bits(bytes@, input@, base as int, len as int, set_bits, carry);
        lemma_mask_positions(set_bits, bytes@, base as int, len as int);
    }
    crush_set_bits(&mut acc, set_bits, base);
    proof {
        lemma_structural_positions_in_concat(bytes@, 0, base as int, len as int);
        assert(pos_seq(acc@) =~= seq![0int] + structural_positions_in(bytes@, 0, len as int));
        assert(structural_positions(bytes@) == structural_positions_in(bytes@, 0, len as int));
    }
    StructureIndex(acc)
}

} // verus!
