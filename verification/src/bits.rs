//! Variable-width bit packing: an ordered list of (value, width) pairs is
//! serialized most-significant-bit first into bytes, with no alignment between
//! fields; a final partial byte holds its bits right-aligned.
use vstd::arithmetic::power2::{lemma2_to64, lemma_pow2_unfold, pow2};
use vstd::prelude::*;
use vstd::string::StringExecFns;

verus! {

/// The `width` low bits of `val`, most-significant bit first.
pub open spec fn bin_of(val: nat, width: nat) -> Seq<bool>
    decreases width,
{
    if width == 0 {
        Seq::empty()
    } else {
        bin_of(val / 2, (width - 1) as nat).push(val % 2 == 1)
    }
}

/// The value of a bit sequence read most-significant bit first.
pub open spec fn val_of_bits(bits: Seq<bool>) -> nat
    decreases bits.len(),
{
    if bits.len() == 0 {
        0
    } else {
        2 * val_of_bits(bits.drop_last()) + (if bits.last() {
            1nat
        } else {
            0nat
        })
    }
}

/// All bit-fields of a sequence of (value, width) pairs, concatenated in order.
pub open spec fn bits_of_pairs(pairs: Seq<(usize, usize)>) -> Seq<bool>
    decreases pairs.len(),
{
    if pairs.len() == 0 {
        Seq::empty()
    } else {
        bits_of_pairs(pairs.drop_last()) + bin_of(
            pairs.last().0 as nat,
            pairs.last().1 as nat,
        )
    }
}

/// Bits grouped into bytes, eight per byte in order; a final group of fewer
/// than eight bits becomes one byte holding them right-aligned.
pub open spec fn pack_bits(bits: Seq<bool>) -> Seq<u8>
    decreases bits.len(),
{
    if bits.len() == 0 {
        Seq::empty()
    } else if bits.len() >= 8 {
        seq![val_of_bits(bits.take(8)) as u8] + pack_bits(bits.skip(8))
    } else {
        seq![val_of_bits(bits) as u8]
    }
}

/// Every byte expanded to its eight bits, most-significant bit first.
pub open spec fn unpack_bytes(data: Seq<u8>) -> Seq<bool>
    decreases data.len(),
{
    if data.len() == 0 {
        Seq::empty()
    } else {
        bin_of(data.first() as nat, 8) + unpack_bytes(data.drop_first())
    }
}

/// The bit string as characters, '1' for a set bit.
pub open spec fn bit_chars(bits: Seq<bool>) -> Seq<char> {
    Seq::new(bits.len(), |i: int| if bits[i] { '1' } else { '0' })
}

pub proof fn lemma_val_of_bits_bound(bits: Seq<bool>)
    ensures
        val_of_bits(bits) < pow2(bits.len()),
    decreases bits.len(),
{
    if bits.len() == 0 {
        lemma2_to64();
    } else {
        lemma_val_of_bits_bound(bits.drop_last());
        lemma_pow2_unfold(bits.len());
    }
}

pub proof fn lemma_unpack_bytes_push(data: Seq<u8>, b: u8)
    ensures
        unpack_bytes(data.push(b)) == unpack_bytes(data) + bin_of(b as nat, 8),
    decreases data.len(),
{
    if data.len() == 0 {
        assert(data.push(b).drop_first() =~= Seq::<u8>::empty());
        assert(data.push(b).first() == b);
        assert(unpack_bytes(Seq::<u8>::empty()) =~= Seq::<bool>::empty());
        assert(unpack_bytes(data.push(b)) == bin_of(b as nat, 8) + unpack_bytes(
            data.push(b).drop_first(),
        ));
        assert(unpack_bytes(data.push(b)) =~= unpack_bytes(data) + bin_of(b as nat, 8));
    } else {
        lemma_unpack_bytes_push(data.drop_first(), b);
        assert(data.push(b).drop_first() =~= data.drop_first().push(b));
        assert(data.push(b).first() == data.first());
        assert(unpack_bytes(data.push(b)) == bin_of(data.first() as nat, 8) + (unpack_bytes(
            data.drop_first(),
        ) + bin_of(b as nat, 8)));
        assert(unpack_bytes(data.push(b)) =~= unpack_bytes(data) + bin_of(b as nat, 8));
    }
}

/// An ordered collection of (value, width) bit-fields, in emission order.
pub struct Bits {
    pub bits: Vec<(usize, usize)>,
}

/// Appends the `width`-bit binary form of `val`, most-significant bit first.
pub fn push_bin(out: &mut Vec<bool>, val: usize, width: usize)
    ensures
        final(out)@ == old(out)@ + bin_of(val as nat, width as nat),
    decreases width,
{
    if width == 0 {
        assert(out@ =~= out@ + bin_of(val as nat, 0));
    } else {
        push_bin(out, val / 2, width - 1);
        out.push(val % 2 == 1);
        assert(out@ =~= old(out)@ + bin_of(val as nat, width as nat));
    }
}

/// Reads `width` bits at `pos`, most-significant bit first, as a value.
pub fn read_bits(bits: &Vec<bool>, pos: usize, width: usize) -> (r: u64)
    requires
        pos + width <= bits@.len(),
        width <= 62,
    ensures
        r as nat == val_of_bits(bits@.subrange(pos as int, pos + width)),
        r < pow2(width as nat),
{
    let n = bits.len();
    let mut acc: u64 = 0;
    let mut i: usize = 0;
    while i < width
        invariant
            i <= width,
            width <= 62,
            n == bits@.len(),
            pos + width <= n,
            acc as nat == val_of_bits(bits@.subrange(pos as int, pos + i)),
        decreases width - i,
    {
        proof {
            lemma_val_of_bits_bound(bits@.subrange(pos as int, pos + i));
            lemma_pow2_le_62(i as nat);
            assert(bits@.subrange(pos as int, pos + i + 1).drop_last() =~= bits@.subrange(
                pos as int,
                pos + i,
            ));
        }
        let b: u64 = if bits[pos + i] {
            1
        } else {
            0
        };
        acc = 2 * acc + b;
        i = i + 1;
    }
    proof {
        lemma_val_of_bits_bound(bits@.subrange(pos as int, pos + width));
    }
    acc
}

proof fn lemma_pow2_le_62(i: nat)
    requires
        i <= 62,
    ensures
        pow2(i) <= 0x4000000000000000,
    decreases 62 - i,
{
    if i == 62 {
        vstd::arithmetic::power2::lemma2_to64_rest();
    } else {
        lemma_pow2_le_62(i + 1);
        lemma_pow2_unfold((i + 1) as nat);
        vstd::arithmetic::power2::lemma_pow2_pos(i);
    }
}

impl Bits {
    /// An empty collection of bit-fields.
    pub fn new() -> (r: Bits)
        ensures
            r.bits@ == Seq::<(usize, usize)>::empty(),
    {
        Bits { bits: Vec::new() }
    }

    /// Appends one (value, width) bit-field.
    pub fn push(&mut self, val: usize, width: usize)
        ensures
            final(self).bits@ == old(self).bits@.push((val, width)),
    {
        self.bits.push((val, width));
    }

    /// All bit-fields concatenated into one bit sequence.
    fn flatten(&self) -> (r: Vec<bool>)
        ensures
            r@ == bits_of_pairs(self.bits@),
    {
        let mut flat: Vec<bool> = Vec::new();
        let n = self.bits.len();
        let mut idx: usize = 0;
        while idx < n
            invariant
                idx <= n,
                n == self.bits@.len(),
                flat@ == bits_of_pairs(self.bits@.take(idx as int)),
            decreases n - idx,
        {
            let (v, w) = self.bits[idx];
            push_bin(&mut flat, v, w);
            proof {
                assert(self.bits@.take(idx + 1).drop_last() =~= self.bits@.take(idx as int));
            }
            idx = idx + 1;
        }
        proof {
            assert(self.bits@.take(n as int) =~= self.bits@);
        }
        flat
    }

    /// The concatenated bit-fields as text: one '0' or '1' character per bit.
    pub fn to_binary_string(&self) -> (r: String)
        ensures
            r@ == bit_chars(bits_of_pairs(self.bits@)),
    {
        let flat = self.flatten();
        let mut s = String::new();
        let n = flat.len();
        let mut i: usize = 0;
        proof {
            assert(s@ =~= bit_chars(flat@).take(0));
        }
        while i < n
            invariant
                i <= n,
                n == flat@.len(),
                s@ == bit_chars(flat@).take(i as int),
            decreases n - i,
        {
            if flat[i] {
                s.append("1");
            } else {
                s.append("0");
            }
            proof {
                reveal_strlit("0");
                reveal_strlit("1");
                assert("1"@ =~= seq!['1']);
                assert("0"@ =~= seq!['0']);
                assert(s@ =~= bit_chars(flat@).take(i + 1));
            }
            i = i + 1;
        }
        proof {
            assert(bit_chars(flat@).take(n as int) =~= bit_chars(flat@));
        }
        s
    }

    /// The packed byte form: all bit-fields concatenated in order, grouped
    /// into bytes, the final partial byte right-aligned.
    pub fn into_bytes(self) -> (r: Vec<u8>)
        ensures
            r@ == pack_bits(bits_of_pairs(self.bits@)),
    {
        let flat = self.flatten();
        let len = flat.len();
        let mut out: Vec<u8> = Vec::new();
        let mut pos: usize = 0;
        proof {
            assert(flat@.skip(0) =~= flat@);
            assert(Seq::<u8>::empty() + pack_bits(flat@) =~= pack_bits(flat@));
        }
        while len - pos >= 8
            invariant
                pos <= len,
                len == flat@.len(),
                pack_bits(bits_of_pairs(self.bits@)) == out@ + pack_bits(flat@.skip(pos as int)),
            decreases len - pos,
        {
            let b = read_bits(&flat, pos, 8);
            proof {
                lemma2_to64();
                assert(flat@.skip(pos as int).take(8) =~= flat@.subrange(pos as int, pos + 8));
                assert(flat@.skip(pos as int).skip(8) =~= flat@.skip(pos + 8));
            }
            out.push(b as u8);
            pos = pos + 8;
        }
        if pos < len {
            let b = read_bits(&flat, pos, len - pos);
            proof {
                lemma2_to64();
                lemma_pow2_le_62((len - pos) as nat);
                vstd::arithmetic::power2::lemma_pow2_strictly_increases((len - pos) as nat, 8);
                assert(flat@.subrange(pos as int, len as int) =~= flat@.skip(pos as int));
            }
            out.push(b as u8);
            proof {
                assert(pack_bits(flat@.skip(pos as int)) =~= seq![
                    val_of_bits(flat@.skip(pos as int)) as u8,
                ]);
            }
        } else {
            proof {
                assert(flat@.skip(pos as int) =~= Seq::<bool>::empty());
            }
        }
        out
    }
}

/// A bit-field read back gives the value written: the `width`-bit form of a
/// value in range has that value.
pub proof fn lemma_bin_of_val(val: nat, width: nat)
    requires
        val < pow2(width),
    ensures
        bin_of(val, width).len() == width,
        val_of_bits(bin_of(val, width)) == val,
    decreases width,
{
    if width == 0 {
        lemma2_to64();
    } else {
        lemma_pow2_unfold(width);
        lemma_bin_of_val(val / 2, (width - 1) as nat);
        assert(bin_of(val, width).drop_last() =~= bin_of(val / 2, (width - 1) as nat));
    }
}

/// Packing and unpacking transport a whole-byte bit stream unchanged.
pub proof fn lemma_unpack_pack(bits: Seq<bool>)
    requires
        bits.len() % 8 == 0,
    ensures
        unpack_bytes(pack_bits(bits)) == bits,
    decreases bits.len(),
{
    if bits.len() == 0 {
        assert(unpack_bytes(pack_bits(bits)) =~= bits);
    } else {
        let head = bits.take(8);
        let tail = bits.skip(8);
        lemma_unpack_pack(tail);
        lemma_val_of_bits_bound(head);
        lemma2_to64();
        lemma_bin_of_val(val_of_bits(head), 8);
        lemma_bin_val_inverse(head);
        let packed = pack_bits(bits);
        assert(packed == seq![val_of_bits(head) as u8] + pack_bits(tail));
        assert(packed.len() > 0);
        assert(packed.first() == val_of_bits(head) as u8);
        assert(packed.drop_first() =~= pack_bits(tail));
        assert(bin_of(val_of_bits(head) as u8 as nat, 8) == head);
        assert(unpack_bytes(packed) =~= bits);
    }
}

/// The written form of a read value is the bits read: `bin_of` inverts
/// `val_of_bits`.
pub proof fn lemma_bin_val_inverse(bits: Seq<bool>)
    ensures
        bin_of(val_of_bits(bits), bits.len()) == bits,
    decreases bits.len(),
{
    if bits.len() > 0 {
        lemma_bin_val_inverse(bits.drop_last());
        assert(bin_of(val_of_bits(bits), bits.len()).drop_last() =~= bin_of(
            val_of_bits(bits) / 2,
            (bits.len() - 1) as nat,
        ));
        assert(val_of_bits(bits) / 2 == val_of_bits(bits.drop_last()));
        assert(bin_of(val_of_bits(bits), bits.len()) =~= bits);
    }
}

/// A run of clear bits.
pub open spec fn zero_bits(n: nat) -> Seq<bool> {
    Seq::new(n, |i: int| false)
}

pub proof fn lemma_bin_of_zero(e: nat)
    ensures
        bin_of(0, e) == zero_bits(e),
    decreases e,
{
    if e == 0 {
        assert(bin_of(0, e) =~= zero_bits(e));
    } else {
        lemma_bin_of_zero((e - 1) as nat);
        assert(bin_of(0, e) =~= zero_bits(e));
    }
}

/// Widening a bit-field pads it with clear bits on the left.
pub proof fn lemma_bin_of_extend(val: nat, width: nat, extra: nat)
    requires
        val < pow2(width),
    ensures
        bin_of(val, width + extra) == zero_bits(extra) + bin_of(val, width),
    decreases width,
{
    if width == 0 {
        lemma2_to64();
        lemma_bin_of_zero(extra);
        assert(bin_of(val, extra) =~= zero_bits(extra) + bin_of(val, 0));
    } else {
        lemma_pow2_unfold(width);
        lemma_bin_of_extend(val / 2, (width - 1) as nat, extra);
        assert(bin_of(val, width + extra).drop_last() =~= bin_of(
            val / 2,
            ((width + extra) - 1) as nat,
        ));
        assert(bin_of(val, width + extra) =~= zero_bits(extra) + bin_of(val, width));
    }
}

/// What packing then unpacking makes of any bit stream: the whole bytes pass
/// through unchanged, and the bits of a final partial byte come back with
/// clear padding bits inserted before them.
pub proof fn lemma_unpack_pack_padded(bits: Seq<bool>)
    requires
        bits.len() % 8 != 0,
    ensures
        unpack_bytes(pack_bits(bits)) == bits.take(8 * (bits.len() / 8) as int) + zero_bits(
            (8 - bits.len() % 8) as nat,
        ) + bits.skip(8 * (bits.len() / 8) as int),
    decreases bits.len(),
{
    if bits.len() < 8 {
        lemma_val_of_bits_bound(bits);
        lemma2_to64();
        lemma_pow2_le_62(bits.len());
        vstd::arithmetic::power2::lemma_pow2_strictly_increases(bits.len(), 8);
        let v = val_of_bits(bits);
        assert(pack_bits(bits) == seq![v as u8]);
        assert(seq![v as u8].drop_first() =~= Seq::<u8>::empty());
        assert(seq![v as u8].first() == v as u8);
        assert(v as u8 as nat == v);
        assert(unpack_bytes(Seq::<u8>::empty()) =~= Seq::<bool>::empty());
        assert(unpack_bytes(pack_bits(bits)) == bin_of(v as u8 as nat, 8) + unpack_bytes(
            seq![v as u8].drop_first(),
        ));
        assert(unpack_bytes(pack_bits(bits)) =~= bin_of(v, 8));
        lemma_bin_val_inverse(bits);
        lemma_bin_of_extend(v, bits.len(), (8 - bits.len()) as nat);
        assert(bits.take(8 * (bits.len() / 8) as int) =~= Seq::<bool>::empty());
        assert(bits.skip(8 * (bits.len() / 8) as int) =~= bits);
        assert(zero_bits((8 - bits.len()) as nat) + bits =~= bits.take(
            8 * (bits.len() / 8) as int,
        ) + zero_bits((8 - bits.len() % 8) as nat) + bits.skip(8 * (bits.len() / 8) as int));
    } else {
        let head = bits.take(8);
        let tail = bits.skip(8);
        lemma_unpack_pack_padded(tail);
        lemma_val_of_bits_bound(head);
        lemma2_to64();
        lemma_bin_val_inverse(head);
        lemma_bin_of_val(val_of_bits(head), 8);
        let packed = pack_bits(bits);
        assert(packed == seq![val_of_bits(head) as u8] + pack_bits(tail));
        assert(packed.first() == val_of_bits(head) as u8);
        assert(packed.drop_first() =~= pack_bits(tail));
        assert(bin_of(val_of_bits(head) as u8 as nat, 8) == head);
        assert(tail.len() == bits.len() - 8);
        assert(tail.len() % 8 == bits.len() % 8);
        assert(unpack_bytes(packed) == head + (tail.take(8 * (tail.len() / 8) as int)
            + zero_bits((8 - tail.len() % 8) as nat) + tail.skip(8 * (tail.len() / 8) as int)));
        assert(bits.take(8 * (bits.len() / 8) as int) =~= head + tail.take(
            8 * (tail.len() / 8) as int,
        ));
        assert(bits.skip(8 * (bits.len() / 8) as int) =~= tail.skip(8 * (tail.len() / 8) as int));
        assert(unpack_bytes(packed) =~= bits.take(8 * (bits.len() / 8) as int) + zero_bits(
            (8 - bits.len() % 8) as nat,
        ) + bits.skip(8 * (bits.len() / 8) as int));
    }
}

pub proof fn lemma_bin_of_len(val: nat, width: nat)
    ensures
        bin_of(val, width).len() == width,
    decreases width,
{
    if width > 0 {
        lemma_bin_of_len(val / 2, (width - 1) as nat);
    }
}

/// The bit offset at which the `k`-th field of a pair sequence starts: the
/// sum of the widths before it.
pub open spec fn pairs_offset(pairs: Seq<(usize, usize)>, k: int) -> int
    decreases k,
{
    if k <= 0 {
        0
    } else {
        pairs_offset(pairs, k - 1) + pairs[k - 1].1
    }
}

proof fn lemma_pairs_offset_stable(pairs: Seq<(usize, usize)>, k: int)
    requires
        pairs.len() > 0,
        0 <= k <= pairs.len() - 1,
    ensures
        pairs_offset(pairs.drop_last(), k) == pairs_offset(pairs, k),
    decreases k,
{
    if k > 0 {
        lemma_pairs_offset_stable(pairs, k - 1);
        assert(pairs.drop_last()[k - 1] == pairs[k - 1]);
    }
}

pub proof fn lemma_pairs_offset_total(pairs: Seq<(usize, usize)>)
    ensures
        pairs_offset(pairs, pairs.len() as int) == bits_of_pairs(pairs).len(),
        pairs_offset(pairs, pairs.len() as int) >= 0,
    decreases pairs.len(),
{
    if pairs.len() > 0 {
        lemma_pairs_offset_total(pairs.drop_last());
        lemma_pairs_offset_stable(pairs, pairs.len() - 1);
        lemma_bin_of_len(pairs.last().0 as nat, pairs.last().1 as nat);
    }
}

/// No alignment between fields: the `k`-th pair's bits are exactly the bits
/// of the packed stream at its offset, for its width.
pub proof fn lemma_pairs_layout(pairs: Seq<(usize, usize)>, k: int)
    requires
        0 <= k < pairs.len(),
    ensures
        0 <= pairs_offset(pairs, k),
        pairs_offset(pairs, k) + pairs[k].1 <= bits_of_pairs(pairs).len(),
        bits_of_pairs(pairs).subrange(
            pairs_offset(pairs, k),
            pairs_offset(pairs, k) + pairs[k].1,
        ) == bin_of(pairs[k].0 as nat, pairs[k].1 as nat),
    decreases pairs.len(),
{
    let whole = bits_of_pairs(pairs);
    let head = bits_of_pairs(pairs.drop_last());
    let field = bin_of(pairs.last().0 as nat, pairs.last().1 as nat);
    lemma_bin_of_len(pairs.last().0 as nat, pairs.last().1 as nat);
    lemma_pairs_offset_total(pairs.drop_last());
    lemma_pairs_offset_stable(pairs, k);
    if k == pairs.len() - 1 {
        lemma_pairs_offset_total(pairs);
        assert(pairs_offset(pairs, k) == head.len());
        assert(whole.subrange(head.len() as int, (head.len() + field.len()) as int) =~= field);
    } else {
        lemma_pairs_layout(pairs.drop_last(), k);
        assert(pairs.drop_last()[k] == pairs[k]);
        let off = pairs_offset(pairs, k);
        assert(whole.subrange(off, off + pairs[k].1) =~= head.subrange(off, off + pairs[k].1));
    }
}

/// Field offsets never decrease.
pub proof fn lemma_pairs_offset_mono(pairs: Seq<(usize, usize)>, k1: int, k2: int)
    requires
        0 <= k1 <= k2,
    ensures
        pairs_offset(pairs, k1) <= pairs_offset(pairs, k2),
    decreases k2 - k1,
{
    if k1 < k2 {
        lemma_pairs_offset_mono(pairs, k1, k2 - 1);
    }
}

/// Unpacking distributes over byte concatenation.
pub proof fn lemma_unpack_concat(a: Seq<u8>, b: Seq<u8>)
    ensures
        unpack_bytes(a + b) == unpack_bytes(a) + unpack_bytes(b),
    decreases a.len(),
{
    if a.len() == 0 {
        assert(a + b =~= b);
        assert(unpack_bytes(a) =~= Seq::<bool>::empty());
        assert(unpack_bytes(a + b) =~= unpack_bytes(a) + unpack_bytes(b));
    } else {
        assert((a + b).first() == a.first());
        assert((a + b).drop_first() =~= a.drop_first() + b);
        lemma_unpack_concat(a.drop_first(), b);
        assert(unpack_bytes(a + b) =~= unpack_bytes(a) + unpack_bytes(b));
    }
}

/// Zero bytes unpack to clear bits alone.
pub proof fn lemma_unpack_zeros(z: Seq<u8>)
    requires
        forall|i: int| 0 <= i < z.len() ==> z[i] == 0,
    ensures
        unpack_bytes(z).len() == 8 * z.len(),
        forall|i: int| 0 <= i < unpack_bytes(z).len() ==> !unpack_bytes(z)[i],
    decreases z.len(),
{
    lemma_bin_of_zero(8);
    if z.len() > 0 {
        lemma_unpack_zeros(z.drop_first());
        assert(forall|i: int|
            0 <= i < 8 ==> unpack_bytes(z)[i] == bin_of(z.first() as nat, 8)[i]);
        assert(forall|i: int|
            8 <= i < unpack_bytes(z).len() ==> unpack_bytes(z)[i] == unpack_bytes(
                z.drop_first(),
            )[i - 8]);
    }
}

} // verus!
