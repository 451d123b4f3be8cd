//! The LZW codec: a dictionary of phrases grown identically by encoder and
//! decoder, codes emitted through the variable-width bit packer, and the
//! symmetric decode state machine with the one-step-behind insertion schedule.
use crate::bits::{
    bin_of, bits_of_pairs, lemma_bin_of_val, lemma_bin_of_zero, lemma_pairs_layout,
    lemma_pairs_offset_mono, lemma_pairs_offset_total, lemma_unpack_pack,
    lemma_unpack_pack_padded, pack_bits, pairs_offset, push_bin, read_bits, unpack_bytes,
    val_of_bits, zero_bits, Bits,
};
use crate::compress::{string_from_utf8, Compress};
use crate::error::DecodeError;
use vstd::arithmetic::power2::pow2;
use vstd::prelude::*;
use vstd::string::StrSliceExecFns;
use vstd::utf8::{decode_utf8, encode_utf8, valid_utf8};

verus! {

/// The number of binary digits of `n`: the smallest width whose codes reach `n`.
pub open spec fn spec_nbits(n: nat) -> nat
    decreases n,
{
    if n == 0 {
        0
    } else {
        1 + spec_nbits(n / 2)
    }
}

pub proof fn lemma_nbits_mono(a: nat, b: nat)
    requires
        a <= b,
    ensures
        spec_nbits(a) <= spec_nbits(b),
    decreases b,
{
    if a > 0 {
        lemma_nbits_mono(a / 2, b / 2);
    }
}

pub proof fn lemma_nbits_le_self(n: nat)
    ensures
        spec_nbits(n) <= n,
    decreases n,
{
    if n > 0 {
        lemma_nbits_le_self(n / 2);
    }
}

/// A width of `k` bits reaches every value below two to the `k`.
pub proof fn lemma_nbits_le(n: nat, k: nat)
    requires
        n < pow2(k),
    ensures
        spec_nbits(n) <= k,
    decreases k,
{
    if n > 0 {
        vstd::arithmetic::power2::lemma2_to64();
        assert(k >= 1) by {
            if k == 0 {
                assert(pow2(0) == 1);
            }
        }
        vstd::arithmetic::power2::lemma_pow2_unfold(k);
        lemma_nbits_le(n / 2, (k - 1) as nat);
    }
}

/// Any value below two to its own bit-length: what a code of that width can
/// carry.
pub proof fn lemma_nbits_covers(n: nat)
    ensures
        n < pow2(spec_nbits(n)),
    decreases n,
{
    if n == 0 {
        vstd::arithmetic::power2::lemma2_to64();
    } else {
        lemma_nbits_covers(n / 2);
        vstd::arithmetic::power2::lemma_pow2_unfold(spec_nbits(n));
    }
}

/// The 256 single-byte phrases in byte order: the initial alphabet, phrase `i`
/// owning code `i + 1`.
pub open spec fn init_phrases() -> Seq<Seq<u8>> {
    Seq::new(256, |i: int| seq![i as u8])
}

/// The position of the first occurrence of `p` in `s`.
pub open spec fn first_index(s: Seq<Seq<u8>>, p: Seq<u8>) -> int
    decreases s.len(),
{
    if s.len() == 0 {
        0
    } else if s[0] == p {
        0
    } else {
        1 + first_index(s.drop_first(), p)
    }
}

pub proof fn lemma_first_index_found(s: Seq<Seq<u8>>, p: Seq<u8>, j: int)
    requires
        0 <= j < s.len(),
        s[j] == p,
        forall|k: int| 0 <= k < j ==> s[k] != p,
    ensures
        first_index(s, p) == j,
        s.contains(p),
    decreases s.len(),
{
    if s[0] == p {
        assert(j == 0);
    } else {
        assert(forall|k: int| 0 <= k < j - 1 ==> s.drop_first()[k] == s[k + 1]);
        lemma_first_index_found(s.drop_first(), p, j - 1);
    }
}

pub proof fn lemma_first_index_le(s: Seq<Seq<u8>>, p: Seq<u8>)
    ensures
        0 <= first_index(s, p) <= s.len(),
    decreases s.len(),
{
    if s.len() > 0 && s[0] != p {
        lemma_first_index_le(s.drop_first(), p);
    }
}

pub proof fn lemma_first_index_bounds(s: Seq<Seq<u8>>, p: Seq<u8>)
    requires
        s.contains(p),
    ensures
        0 <= first_index(s, p) < s.len(),
        s[first_index(s, p)] == p,
        forall|k: int| 0 <= k < first_index(s, p) ==> s[k] != p,
    decreases s.len(),
{
    if s[0] != p {
        let i = choose|i: int| 0 <= i < s.len() && s[i] == p;
        assert(s.drop_first()[i - 1] == p);
        assert(s.drop_first().contains(p));
        lemma_first_index_bounds(s.drop_first(), p);
        assert(forall|k: int| 1 <= k < first_index(s, p) ==> s[k] == s.drop_first()[k - 1]);
    }
}

/// Byte-for-byte copy of a vector.
fn copy_bytes(v: &Vec<u8>) -> (r: Vec<u8>)
    ensures
        r@ == v@,
{
    let mut r: Vec<u8> = Vec::new();
    let n = v.len();
    let mut i: usize = 0;
    while i < n
        invariant
            i <= n,
            n == v@.len(),
            r@ == v@.take(i as int),
        decreases n - i,
    {
        r.push(v[i]);
        proof {
            assert(v@.take(i + 1) =~= v@.take(i as int).push(v@[i as int]));
        }
        i = i + 1;
    }
    proof {
        assert(v@.take(n as int) =~= v@);
    }
    r
}

/// Byte-for-byte equality of two slices.
fn bytes_eq(a: &[u8], b: &[u8]) -> (r: bool)
    ensures
        r == (a@ == b@),
{
    if a.len() != b.len() {
        proof {
            assert(a@.len() != b@.len());
        }
        return false;
    }
    let n = a.len();
    let mut i: usize = 0;
    while i < n
        invariant
            i <= n,
            n == a@.len() == b@.len(),
            forall|k: int| 0 <= k < i ==> a@[k] == b@[k],
        decreases n - i,
    {
        if a[i] != b[i] {
            return false;
        }
        i = i + 1;
    }
    proof {
        assert(a@ =~= b@);
    }
    true
}

/// Appends every byte of `src` to `dst`.
fn append_bytes(dst: &mut Vec<u8>, src: &Vec<u8>)
    ensures
        final(dst)@ == old(dst)@ + src@,
{
    let n = src.len();
    let mut i: usize = 0;
    while i < n
        invariant
            i <= n,
            n == src@.len(),
            dst@ == old(dst)@ + src@.take(i as int),
        decreases n - i,
    {
        proof {
            assert(old(dst)@ + src@.take(0) =~= old(dst)@);
            assert(old(dst)@ + src@.take(i + 1) =~= (old(dst)@ + src@.take(i as int)).push(
                src@[i as int],
            ));
        }
        dst.push(src[i]);
        i = i + 1;
    }
    proof {
        assert(old(dst)@ + src@.take(n as int) =~= old(dst)@ + src@);
    }
}

/// The phrase sequences a list of phrase vectors stands for, in order.
pub open spec fn phrases_view(v: Seq<Vec<u8>>) -> Seq<Seq<u8>> {
    Seq::new(v.len(), |i: int| v[i]@)
}

/// The decoder's half of the dictionary: entry `i` holds the phrase of code
/// `i + 1`.
pub struct LZWRevDict {
    pub dict: Vec<Vec<u8>>,
}

/// The bidirectional dictionary. Phrase `i` of the forward list owns code
/// `i + 1`; the reverse list mirrors that for the decoder; `max_code` is the
/// highest assigned code. Code 0 is never assigned: it is the terminator.
pub struct LZWDict {
    pub dict: Vec<Vec<u8>>,
    pub reversed: LZWRevDict,
    pub max_code: usize,
}

impl LZWRevDict {
    /// The phrases by code, code `i + 1` at position `i`.
    pub open spec fn phrases(&self) -> Seq<Seq<u8>> {
        phrases_view(self.dict@)
    }

    /// Whether `code` is assigned: codes are assigned contiguously from 1.
    pub fn contains_key(&self, code: &usize) -> (r: bool)
        ensures
            r == (1 <= *code && *code <= self.phrases().len()),
    {
        1 <= *code && *code <= self.dict.len()
    }

    /// The phrase of an assigned code.
    pub fn phrase_of(&self, code: usize) -> (r: Vec<u8>)
        requires
            1 <= code <= self.phrases().len(),
        ensures
            r@ == self.phrases()[code - 1],
    {
        copy_bytes(&self.dict[code - 1])
    }
}

impl LZWDict {
    /// The phrases of the forward map, phrase `i` owning code `i + 1`.
    pub open spec fn fwd(&self) -> Seq<Seq<u8>> {
        phrases_view(self.dict@)
    }

    /// The phrases of the reverse map.
    pub open spec fn rev(&self) -> Seq<Seq<u8>> {
        self.reversed.phrases()
    }

    /// Seeds both maps: phrase `i` of `alph` gets code `i + 1`, and `max_code`
    /// is the alphabet's size.
    pub fn new(alph: Vec<Vec<u8>>) -> (r: LZWDict)
        ensures
            r.fwd() == phrases_view(alph@),
            r.rev() == phrases_view(alph@),
            r.max_code == alph@.len(),
    {
        let n = alph.len();
        let mut rev: Vec<Vec<u8>> = Vec::new();
        let mut i: usize = 0;
        while i < n
            invariant
                i <= n,
                n == alph@.len(),
                rev@.len() == i,
                forall|j: int| 0 <= j < i ==> phrases_view(rev@)[j] == phrases_view(alph@)[j],
            decreases n - i,
        {
            let p = copy_bytes(&alph[i]);
            rev.push(p);
            i = i + 1;
        }
        proof {
            assert(phrases_view(rev@) =~= phrases_view(alph@));
        }
        LZWDict { dict: alph, reversed: LZWRevDict { dict: rev }, max_code: n }
    }

    /// The number of binary digits of `n`.
    pub fn _nbits(n: usize) -> (r: usize)
        ensures
            r == spec_nbits(n as nat),
    {
        let mut x = n;
        let mut w: usize = 0;
        while x > 0
            invariant
                spec_nbits(n as nat) == w + spec_nbits(x as nat),
            decreases x,
        {
            proof {
                lemma_nbits_le_self(n as nat);
                assert(spec_nbits(x as nat) >= 1);
            }
            x = x / 2;
            w = w + 1;
        }
        w
    }

    /// The width of the next code the encoder emits: wide enough for every
    /// assigned code, including `max_code` itself.
    pub fn nbits(&self) -> (r: usize)
        requires
            self.max_code < usize::MAX,
        ensures
            r == spec_nbits((self.max_code + 1) as nat),
    {
        Self::_nbits(self.max_code + 1)
    }

    /// The width of the next code the decoder reads: wide enough for
    /// `max_code + 1`, the code the encoder may already have assigned while
    /// the decoder's insertion runs one step behind.
    pub fn nbits_next(&self) -> (r: usize)
        requires
            self.max_code + 2 <= usize::MAX,
        ensures
            r == spec_nbits((self.max_code + 2) as nat),
    {
        Self::_nbits(self.max_code + 2)
    }

    /// Assigns `bs` the next code in the forward map.
    pub fn insert(&mut self, bs: Vec<u8>)
        requires
            old(self).max_code < usize::MAX,
            old(self).max_code == old(self).fwd().len(),
            !old(self).fwd().contains(bs@),
        ensures
            final(self).max_code == old(self).max_code + 1,
            final(self).fwd() == old(self).fwd().push(bs@),
            final(self).rev() == old(self).rev(),
    {
        self.max_code = self.max_code + 1;
        self.dict.push(bs);
        proof {
            assert(self.fwd() =~= old(self).fwd().push(self.dict@.last()@));
        }
    }

    /// Assigns `bs` the next code on the decode side: both maps are mutated
    /// together, the phrase mirrored into the reverse map under the new code.
    pub fn rinsert(&mut self, bs: Vec<u8>)
        requires
            old(self).max_code < usize::MAX,
            old(self).max_code == old(self).rev().len(),
            old(self).max_code == old(self).fwd().len(),
        ensures
            final(self).max_code == old(self).max_code + 1,
            final(self).rev() == old(self).rev().push(bs@),
            final(self).fwd() == old(self).fwd().push(bs@),
    {
        self.max_code = self.max_code + 1;
        let mirrored = copy_bytes(&bs);
        self.dict.push(mirrored);
        self.reversed.dict.push(bs);
        proof {
            assert(self.fwd() =~= old(self).fwd().push(self.dict@.last()@));
            assert(self.rev() =~= old(self).rev().push(self.reversed.dict@.last()@));
        }
    }

    /// Whether the forward map holds `bs`.
    pub fn contains_key(&self, bs: &[u8]) -> (r: bool)
        ensures
            r == self.fwd().contains(bs@),
    {
        let n = self.dict.len();
        let mut i: usize = 0;
        while i < n
            invariant
                i <= n,
                n == self.fwd().len(),
                forall|k: int| 0 <= k < i ==> self.fwd()[k] != bs@,
            decreases n - i,
        {
            if bytes_eq(self.dict[i].as_slice(), bs) {
                proof {
                    assert(self.fwd()[i as int] == bs@);
                }
                return true;
            }
            i = i + 1;
        }
        proof {
            assert(forall|k: int| 0 <= k < self.fwd().len() ==> self.fwd()[k] != bs@);
        }
        false
    }

    /// The code of a phrase present in the forward map: one more than the
    /// position of its first occurrence.
    pub fn code_of(&self, bs: &[u8]) -> (r: usize)
        requires
            self.fwd().contains(bs@),
            self.fwd().len() < usize::MAX,
        ensures
            r == first_index(self.fwd(), bs@) + 1,
            1 <= r <= self.fwd().len(),
    {
        let n = self.dict.len();
        let mut i: usize = 0;
        loop
            invariant
                i <= n,
                n == self.fwd().len(),
                n < usize::MAX,
                self.fwd().contains(bs@),
                forall|k: int| 0 <= k < i ==> self.fwd()[k] != bs@,
            decreases n - i,
        {
            proof {
                lemma_first_index_bounds(self.fwd(), bs@);
            }
            if i >= n {
                proof {
                    assert(false);
                }
                return 0;
            }
            if bytes_eq(self.dict[i].as_slice(), bs) {
                proof {
                    lemma_first_index_found(self.fwd(), bs@, i as int);
                }
                return i + 1;
            }
            i = i + 1;
        }
    }
}

/// The compression codec choice for the LZW algorithm.
pub struct LZW;

impl LZW {
    /// The initial alphabet: the 256 single-byte phrases in byte order.
    pub fn alph() -> (r: Vec<Vec<u8>>)
        ensures
            phrases_view(r@) == init_phrases(),
    {
        let mut r: Vec<Vec<u8>> = Vec::new();
        let mut b: usize = 0;
        while b < 256
            invariant
                b <= 256,
                r@.len() == b,
                forall|i: int| 0 <= i < b ==> phrases_view(r@)[i] == seq![i as u8],
            decreases 256 - b,
        {
            let ghost prev = r@;
            let mut p: Vec<u8> = Vec::new();
            p.push(b as u8);
            proof {
                assert(p@ =~= seq![b as u8]);
            }
            r.push(p);
            proof {
                assert forall|i: int| 0 <= i < b + 1 implies phrases_view(r@)[i] == seq![
                    i as u8,
                ] by {
                    if i < b {
                        assert(r@[i] == prev[i]);
                        assert(phrases_view(prev)[i] == seq![i as u8]);
                    } else {
                        assert(phrases_view(r@)[i] == seq![b as u8]);
                    }
                }
            }
            b = b + 1;
        }
        proof {
            assert(phrases_view(r@) =~= init_phrases());
        }
        r
    }
}

/// One encoder step on byte `c`: extend the current word; on a dictionary
/// miss, emit the code of the known prefix at the width before the insertion,
/// insert the extended word, and restart the word at `c`.
pub open spec fn enc_step(
    fwd: Seq<Seq<u8>>,
    word: Seq<u8>,
    pairs: Seq<(usize, usize)>,
    c: u8,
) -> (Seq<Seq<u8>>, Seq<u8>, Seq<(usize, usize)>) {
    let w2 = word.push(c);
    if fwd.contains(w2) {
        (fwd, w2, pairs)
    } else {
        (
            fwd.push(w2),
            seq![c],
            pairs.push(
                (
                    (first_index(fwd, word) + 1) as usize,
                    spec_nbits((fwd.len() + 1) as nat) as usize,
                ),
            ),
        )
    }
}

/// The encoder state after consuming `s`: dictionary, current word, and the
/// (code, width) pairs emitted so far.
pub open spec fn enc_fold(s: Seq<u8>) -> (Seq<Seq<u8>>, Seq<u8>, Seq<(usize, usize)>)
    decreases s.len(),
{
    if s.len() == 0 {
        (init_phrases(), Seq::empty(), Seq::empty())
    } else {
        let t = enc_fold(s.drop_last());
        enc_step(t.0, t.1, t.2, s.last())
    }
}

/// Every (code, width) pair the encoder emits for input `s`: the fold's
/// pairs, the final word's code if the word is non-empty, and the zero-valued
/// terminator, both at the width then active.
pub open spec fn enc_pairs(s: Seq<u8>) -> Seq<(usize, usize)> {
    let t = enc_fold(s);
    let nb = spec_nbits((t.0.len() + 1) as nat) as usize;
    let withword = if t.1.len() > 0 {
        t.2.push(((first_index(t.0, t.1) + 1) as usize, nb))
    } else {
        t.2
    };
    withword.push((0usize, nb))
}

/// The packed LZW stream for the byte sequence `s`.
pub open spec fn lzw_encode_bytes(s: Seq<u8>) -> Seq<u8> {
    pack_bits(bits_of_pairs(enc_pairs(s)))
}

/// Runs the LZW encoder over `data` with a freshly seeded dictionary,
/// emitting into a new bit accumulator.
pub fn bits(data: &[u8], dict: LZWDict) -> (r: Bits)
    requires
        dict.fwd() == init_phrases(),
        dict.max_code == 256,
        data@.len() + 257 <= usize::MAX,
    ensures
        r.bits@ == enc_pairs(data@),
{
    let mut dict = dict;
    let mut word: Vec<u8> = Vec::new();
    let mut out = Bits::new();
    let n = data.len();
    let mut i: usize = 0;
    proof {
        assert(data@.take(0) =~= Seq::<u8>::empty());
    }
    while i < n
        invariant
            i <= n,
            n == data@.len(),
            n + 257 <= usize::MAX,
            dict.max_code == dict.fwd().len(),
            dict.max_code <= 256 + i,
            dict.fwd().len() >= 256,
            forall|k: int| 0 <= k < 256 ==> dict.fwd()[k] == seq![k as u8],
            word@.len() > 0 ==> dict.fwd().contains(word@),
            (dict.fwd(), word@, out.bits@) == enc_fold(data@.take(i as int)),
        decreases n - i,
    {
        let ghost pre = (dict.fwd(), word@, out.bits@);
        let c = data[i];
        proof {
            assert(data@.take(i + 1).drop_last() =~= data@.take(i as int));
            assert(data@.take(i + 1).last() == data@[i as int]);
            assert(enc_fold(data@.take(i + 1)) == enc_step(pre.0, pre.1, pre.2, c));
        }
        word.push(c);
        if !dict.contains_key(word.as_slice()) {
            let nb = dict.nbits();
            let full = copy_bytes(&word);
            let ghost fwd0 = dict.fwd();
            let ghost w2 = pre.1.push(c);
            proof {
                if pre.1.len() == 0 {
                    assert(w2 =~= seq![c]);
                    assert(fwd0[c as int] == seq![(c as int) as u8]);
                    assert(fwd0[c as int] =~= seq![c]);
                    assert(fwd0.contains(w2));
                    assert(false);
                }
            }
            dict.insert(full);
            word.pop();
            proof {
                assert(word@ =~= pre.1);
                let fi = first_index(fwd0, pre.1);
                lemma_first_index_bounds(fwd0, pre.1);
                assert(fwd0.push(w2)[fi] == fwd0[fi]);
                assert(forall|k: int| 0 <= k < fi ==> fwd0.push(w2)[k] == fwd0[k]);
                lemma_first_index_found(fwd0.push(w2), pre.1, fi);
            }
            let code = dict.code_of(word.as_slice());
            out.push(code, nb);
            word.clear();
            word.push(c);
            proof {
                assert(word@ =~= seq![c]);
                assert(dict.fwd()[c as int] == seq![c as u8]);
                assert(dict.fwd().contains(word@));
            }
        }
        i = i + 1;
    }
    proof {
        assert(data@.take(n as int) =~= data@);
    }
    if word.len() > 0 {
        let nb = dict.nbits();
        proof {
            lemma_first_index_bounds(dict.fwd(), word@);
        }
        let code = dict.code_of(word.as_slice());
        out.push(code, nb);
        let nb2 = dict.nbits();
        out.push(0, nb2);
    } else {
        let nb = dict.nbits();
        out.push(0, nb);
    }
    out
}

/// One-step-behind LZW decoding from the given state: `rev` maps code `i + 1`
/// to its phrase, `prev` is the phrase decoded on the previous step, `nb` the
/// current read width. Stops at the zero terminator or when the bits run out;
/// an invalid code rejects the whole stream. A code one past the highest
/// assigned one names the phrase still being decoded: the previous phrase
/// extended by its own first byte.
pub open spec fn dec_fold(
    bits: Seq<bool>,
    pos: nat,
    rev: Seq<Seq<u8>>,
    prev: Seq<u8>,
    out: Seq<u8>,
    nb: nat,
) -> Option<Seq<u8>>
    decreases bits.len() - pos,
{
    if nb == 0 || pos + nb > bits.len() {
        Some(out)
    } else {
        let code = val_of_bits(bits.subrange(pos as int, (pos + nb) as int));
        if code == 0 {
            Some(out)
        } else if code > rev.len() + 1 || (code == rev.len() + 1 && prev.len() == 0) {
            None
        } else {
            let phrase = if code <= rev.len() {
                rev[code - 1]
            } else {
                prev.push(prev[0])
            };
            let out2 = out + phrase;
            if prev.len() > 0 {
                let rev2 = rev.push(prev.push(phrase[0]));
                dec_fold(bits, pos + nb, rev2, phrase, out2, spec_nbits(rev2.len() + 2))
            } else {
                dec_fold(bits, pos + nb, rev, phrase, out2, nb)
            }
        }
    }
}

/// The decoded byte sequence of a packed LZW stream, or nothing when the
/// stream is rejected. The initial read width is 9, the width of a fresh
/// dictionary: `spec_nbits(257)`.
pub open spec fn lzw_decode_bytes(data: Seq<u8>) -> Option<Seq<u8>> {
    dec_fold(unpack_bytes(data), 0, init_phrases(), Seq::empty(), Seq::empty(), 9)
}

/// What the LZW decoder makes of a packed stream: the text whose UTF-8 bytes
/// the stream decodes to; nothing when a code is invalid or the decoded
/// bytes are not valid UTF-8.
pub open spec fn lzw_decode_text(data: Seq<u8>) -> Option<Seq<char>> {
    match lzw_decode_bytes(data) {
        Option::Some(bs) => if valid_utf8(bs) {
            Option::Some(decode_utf8(bs))
        } else {
            Option::None
        },
        Option::None => Option::None,
    }
}

/// Runs the LZW decoder over the packed bytes: the decoded bytes, or nothing
/// on the first invalid code.
fn lzw_decode_vec(data: &Vec<u8>) -> (r: Option<Vec<u8>>)
    ensures
        r is Some <==> lzw_decode_bytes(data@) is Some,
        r matches Some(v) ==> Some(v@) == lzw_decode_bytes(data@),
{
    let mut bitsv: Vec<bool> = Vec::new();
    let dn = data.len();
    let mut i: usize = 0;
    proof {
        assert(data@.take(0) =~= Seq::<u8>::empty());
        assert(unpack_bytes(Seq::<u8>::empty()) =~= Seq::<bool>::empty());
    }
    while i < dn
        invariant
            i <= dn,
            dn == data@.len(),
            bitsv@ == unpack_bytes(data@.take(i as int)),
        decreases dn - i,
    {
        proof {
            crate::bits::lemma_unpack_bytes_push(data@.take(i as int), data@[i as int]);
            assert(data@.take(i + 1) =~= data@.take(i as int).push(data@[i as int]));
        }
        push_bin(&mut bitsv, data[i] as usize, 8);
        i = i + 1;
    }
    proof {
        assert(data@.take(dn as int) =~= data@);
    }
    let mut dict = LZWDict::new(LZW::alph());
    let mut nbits = dict.nbits();
    let mut prev: Vec<u8> = Vec::new();
    let mut out: Vec<u8> = Vec::new();
    let mut pos: usize = 0;
    let len = bitsv.len();
    proof {
        reveal_with_fuel(spec_nbits, 12);
        assert(spec_nbits(257) == 9);
        assert(forall|k: int|
            0 <= k < init_phrases().len() ==> (#[trigger] init_phrases()[k]).len() == 1);
    }
    while nbits <= len - pos
        invariant
            pos <= len,
            len == bitsv@.len(),
            dict.max_code == dict.rev().len(),
            dict.max_code == dict.fwd().len(),
            256 <= dict.max_code,
            9 * (dict.max_code - 256) <= pos,
            9 <= nbits <= 62,
            forall|k: int| 0 <= k < dict.rev().len() ==> (#[trigger] dict.rev()[k]).len() > 0,
            dec_fold(bitsv@, pos as nat, dict.rev(), prev@, out@, nbits as nat)
                == lzw_decode_bytes(data@),
        decreases len - pos,
    {
        let w = nbits;
        let code = read_bits(&bitsv, pos, w);
        let ghost orev = dict.rev();
        let ghost oprev = prev@;
        let ghost oout = out@;
        if code == 0 {
            return Some(out);
        }
        let maxc = dict.max_code;
        proof {
            assert(9 * (maxc - 256) <= pos);
            assert(maxc + 2 <= usize::MAX);
        }
        let phrase: Vec<u8>;
        if code <= maxc as u64 {
            phrase = dict.reversed.phrase_of(code as usize);
        } else if prev.len() > 0 && code == maxc as u64 + 1 {
            let h = prev[0];
            let mut p2 = copy_bytes(&prev);
            p2.push(h);
            phrase = p2;
        } else {
            proof {
                assert(dec_fold(bitsv@, pos as nat, orev, oprev, oout, w as nat) is None);
            }
            return None;
        }
        append_bytes(&mut out, &phrase);
        if prev.len() > 0 {
            let h2 = phrase[0];
            prev.push(h2);
            let entry = copy_bytes(&prev);
            dict.rinsert(entry);
            nbits = dict.nbits_next();
            proof {
                reveal_with_fuel(spec_nbits, 12);
                lemma_nbits_mono(258, (dict.max_code + 2) as nat);
                vstd::arithmetic::power2::lemma2_to64_rest();
                lemma_nbits_le((dict.max_code + 2) as nat, 62);
            }
        }
        prev = phrase;
        pos = pos + w;
        proof {
            assert(dec_fold(bitsv@, (pos - w) as nat, orev, oprev, oout, w as nat) == dec_fold(
                bitsv@,
                pos as nat,
                dict.rev(),
                prev@,
                out@,
                nbits as nat,
            ));
        }
    }
    Some(out)
}

impl LZW {
    /// Packs the text's UTF-8 bytes into the LZW stream.
    pub fn encode(&self, data: String) -> (r: Vec<u8>)
        requires
            encode_utf8(data@).len() + 257 <= usize::MAX,
        ensures
            r@ == lzw_encode_bytes(encode_utf8(data@)),
    {
        let bs = data.as_str().as_bytes_vec();
        let alphabet = LZW::alph();
        proof {
            assert(phrases_view(alphabet@).len() == 256);
        }
        let dict = LZWDict::new(alphabet);
        let acc = bits(bs.as_slice(), dict);
        acc.into_bytes()
    }

    /// Unpacks an LZW stream back to its text, or rejects it.
    pub fn decode(&self, data: Vec<u8>) -> (r: Result<String, DecodeError>)
        ensures
            r is Ok <==> lzw_decode_text(data@) is Some,
            r matches Ok(s) ==> Some(s@) == lzw_decode_text(data@),
    {
        match lzw_decode_vec(&data) {
            Option::Some(bytes) => match string_from_utf8(bytes) {
                Option::Some(s) => Ok(s),
                Option::None => Err(DecodeError),
            },
            Option::None => Err(DecodeError),
        }
    }
}

impl Compress for LZW {
    /// The packed LZW stream of the text's UTF-8 bytes.
    open spec fn encode_spec(&self, data: Seq<char>) -> Seq<u8> {
        lzw_encode_bytes(encode_utf8(data))
    }

    /// The text whose UTF-8 bytes the stream decodes to; nothing when a code
    /// is invalid or the decoded bytes are not valid UTF-8.
    open spec fn decode_spec(&self, data: Seq<u8>) -> Option<Seq<char>> {
        lzw_decode_text(data)
    }

    /// The dictionary's codes must stay within machine size.
    open spec fn fits(&self, data: Seq<char>) -> bool {
        encode_utf8(data).len() + 257 <= usize::MAX
    }

    fn encode(&self, data: String) -> (r: Vec<u8>) {
        LZW::encode(self, data)
    }

    fn decode(&self, data: Vec<u8>) -> (r: Result<String, DecodeError>) {
        LZW::decode(self, data)
    }
}

/// Terminator presence: for every input, the emitted pairs end with the
/// zero-valued terminator code at the width active after the last insertion.
pub proof fn lemma_encode_terminated(s: Seq<u8>)
    ensures
        enc_pairs(s).len() >= 1,
        enc_pairs(s).last().0 == 0,
        enc_pairs(s).last().1 == spec_nbits((enc_fold(s).0.len() + 1) as nat) as usize,
{
}

/// Rejection of corrupt input: at any decode step, a code beyond one past the
/// highest assigned code makes the whole decode fail, whatever follows.
pub proof fn lemma_decode_rejects_invalid(
    bits: Seq<bool>,
    pos: nat,
    rev: Seq<Seq<u8>>,
    prev: Seq<u8>,
    out: Seq<u8>,
    nb: nat,
)
    requires
        0 < nb,
        pos + nb <= bits.len(),
        val_of_bits(bits.subrange(pos as int, (pos + nb) as int)) > rev.len() + 1,
    ensures
        dec_fold(bits, pos, rev, prev, out, nb) is None,
{
}

/// The terminator stops the decoder: a zero code yields the output built so
/// far, and whatever bits trail it are ignored.
pub proof fn lemma_decode_stops_at_zero(
    bits: Seq<bool>,
    pos: nat,
    rev: Seq<Seq<u8>>,
    prev: Seq<u8>,
    out: Seq<u8>,
    nb: nat,
)
    requires
        pos + nb <= bits.len(),
        val_of_bits(bits.subrange(pos as int, (pos + nb) as int)) == 0,
    ensures
        dec_fold(bits, pos, rev, prev, out, nb) == Some(out),
{
}

proof fn lemma_enc_fold_widths(s: Seq<u8>)
    requires
        s.len() + 257 <= usize::MAX,
    ensures
        256 <= enc_fold(s).0.len() <= 256 + s.len(),
        enc_fold(s).0.len() == 256 + enc_fold(s).2.len(),
        forall|k: int|
            0 <= k < enc_fold(s).2.len() ==> (#[trigger] enc_fold(s).2[k]).1 as nat == spec_nbits(
                (257 + k) as nat,
            ),
        forall|k: int|
            0 <= k < enc_fold(s).2.len() ==> (#[trigger] enc_fold(s).2[k]).1 as nat <= spec_nbits(
                (enc_fold(s).0.len() + 1) as nat,
            ),
        forall|k1: int, k2: int|
            0 <= k1 <= k2 < enc_fold(s).2.len() ==> (#[trigger] enc_fold(s).2[k1]).1 <= (
            #[trigger] enc_fold(s).2[k2]).1,
        forall|k: int|
            0 <= k < enc_fold(s).2.len() ==> 1 <= (#[trigger] enc_fold(s).2[k]).0 as nat <= 257
                + k,
    decreases s.len(),
{
    if s.len() > 0 {
        lemma_enc_fold_widths(s.drop_last());
        let t = enc_fold(s.drop_last());
        let u = enc_fold(s);
        lemma_nbits_le_self((t.0.len() + 1) as nat);
        lemma_nbits_mono((t.0.len() + 1) as nat, (u.0.len() + 1) as nat);
        if !t.0.contains(t.1.push(s.last())) {
            lemma_first_index_le(t.0, t.1);
            assert(u.2 == t.2.push(
                (
                    (first_index(t.0, t.1) + 1) as usize,
                    spec_nbits((t.0.len() + 1) as nat) as usize,
                ),
            ));
            assert(forall|k: int| 0 <= k < t.2.len() ==> (#[trigger] u.2[k]).1 == t.2[k].1);
            assert(forall|k: int| 0 <= k < t.2.len() ==> (#[trigger] u.2[k]).0 == t.2[k].0);
            assert(u.2[t.2.len() as int].0 as nat == first_index(t.0, t.1) + 1);
        }
    }
}

/// Width monotonicity: across one encode call, the code width never
/// decreases from any emitted pair to a later one. The bound on the input's
/// length is the machine limit under which encoding is possible at all.
pub proof fn lemma_encode_width_monotone(s: Seq<u8>, i: int, j: int)
    requires
        s.len() + 257 <= usize::MAX,
        0 <= i <= j < enc_pairs(s).len(),
    ensures
        enc_pairs(s)[i].1 <= enc_pairs(s)[j].1,
{
    lemma_enc_fold_widths(s);
    let t = enc_fold(s);
    let nb = spec_nbits((t.0.len() + 1) as nat);
    lemma_nbits_le_self((t.0.len() + 1) as nat);
    assert(forall|k: int| 0 <= k < t.2.len() ==> (#[trigger] enc_pairs(s)[k]) == t.2[k]);
    assert(forall|k: int|
        t.2.len() <= k < enc_pairs(s).len() ==> (#[trigger] enc_pairs(s)[k]).1 == nb as usize);
}


proof fn lemma_val_of_zero_bits(bits: Seq<bool>)
    requires
        forall|k: int| 0 <= k < bits.len() ==> !bits[k],
    ensures
        val_of_bits(bits) == 0,
    decreases bits.len(),
{
    if bits.len() > 0 {
        lemma_val_of_zero_bits(bits.drop_last());
    }
}

/// Round trip on the empty input: the encoder emits the nine-bit terminator
/// alone, packed as two zero bytes, and the decoder stops right at it.
pub proof fn lemma_lzw_empty_round_trip()
    ensures
        lzw_encode_bytes(Seq::<u8>::empty()) == seq![0u8, 0u8],
        lzw_decode_bytes(seq![0u8, 0u8]) == Some(Seq::<u8>::empty()),
{
    reveal_with_fuel(spec_nbits, 12);
    reveal_with_fuel(bits_of_pairs, 3);
    reveal_with_fuel(pack_bits, 4);
    reveal_with_fuel(unpack_bytes, 4);
    reveal_with_fuel(val_of_bits, 3);
    assert(spec_nbits(257) == 9);
    let pairs = enc_pairs(Seq::<u8>::empty());
    assert(pairs =~= seq![(0usize, 9usize)]);
    let bits = bits_of_pairs(pairs);
    assert(pairs.drop_last() =~= Seq::<(usize, usize)>::empty());
    assert(bits =~= bin_of(0, 9));
    reveal_with_fuel(bin_of, 10);
    assert(bits.len() == 9);
    assert(forall|k: int| 0 <= k < 9 ==> !bin_of(0, 9)[k]) by {
        assert(bin_of(0, 9) =~= seq![false, false, false, false, false, false, false, false,
            false,
        ]);
    }
    lemma_val_of_zero_bits(bits.take(8));
    lemma_val_of_zero_bits(bits);
    assert(bits.skip(8) =~= seq![false]);
    lemma_val_of_zero_bits(bits.skip(8));
    assert(pack_bits(bits) =~= seq![0u8, 0u8]);

    let dbits = unpack_bytes(seq![0u8, 0u8]);
    assert(seq![0u8, 0u8].drop_first() =~= seq![0u8]);
    assert(seq![0u8].drop_first() =~= Seq::<u8>::empty());
    assert(dbits =~= bin_of(0, 8) + (bin_of(0, 8) + unpack_bytes(Seq::<u8>::empty())));
    assert(forall|k: int| 0 <= k < 8 ==> !bin_of(0, 8)[k]) by {
        assert(bin_of(0, 8) =~= seq![false, false, false, false, false, false, false, false]);
    }
    assert(dbits.len() == 16);
    lemma_val_of_zero_bits(dbits.subrange(0, 9));
    assert(lzw_decode_bytes(seq![0u8, 0u8]) == Some(Seq::<u8>::empty()));
}

/// One code-level decoder step: resolve `code` against the reverse map (a
/// code one past its end names the previous phrase extended by its own first
/// byte), append the phrase, and insert the pending entry one step behind.
pub open spec fn dec_code_step(
    rev: Seq<Seq<u8>>,
    prev: Seq<u8>,
    out: Seq<u8>,
    code: usize,
) -> Option<(Seq<Seq<u8>>, Seq<u8>, Seq<u8>)> {
    if code == 0 || code > rev.len() + 1 || (code == rev.len() + 1 && prev.len() == 0) {
        None
    } else {
        let phrase = if code <= rev.len() {
            rev[code - 1]
        } else {
            prev.push(prev[0])
        };
        let out2 = out + phrase;
        if prev.len() > 0 {
            Some((rev.push(prev.push(phrase[0])), phrase, out2))
        } else {
            Some((rev, phrase, out2))
        }
    }
}

/// The decoder state after consuming a whole code sequence.
pub open spec fn dec_codes_state(
    codes: Seq<usize>,
    rev: Seq<Seq<u8>>,
    prev: Seq<u8>,
    out: Seq<u8>,
) -> Option<(Seq<Seq<u8>>, Seq<u8>, Seq<u8>)>
    decreases codes.len(),
{
    if codes.len() == 0 {
        Some((rev, prev, out))
    } else {
        match dec_code_step(rev, prev, out, codes.first()) {
            Option::Some(st) => dec_codes_state(codes.drop_first(), st.0, st.1, st.2),
            Option::None => None,
        }
    }
}

/// The bytes the code-level decoder reconstructs from a code sequence.
pub open spec fn lzw_decode_codes(codes: Seq<usize>) -> Option<Seq<u8>> {
    match dec_codes_state(codes, init_phrases(), Seq::empty(), Seq::empty()) {
        Option::Some(st) => Some(st.2),
        Option::None => None,
    }
}

/// Every data code the encoder emits for input `s`, in order: the fold's
/// codes and the final word's code; the terminator is a bit-level matter.
pub open spec fn enc_codes(s: Seq<u8>) -> Seq<usize> {
    let t = enc_fold(s);
    let base = Seq::new(t.2.len(), |i: int| t.2[i].0);
    if t.1.len() > 0 {
        base.push((first_index(t.0, t.1) + 1) as usize)
    } else {
        base
    }
}

/// The code-level decoder consumes appended codes one step at a time.
proof fn lemma_dec_codes_state_push(
    codes: Seq<usize>,
    rev: Seq<Seq<u8>>,
    prev: Seq<u8>,
    out: Seq<u8>,
    q: usize,
)
    ensures
        dec_codes_state(codes.push(q), rev, prev, out) == match dec_codes_state(
            codes,
            rev,
            prev,
            out,
        ) {
            Option::Some(st) => dec_code_step(st.0, st.1, st.2, q),
            Option::None => None,
        },
    decreases codes.len(),
{
    if codes.len() == 0 {
        assert(codes.push(q).first() == q);
        assert(codes.push(q).drop_first() =~= Seq::<usize>::empty());
        if dec_code_step(rev, prev, out, q) is Some {
            let st = dec_code_step(rev, prev, out, q).unwrap();
            assert(dec_codes_state(Seq::<usize>::empty(), st.0, st.1, st.2) == Some(st));
        }
    } else {
        assert(codes.push(q).first() == codes.first());
        assert(codes.push(q).drop_first() =~= codes.drop_first().push(q));
        match dec_code_step(rev, prev, out, codes.first()) {
            Option::Some(st) => {
                lemma_dec_codes_state_push(codes.drop_first(), st.0, st.1, st.2, q);
            },
            Option::None => {},
        }
    }
}

/// Dictionary synchronization, the invariant itself, by induction over the
/// input: after the encoder has consumed any input `s`, the code-level
/// decoder driven by the emitted codes holds exactly the encoder's
/// dictionary one insertion behind (every assigned code maps to the same
/// phrase), its previous phrase is the encoder's pending entry short of its
/// last byte, and its output plus the encoder's current word is exactly `s`.
pub proof fn lemma_enc_dec_sync(s: Seq<u8>)
    requires
        s.len() + 257 <= usize::MAX,
    ensures
        enc_fold(s).0.len() == 256 + enc_fold(s).2.len(),
        enc_fold(s).2.len() <= s.len(),
        forall|k: int| 0 <= k < 256 ==> enc_fold(s).0[k] == seq![k as u8],
        s.len() > 0 ==> enc_fold(s).1.len() > 0,
        enc_fold(s).1.len() > 0 ==> enc_fold(s).0.contains(enc_fold(s).1),
        ({
            let t = enc_fold(s);
            let codes = Seq::new(t.2.len(), |i: int| t.2[i].0);
            let st = dec_codes_state(codes, init_phrases(), Seq::empty(), Seq::empty());
            &&& st is Some
            &&& if t.2.len() == 0 {
                st.unwrap() == (init_phrases(), Seq::<u8>::empty(), Seq::<u8>::empty())
                    && t.1 == s
            } else {
                let u = st.unwrap();
                &&& u.0 == t.0.drop_last()
                &&& u.1.len() > 0
                &&& t.0.last() == u.1 + seq![t.1[0]]
                &&& u.2 + t.1 == s
            }
        }),
    decreases s.len(),
{
    if s.len() == 0 {
        assert(enc_fold(s).1 =~= s);
    } else {
        lemma_enc_dec_sync(s.drop_last());
        let tp = enc_fold(s.drop_last());
        let c = s.last();
        let t = enc_fold(s);
        let w2 = tp.1.push(c);
        let codes_p = Seq::new(tp.2.len(), |i: int| tp.2[i].0);
        let stp = dec_codes_state(codes_p, init_phrases(), Seq::empty(), Seq::empty());
        if tp.0.contains(w2) {
            assert(t == (tp.0, w2, tp.2));
            assert(Seq::new(t.2.len(), |i: int| t.2[i].0) =~= codes_p);
            if tp.2.len() == 0 {
                assert(t.1 =~= s);
            } else {
                let u = stp.unwrap();
                assert(u.2 + t.1 =~= (u.2 + tp.1).push(c));
                assert(s.drop_last().push(c) =~= s);
                assert(u.2 + t.1 == s);
            }
        } else {
            if tp.1.len() == 0 {
                assert(w2 =~= seq![c]);
                assert(tp.0[c as int] == seq![(c as int) as u8]);
                assert(tp.0[c as int] =~= seq![c]);
                assert(tp.0.contains(w2));
                assert(false);
            }
            let fi = first_index(tp.0, tp.1);
            lemma_first_index_bounds(tp.0, tp.1);
            assert(tp.0.len() == 256 + tp.2.len());
            assert(tp.2.len() <= s.drop_last().len());
            assert(fi + 1 <= tp.0.len() <= usize::MAX);
            let q = (fi + 1) as usize;
            assert(q == fi + 1);
            assert(t.0 == tp.0.push(w2));
            assert(t.1 == seq![c]);
            assert(t.2 == tp.2.push((q, spec_nbits((tp.0.len() + 1) as nat) as usize)));
            assert(forall|k: int| 0 <= k < 256 ==> t.0[k] == tp.0[k]);
            assert(t.0[c as int] =~= seq![c]);
            assert(t.0.contains(t.1)) by {
                assert(t.0[c as int] == t.1);
            }
            let codes = Seq::new(t.2.len(), |i: int| t.2[i].0);
            assert(codes =~= codes_p.push(q));
            lemma_dec_codes_state_push(
                codes_p,
                init_phrases(),
                Seq::empty(),
                Seq::empty(),
                q,
            );
            let u = stp.unwrap();
            if tp.2.len() == 0 {
                // the decoder still holds the fresh dictionary
                assert(tp.0 =~= init_phrases());
                assert(1 <= q <= 256);
                assert(init_phrases()[q - 1] == tp.1);
                let st2 = dec_code_step(init_phrases(), Seq::empty(), Seq::empty(), q);
                assert(st2 == Some((init_phrases(), tp.1, Seq::empty() + tp.1)));
                assert(t.0.drop_last() =~= tp.0);
                assert(t.0.last() == w2);
                assert(w2 =~= tp.1 + seq![c]);
                assert((Seq::empty() + tp.1) + t.1 =~= tp.1.push(c));
                assert(s.drop_last() =~= Seq::<u8>::empty() + tp.1);
                assert(tp.1.push(c) =~= s);
            } else {
                let rev = u.0;
                assert(rev == tp.0.drop_last());
                assert(1 <= q <= rev.len() + 1);
                let phrase = if q <= rev.len() {
                    rev[q - 1]
                } else {
                    u.1.push(u.1[0])
                };
                if q <= rev.len() {
                    assert(rev[q - 1] == tp.0[q - 1]);
                    assert(phrase == tp.1);
                } else {
                    // the code names the phrase still being decoded: the
                    // previous phrase extended by its own first byte
                    assert(fi == tp.0.len() - 1);
                    assert(tp.0.last() == tp.1);
                    assert(tp.1 == u.1 + seq![tp.1[0]]);
                    assert(u.1.len() > 0);
                    assert(tp.1[0] == (u.1 + seq![tp.1[0]])[0]);
                    assert(tp.1[0] == u.1[0]);
                    assert(phrase =~= u.1 + seq![tp.1[0]]);
                    assert(phrase == tp.1);
                }
                let st2 = dec_code_step(rev, u.1, u.2, q);
                assert(st2 is Some);
                let v = st2.unwrap();
                assert(v.0 == rev.push(u.1.push(phrase[0])));
                assert(u.1.push(phrase[0]) =~= u.1 + seq![tp.1[0]]);
                assert(u.1.push(phrase[0]) == tp.0.last());
                assert(v.0 =~= tp.0);
                assert(t.0.drop_last() =~= tp.0);
                assert(v.1 == tp.1);
                assert(t.0.last() == w2);
                assert(w2 =~= tp.1 + seq![c]);
                assert(v.2 == u.2 + tp.1);
                assert((u.2 + tp.1) + t.1 =~= (u.2 + tp.1).push(c));
                assert(s.drop_last() =~= u.2 + tp.1);
                assert((u.2 + tp.1).push(c) =~= s);
            }
        }
    }
}

/// Round trip and dictionary synchronization at the code level: for every
/// input, the decoder driven by the codes the encoder emits, inserting one
/// step behind, rebuilds exactly the input. The bound on the input's length
/// is the machine limit under which encoding is possible at all.
pub proof fn lemma_lzw_code_round_trip(s: Seq<u8>)
    requires
        s.len() + 257 <= usize::MAX,
    ensures
        lzw_decode_codes(enc_codes(s)) == Some(s),
{
    lemma_enc_dec_sync(s);
    let t = enc_fold(s);
    let base = Seq::new(t.2.len(), |i: int| t.2[i].0);
    let stp = dec_codes_state(base, init_phrases(), Seq::empty(), Seq::empty());
    if t.1.len() == 0 {
        assert(s.len() == 0);
        assert(t.2.len() == 0) by {
            assert(t.0.len() == 256 + t.2.len());
        }
        assert(enc_codes(s) =~= Seq::<usize>::empty());
        assert(stp.unwrap().2 =~= s);
    } else {
        lemma_first_index_bounds(t.0, t.1);
        let fi = first_index(t.0, t.1);
        assert(t.0.len() == 256 + t.2.len());
        assert(t.2.len() <= s.len());
        assert(fi + 1 <= t.0.len() <= usize::MAX);
        let q = (fi + 1) as usize;
        assert(q == fi + 1);
        assert(enc_codes(s) == base.push(q));
        lemma_dec_codes_state_push(base, init_phrases(), Seq::empty(), Seq::empty(), q);
        let u = stp.unwrap();
        if t.2.len() == 0 {
            assert(t.0 =~= init_phrases());
            assert(1 <= q <= 256);
            assert(init_phrases()[q - 1] == t.1);
            let st2 = dec_code_step(init_phrases(), Seq::empty(), Seq::empty(), q);
            assert(st2 is Some);
            assert(st2.unwrap().2 == Seq::empty() + t.1);
            assert(Seq::empty() + t.1 =~= s);
        } else {
            let rev = u.0;
            assert(1 <= q <= rev.len() + 1);
            let phrase = if q <= rev.len() {
                rev[q - 1]
            } else {
                u.1.push(u.1[0])
            };
            if q <= rev.len() {
                assert(rev[q - 1] == t.0[q - 1]);
                assert(phrase == t.1);
            } else {
                assert(fi == t.0.len() - 1);
                assert(t.0.last() == t.1);
                assert(t.1 == u.1 + seq![t.1[0]]);
                assert(t.1[0] == u.1[0]);
                assert(phrase =~= u.1 + seq![t.1[0]]);
                assert(phrase == t.1);
            }
            let st2 = dec_code_step(rev, u.1, u.2, q);
            assert(st2 is Some);
            assert(st2.unwrap().2 == u.2 + t.1);
            assert(u.2 + t.1 == s);
        }
    }
}

/// The code-level view matches the emitted pairs: `enc_codes` holds exactly
/// the code of every pair before the terminator, in order.
pub proof fn lemma_enc_codes_match_pairs(s: Seq<u8>)
    ensures
        enc_pairs(s).len() == enc_codes(s).len() + 1,
        forall|k: int|
            0 <= k < enc_codes(s).len() ==> (#[trigger] enc_codes(s)[k]) == enc_pairs(s)[k].0,
{
    let t = enc_fold(s);
    let base = Seq::new(t.2.len(), |i: int| t.2[i].0);
    assert(forall|k: int| 0 <= k < base.len() ==> (#[trigger] base[k]) == t.2[k].0);
}

/// The width schedule: while the dictionary still grows, the code at
/// position `k` of the emitted pairs is exactly as wide as the binary form
/// of `257 + k`; the final word's code and the terminator keep the width of
/// the last insertion.
pub proof fn lemma_width_schedule(s: Seq<u8>, k: int)
    requires
        s.len() + 257 <= usize::MAX,
        0 <= k < enc_pairs(s).len(),
    ensures
        k < enc_fold(s).2.len() ==> enc_pairs(s)[k].1 == spec_nbits((257 + k) as nat),
        k >= enc_fold(s).2.len() ==> enc_pairs(s)[k].1 == spec_nbits(
            (enc_fold(s).0.len() + 1) as nat,
        ),
{
    lemma_enc_fold_widths(s);
    let t = enc_fold(s);
    lemma_nbits_le_self((t.0.len() + 1) as nat);
    assert(forall|j: int| 0 <= j < t.2.len() ==> (#[trigger] enc_pairs(s)[j]) == t.2[j]);
    if k < t.2.len() {
        lemma_nbits_le_self((257 + k) as nat);
    } else {
        let nb = spec_nbits((t.0.len() + 1) as nat);
        assert(forall|j: int|
            t.2.len() <= j < enc_pairs(s).len() ==> (#[trigger] enc_pairs(s)[j]).1 == nb
                as usize);
    }
}

/// Terminator presence in the bit stream itself: the emitted bits end with
/// the terminator's run of clear bits, as wide as the width then active.
pub proof fn lemma_stream_ends_in_zeros(s: Seq<u8>)
    ensures
        ({
            let stream = bits_of_pairs(enc_pairs(s));
            let w = enc_pairs(s).last().1;
            &&& stream.len() >= w
            &&& forall|i: int| stream.len() - w <= i < stream.len() ==> !stream[i]
        }),
{
    lemma_encode_terminated(s);
    let pairs = enc_pairs(s);
    let k = pairs.len() - 1;
    crate::bits::lemma_pairs_layout(pairs, k);
    crate::bits::lemma_pairs_offset_total(pairs);
    let stream = bits_of_pairs(pairs);
    let w = pairs.last().1;
    assert(crate::bits::pairs_offset(pairs, k) + w == stream.len());
    assert(stream.subrange(stream.len() - w, stream.len() as int) == bin_of(0, w as nat));
    crate::bits::lemma_bin_of_zero(w as nat);
    assert(forall|i: int|
        stream.len() - w <= i < stream.len() ==> stream[i] == bin_of(0, w as nat)[
            i - (stream.len() - w)
        ]);
}

proof fn lemma_dec_codes_state_split(
    a: Seq<usize>,
    b: Seq<usize>,
    rev: Seq<Seq<u8>>,
    prev: Seq<u8>,
    out: Seq<u8>,
)
    ensures
        dec_codes_state(a + b, rev, prev, out) == match dec_codes_state(a, rev, prev, out) {
            Option::Some(st) => dec_codes_state(b, st.0, st.1, st.2),
            Option::None => None,
        },
    decreases a.len(),
{
    if a.len() == 0 {
        assert(a + b =~= b);
    } else {
        assert((a + b).first() == a.first());
        assert((a + b).drop_first() =~= a.drop_first() + b);
        match dec_code_step(rev, prev, out, a.first()) {
            Option::Some(st) => {
                lemma_dec_codes_state_split(a.drop_first(), b, st.0, st.1, st.2);
            },
            Option::None => {},
        }
    }
}

/// The decoder state the bit-level machine holds after consuming the first
/// `j` data codes of the stream for `s`.
pub open spec fn dec_state_at(s: Seq<u8>, j: int) -> (Seq<Seq<u8>>, Seq<u8>, Seq<u8>) {
    dec_codes_state(enc_codes(s).take(j), init_phrases(), Seq::empty(), Seq::empty()).unwrap()
}

/// The bit-level decoder, started at the `j`-th data code of the packed
/// stream for `s` in the matching code-level state and at the scheduled
/// width, runs on to reconstruct exactly `s`: every read lands on a field
/// boundary, widths stay synchronized, and the terminator (with whatever
/// padding follows it) stops the machine.
/// How the packed-then-unpacked stream relates to the raw emitted bits:
/// they agree everywhere before the terminator, and everything from the
/// terminator on is clear, final-byte padding included.
pub proof fn lemma_padded_stream_facts(s: Seq<u8>)
    requires
        s.len() + 257 <= usize::MAX,
        s.len() > 0,
    ensures
        ({
            let bstream = bits_of_pairs(enc_pairs(s));
            let p = unpack_bytes(pack_bits(bstream));
            let offd = pairs_offset(enc_pairs(s), enc_codes(s).len() as int);
            &&& 0 <= offd < bstream.len() <= p.len()
            &&& forall|i: int| 0 <= i < offd ==> p[i] == bstream[i]
            &&& forall|i: int| offd <= i < p.len() ==> !p[i]
        }),
{
    let pairs = enc_pairs(s);
    let d = enc_codes(s).len() as int;
    let bstream = bits_of_pairs(pairs);
    let p = unpack_bytes(pack_bits(bstream));
    let t = enc_fold(s);
    lemma_enc_fold_widths(s);
    lemma_enc_codes_match_pairs(s);
    lemma_encode_terminated(s);
    lemma_enc_dec_sync(s);
    assert(t.1.len() > 0);
    assert(d == t.2.len() + 1);
    let wt = pairs[d].1 as nat;
    reveal_with_fuel(spec_nbits, 12);
    assert(pairs[d] == pairs.last());
    lemma_nbits_le_self((t.0.len() + 1) as nat);
    assert(wt == spec_nbits((t.0.len() + 1) as nat));
    lemma_nbits_mono(257, (t.0.len() + 1) as nat);
    assert(wt >= 9);
    lemma_pairs_offset_total(pairs);
    lemma_pairs_offset_mono(pairs, 0, d);
    let offd = pairs_offset(pairs, d);
    assert(offd + wt == bstream.len());
    let q8 = 8 * (bstream.len() / 8) as int;
    assert(q8 >= bstream.len() - 7);
    assert(offd + 2 <= q8);
    lemma_pairs_layout(pairs, d);
    lemma_bin_of_zero(wt);
    assert(forall|i: int| offd <= i < bstream.len() ==> !bstream[i]) by {
        assert(forall|i: int|
            offd <= i < bstream.len() ==> bstream[i] == bstream.subrange(offd, offd + wt as int)[
                i - offd
            ]);
    }
    if bstream.len() % 8 == 0 {
        lemma_unpack_pack(bstream);
        assert(p == bstream);
    } else {
        lemma_unpack_pack_padded(bstream);
    }
    let r8 = (bstream.len() % 8) as int;
    assert(p.len() >= bstream.len());
    assert forall|i: int| 0 <= i < q8 implies p[i] == bstream[i] by {
        if bstream.len() % 8 != 0 {
            assert(p[i] == (bstream.take(q8) + zero_bits((8 - r8) as nat) + bstream.skip(q8))[
                i
            ]);
        }
    }
    assert forall|i: int| offd <= i < p.len() implies !p[i] by {
        if bstream.len() % 8 != 0 {
            if i < q8 {
                assert(p[i] == bstream[i]);
            } else if i < q8 + (8 - r8) {
                assert(p[i] == zero_bits((8 - r8) as nat)[i - q8]);
            } else {
                assert(p[i] == bstream[i - 8 + r8]);
                assert(i - 8 + r8 >= q8 >= offd);
            }
        }
    }
}

#[verifier::rlimit(100)]
proof fn lemma_dec_bits_from(s: Seq<u8>, stream: Seq<bool>, j: int, nb: nat)
    requires
        s.len() + 257 <= usize::MAX,
        s.len() > 0,
        stream.len() >= bits_of_pairs(enc_pairs(s)).len(),
        forall|i: int|
            0 <= i < pairs_offset(enc_pairs(s), enc_codes(s).len() as int) ==> stream[i]
                == bits_of_pairs(enc_pairs(s))[i],
        forall|i: int|
            pairs_offset(enc_pairs(s), enc_codes(s).len() as int) <= i < stream.len()
                ==> !stream[i],
        0 <= j <= enc_codes(s).len(),
        dec_codes_state(enc_codes(s).take(j), init_phrases(), Seq::empty(), Seq::empty())
            is Some,
        forall|k: int|
            0 <= k < dec_state_at(s, j).0.len() ==> (#[trigger] dec_state_at(s, j).0[k]).len()
                > 0,
        j == 0 ==> dec_state_at(s, j) == (init_phrases(), Seq::<u8>::empty(), Seq::<u8>::empty()),
        j >= 1 ==> dec_state_at(s, j).1.len() > 0 && dec_state_at(s, j).0.len() == 255 + j,
        if j < enc_codes(s).len() {
            nb == enc_pairs(s)[j].1 as nat
        } else {
            nb >= 1
        },
    ensures
        dec_fold(
            stream,
            pairs_offset(enc_pairs(s), j) as nat,
            dec_state_at(s, j).0,
            dec_state_at(s, j).1,
            dec_state_at(s, j).2,
            nb,
        ) == Some(s),
    decreases enc_codes(s).len() - j,
{
    let pairs = enc_pairs(s);
    let codes = enc_codes(s);
    let d = codes.len() as int;
    let bstream = bits_of_pairs(pairs);
    let p = stream;
    let st = dec_state_at(s, j);
    let offj = pairs_offset(pairs, j);
    let t = enc_fold(s);

    lemma_enc_fold_widths(s);
    lemma_enc_codes_match_pairs(s);
    lemma_encode_terminated(s);
    lemma_enc_dec_sync(s);
    lemma_lzw_code_round_trip(s);
    assert(t.1.len() > 0);
    assert(d == t.2.len() + 1);
    assert(pairs.len() == d + 1);

    // widths and code ranges of every data pair
    let kk = t.2.len() as int;
    assert(forall|k: int| 0 <= k < kk ==> (#[trigger] pairs[k]) == t.2[k]);
    lemma_first_index_le(t.0, t.1);
    lemma_nbits_le_self((257 + kk) as nat);
    assert(pairs[kk].1 as nat == spec_nbits((257 + kk) as nat));
    assert(1 <= pairs[kk].0 as nat <= 257 + kk);
    assert forall|k: int| 0 <= k < d implies (#[trigger] pairs[k]).1 as nat == spec_nbits(
        (257 + k) as nat,
    ) && 1 <= pairs[k].0 as nat <= 257 + k by {
        if k < kk {
            lemma_nbits_le_self((257 + k) as nat);
        }
    }

    // the terminator pair
    let wt = pairs[d].1 as nat;
    reveal_with_fuel(spec_nbits, 12);
    assert(pairs[d] == pairs.last());
    assert(pairs[d].0 == 0);
    assert(wt == spec_nbits((t.0.len() + 1) as nat));
    lemma_nbits_mono(257, (t.0.len() + 1) as nat);
    assert(wt >= 9);

    // offsets
    lemma_pairs_offset_total(pairs);
    lemma_pairs_offset_mono(pairs, 0, j);
    lemma_pairs_offset_mono(pairs, j, d);
    let offd = pairs_offset(pairs, d);
    assert(offd + wt == bstream.len());

    assert(p.len() >= bstream.len());

    if j == d {
        // at the terminator: the state is the full decode, whose output is s
        assert(codes.take(d) =~= codes);
        assert(st.2 == s);
        if nb == 0 || offj + nb > p.len() {
        } else {
            let sub = p.subrange(offj as int, offj + nb as int);
            assert(forall|k: int| 0 <= k < sub.len() ==> !sub[k]);
            lemma_val_of_zero_bits(sub);
        }
    } else {
        let wj = pairs[j].1 as nat;
        let code = pairs[j].0 as nat;
        assert(nb == wj);
        assert(spec_nbits((257 + j) as nat) >= 1);
        // the guard passes: this read lies before the terminator
        lemma_pairs_offset_mono(pairs, j + 1, d);
        assert(pairs_offset(pairs, j + 1) == offj + wj);
        assert(offj + nb <= offd);
        // the read lands on the field and gives back the code
        lemma_pairs_layout(pairs, j);
        let sub = p.subrange(offj as int, offj + wj as int);
        assert(sub =~= bstream.subrange(offj as int, offj + wj as int));
        lemma_nbits_covers((257 + j) as nat);
        lemma_bin_of_val(code, wj);
        assert(val_of_bits(sub) == code);
        assert(code == codes[j] as nat);
        assert(code >= 1);
        // the code-level machine takes the same step and stays alive
        assert(codes.take(j + 1) =~= codes.take(j).push(codes[j]));
        lemma_dec_codes_state_push(
            codes.take(j),
            init_phrases(),
            Seq::empty(),
            Seq::empty(),
            codes[j],
        );
        assert(codes =~= codes.take(j + 1) + codes.skip(j + 1));
        lemma_dec_codes_state_split(
            codes.take(j + 1),
            codes.skip(j + 1),
            init_phrases(),
            Seq::empty(),
            Seq::empty(),
        );
        assert(dec_codes_state(codes, init_phrases(), Seq::empty(), Seq::empty()) is Some);
        assert(dec_code_step(st.0, st.1, st.2, codes[j]) is Some);
        let st2 = dec_code_step(st.0, st.1, st.2, codes[j]).unwrap();
        assert(dec_state_at(s, j + 1) == st2);
        // the step's phrase, output and dictionary, and the next width
        assert(code <= st.0.len() + 1);
        let phrase = if code <= st.0.len() {
            st.0[code - 1]
        } else {
            st.1.push(st.1[0])
        };
        assert(phrase.len() > 0);
        let nb2: nat = if st.1.len() > 0 {
            spec_nbits((st.0.len() + 3) as nat)
        } else {
            nb
        };
        if st.1.len() > 0 {
            assert(j >= 1);
            assert(st2.0.len() == st.0.len() + 1);
            assert(nb2 == spec_nbits((258 + j) as nat));
        } else {
            assert(j == 0);
            assert(st2.0 == st.0);
            assert(nb2 == spec_nbits(257));
        }
        assert(st2.1 == phrase);
        assert(forall|k: int| 0 <= k < st2.0.len() ==> (#[trigger] st2.0[k]).len() > 0);
        assert(st2.0.len() == 255 + (j + 1));
        if j + 1 < d {
            assert(pairs[j + 1].1 as nat == spec_nbits((257 + j + 1) as nat));
            if st.1.len() == 0 {
                assert(spec_nbits(257) == 9);
                assert(spec_nbits(258) == 9);
            }
            assert(nb2 == pairs[j + 1].1 as nat);
        } else {
            assert(nb2 >= 1);
        }
        lemma_dec_bits_from(s, stream, j + 1, nb2);
        // one bit-level step is exactly that code-level step
        assert(dec_fold(p, offj as nat, st.0, st.1, st.2, nb) == dec_fold(
            p,
            (offj + wj) as nat,
            st2.0,
            st2.1,
            st2.2,
            nb2,
        ));
    }
}

/// Round trip: decoding an encoded stream gives back the input, for every
/// byte sequence whose dictionary the machine can hold.
pub proof fn lemma_lzw_round_trip(s: Seq<u8>)
    requires
        s.len() + 257 <= usize::MAX,
    ensures
        lzw_decode_bytes(lzw_encode_bytes(s)) == Some(s),
{
    if s.len() == 0 {
        lemma_lzw_empty_round_trip();
        assert(s =~= Seq::<u8>::empty());
    } else {
        let pairs = enc_pairs(s);
        let codes = enc_codes(s);
        lemma_enc_fold_widths(s);
        lemma_enc_codes_match_pairs(s);
        lemma_enc_dec_sync(s);
        assert(codes.take(0) =~= Seq::<usize>::empty());
        assert(dec_state_at(s, 0) == (init_phrases(), Seq::<u8>::empty(), Seq::<u8>::empty()));
        assert(forall|k: int|
            0 <= k < init_phrases().len() ==> (#[trigger] init_phrases()[k]).len() > 0);
        assert(codes.len() >= 1);
        let kk = enc_fold(s).2.len() as int;
        reveal_with_fuel(spec_nbits, 12);
        if 0 < kk {
            assert(pairs[0] == enc_fold(s).2[0]);
            assert(pairs[0].1 as nat == spec_nbits(257));
        } else {
            assert(pairs[0].1 as nat == spec_nbits((enc_fold(s).0.len() + 1) as nat));
            assert(enc_fold(s).0.len() == 256);
            assert(pairs[0].1 as nat == spec_nbits(257));
        }
        assert(pairs[0].1 as nat == 9);
        lemma_padded_stream_facts(s);
        lemma_dec_bits_from(s, unpack_bytes(pack_bits(bits_of_pairs(pairs))), 0, 9);
        assert(pairs_offset(pairs, 0) == 0);
    }
}

/// Round trip at the text level: decoding an encoded text gives back the
/// text, for every text whose dictionary the machine can hold.
pub proof fn lemma_lzw_text_round_trip(t: Seq<char>)
    requires
        encode_utf8(t).len() + 257 <= usize::MAX,
    ensures
        lzw_decode_text(lzw_encode_bytes(encode_utf8(t))) == Some(t),
{
    lemma_lzw_round_trip(encode_utf8(t));
    vstd::utf8::encode_utf8_valid_utf8(t);
    vstd::utf8::encode_utf8_decode_utf8(t);
}

/// The decoder state facts along a well-formed stream: after the first `j`
/// data codes the machine is alive, every dictionary entry is a non-empty
/// phrase, and from the first code on it holds a previous phrase and exactly
/// `j - 1` insertions.
pub proof fn lemma_dec_state_facts(s: Seq<u8>, j: int)
    requires
        s.len() + 257 <= usize::MAX,
        s.len() > 0,
        0 <= j <= enc_codes(s).len(),
    ensures
        dec_codes_state(enc_codes(s).take(j), init_phrases(), Seq::empty(), Seq::empty())
            is Some,
        forall|k: int|
            0 <= k < dec_state_at(s, j).0.len() ==> (#[trigger] dec_state_at(s, j).0[k]).len()
                > 0,
        j == 0 ==> dec_state_at(s, j) == (init_phrases(), Seq::<u8>::empty(), Seq::<u8>::empty()),
        j >= 1 ==> dec_state_at(s, j).1.len() > 0 && dec_state_at(s, j).0.len() == 255 + j,
    decreases j,
{
    let codes = enc_codes(s);
    lemma_lzw_code_round_trip(s);
    if j == 0 {
        assert(codes.take(0) =~= Seq::<usize>::empty());
        assert(forall|k: int|
            0 <= k < init_phrases().len() ==> (#[trigger] init_phrases()[k]).len() > 0);
    } else {
        lemma_dec_state_facts(s, j - 1);
        let st = dec_state_at(s, j - 1);
        assert(codes.take(j) =~= codes.take(j - 1).push(codes[j - 1]));
        lemma_dec_codes_state_push(
            codes.take(j - 1),
            init_phrases(),
            Seq::empty(),
            Seq::empty(),
            codes[j - 1],
        );
        assert(codes =~= codes.take(j) + codes.skip(j));
        lemma_dec_codes_state_split(
            codes.take(j),
            codes.skip(j),
            init_phrases(),
            Seq::empty(),
            Seq::empty(),
        );
        assert(dec_code_step(st.0, st.1, st.2, codes[j - 1]) is Some);
        let st2 = dec_code_step(st.0, st.1, st.2, codes[j - 1]).unwrap();
        assert(dec_state_at(s, j) == st2);
        let code = codes[j - 1] as nat;
        let phrase = if code <= st.0.len() {
            st.0[code - 1]
        } else {
            st.1.push(st.1[0])
        };
        assert(st2.1 == phrase);
        assert(phrase.len() > 0);
        assert(forall|k: int| 0 <= k < st2.0.len() ==> (#[trigger] st2.0[k]).len() > 0);
        assert(st2.0.len() == 255 + j);
    }
}

/// The width at which the decoder reads the `j`-th code of a packed stream:
/// the fresh dictionary's 9 bits until the first insertion, then the width
/// its dictionary calls for, one code ahead of the highest assigned one.
pub open spec fn dec_width_at(s: Seq<u8>, j: int) -> nat {
    if j <= 1 {
        9
    } else {
        spec_nbits((dec_state_at(s, j).0.len() + 2) as nat)
    }
}

/// Width monotonicity across one whole decode: on an encoded stream, the
/// decoder reads each code at exactly the width it was emitted with, so its
/// read widths start at 9 and never decrease from any step to a later one.
pub proof fn lemma_decode_read_widths(s: Seq<u8>, i: int, j: int)
    requires
        s.len() + 257 <= usize::MAX,
        s.len() > 0,
        0 <= i <= j < enc_codes(s).len(),
    ensures
        dec_width_at(s, j) == enc_pairs(s)[j].1,
        dec_width_at(s, 0) == 9,
        dec_width_at(s, i) <= dec_width_at(s, j),
{
    lemma_enc_fold_widths(s);
    lemma_enc_codes_match_pairs(s);
    lemma_enc_dec_sync(s);
    let t = enc_fold(s);
    let kk = t.2.len() as int;
    reveal_with_fuel(spec_nbits, 12);
    assert forall|k: int| 0 <= k < enc_codes(s).len() implies (#[trigger] enc_pairs(s)[k]).1
        as nat == spec_nbits((257 + k) as nat) by {
        if k < kk {
            assert(enc_pairs(s)[k] == t.2[k]);
            lemma_nbits_le_self((257 + k) as nat);
        } else {
            assert(k == kk);
            let nbtr = spec_nbits((t.0.len() + 1) as nat) as usize;
            let withword = t.2.push(((first_index(t.0, t.1) + 1) as usize, nbtr));
            assert(t.1.len() > 0);
            assert(enc_pairs(s) == withword.push((0usize, nbtr)));
            assert(enc_pairs(s)[k] == withword[k]);
            assert(withword[k].1 == nbtr);
            assert(t.0.len() + 1 == 257 + k);
            lemma_nbits_le_self((257 + k) as nat);
        }
    }
    if j <= 1 {
        assert(spec_nbits(257) == 9);
        assert(spec_nbits(258) == 9);
    } else {
        lemma_dec_state_facts(s, j);
        assert(dec_state_at(s, j).0.len() == 255 + j);
    }
    if i > 1 {
        lemma_dec_state_facts(s, i);
    }
    lemma_nbits_mono((257 + i) as nat, (257 + j) as nat);
    assert(spec_nbits(257) == 9);
}

/// The terminator seals the stream: a run of zero bytes appended to an
/// encoded stream never changes what it decodes to. The decoder stops at the
/// zero code and ignores every bit after it.
pub proof fn lemma_decode_ignores_trailing_zeros(s: Seq<u8>, extra: Seq<u8>)
    requires
        s.len() + 257 <= usize::MAX,
        forall|i: int| 0 <= i < extra.len() ==> extra[i] == 0,
    ensures
        lzw_decode_bytes(lzw_encode_bytes(s) + extra) == Some(s),
{
    let enc = lzw_encode_bytes(s);
    crate::bits::lemma_unpack_concat(enc, extra);
    crate::bits::lemma_unpack_zeros(extra);
    let p = unpack_bytes(enc);
    let pz = unpack_bytes(enc + extra);
    assert(pz == p + unpack_bytes(extra));
    if s.len() == 0 {
        lemma_lzw_empty_round_trip();
        assert(enc == seq![0u8, 0u8]);
        assert(forall|i: int| 0 <= i < enc.len() ==> enc[i] == 0);
        crate::bits::lemma_unpack_zeros(enc);
        assert(pz.len() >= 16);
        assert forall|i: int| 0 <= i < pz.len() implies !pz[i] by {
            if i < p.len() {
                assert(pz[i] == p[i]);
            } else {
                assert(pz[i] == unpack_bytes(extra)[i - p.len()]);
            }
        }
        let sub = pz.subrange(0, 9);
        assert(forall|k: int| 0 <= k < 9 ==> !sub[k]);
        lemma_val_of_zero_bits(sub);
        assert(lzw_decode_bytes(enc + extra) == Some(Seq::<u8>::empty()));
        assert(s =~= Seq::<u8>::empty());
    } else {
        let pairs = enc_pairs(s);
        let codes = enc_codes(s);
        let bstream = bits_of_pairs(pairs);
        let offd = pairs_offset(pairs, codes.len() as int);
        lemma_padded_stream_facts(s);
        assert(pz.len() >= bstream.len());
        assert forall|i: int| 0 <= i < offd implies pz[i] == bstream[i] by {
            assert(pz[i] == p[i]);
        }
        assert forall|i: int| offd <= i < pz.len() implies !pz[i] by {
            if i < p.len() {
                assert(pz[i] == p[i]);
            } else {
                assert(pz[i] == unpack_bytes(extra)[i - p.len()]);
            }
        }
        lemma_enc_fold_widths(s);
        lemma_enc_codes_match_pairs(s);
        lemma_enc_dec_sync(s);
        assert(codes.take(0) =~= Seq::<usize>::empty());
        assert(dec_state_at(s, 0) == (init_phrases(), Seq::<u8>::empty(), Seq::<u8>::empty()));
        assert(forall|k: int|
            0 <= k < init_phrases().len() ==> (#[trigger] init_phrases()[k]).len() > 0);
        let kk = enc_fold(s).2.len() as int;
        reveal_with_fuel(spec_nbits, 12);
        if 0 < kk {
            assert(pairs[0] == enc_fold(s).2[0]);
            assert(pairs[0].1 as nat == spec_nbits(257));
        } else {
            assert(pairs[0].1 as nat == spec_nbits((enc_fold(s).0.len() + 1) as nat));
            assert(enc_fold(s).0.len() == 256);
            assert(pairs[0].1 as nat == spec_nbits(257));
        }
        assert(pairs[0].1 as nat == 9);
        lemma_dec_bits_from(s, pz, 0, 9);
        assert(pairs_offset(pairs, 0) == 0);
    }
}

} // verus!
