//! The run-length codec: each maximal run of one byte value becomes a fixed
//! nine-byte record, an eight-byte big-endian run length followed by the byte
//! itself; decoding reads the stream back in nine-byte chunks.
use crate::compress::{string_from_utf8, Compress};
use crate::error::DecodeError;
use vstd::arithmetic::power2::{lemma2_to64, lemma2_to64_rest, lemma_pow2_adds, pow2};
use vstd::prelude::*;
use vstd::slice::slice_subrange;
use vstd::utf8::{decode_utf8, encode_utf8, valid_utf8};

verus! {

/// A maximal run: `len` consecutive copies of `val`.
#[derive(Debug)]
pub struct Run {
    pub val: u8,
    pub len: usize,
}

/// `n` copies of `v`.
pub open spec fn repeat_byte(v: u8, n: nat) -> Seq<u8> {
    Seq::new(n, |i: int| v)
}

/// The maximal runs of `s`, in order, as (value, length) pairs.
pub open spec fn runs_spec(s: Seq<u8>) -> Seq<(u8, nat)>
    decreases s.len(),
{
    if s.len() == 0 {
        Seq::empty()
    } else {
        let rest = runs_spec(s.drop_last());
        if rest.len() > 0 && rest.last().0 == s.last() {
            rest.update(rest.len() - 1, (s.last(), (rest.last().1 + 1) as nat))
        } else {
            rest.push((s.last(), 1nat))
        }
    }
}

/// The `k`-byte big-endian form of `n`.
pub open spec fn be_bytes(n: nat, k: nat) -> Seq<u8>
    decreases k,
{
    if k == 0 {
        Seq::empty()
    } else {
        be_bytes(n / 256, (k - 1) as nat).push((n % 256) as u8)
    }
}

/// The value of a big-endian byte sequence.
pub open spec fn be_val(s: Seq<u8>) -> nat
    decreases s.len(),
{
    if s.len() == 0 {
        0
    } else {
        (256 * be_val(s.drop_last()) + s.last()) as nat
    }
}

pub proof fn lemma_be_val_bound(s: Seq<u8>)
    ensures
        be_val(s) < pow2(8 * s.len()),
    decreases s.len(),
{
    lemma2_to64();
    if s.len() > 0 {
        lemma_be_val_bound(s.drop_last());
        lemma_pow2_adds(8 * (s.len() - 1) as nat, 8);
    }
}

/// The nine-byte record of one run.
pub open spec fn record_of(v: u8, n: nat) -> Seq<u8> {
    be_bytes(n, 8).push(v)
}

/// All records of a run list, concatenated in order.
pub open spec fn rle_encode_runs(rs: Seq<(u8, nat)>) -> Seq<u8>
    decreases rs.len(),
{
    if rs.len() == 0 {
        Seq::empty()
    } else {
        rle_encode_runs(rs.drop_last()) + record_of(rs.last().0, rs.last().1)
    }
}

/// The packed RLE stream for the byte sequence `s`.
pub open spec fn rle_encode_bytes(s: Seq<u8>) -> Seq<u8> {
    rle_encode_runs(runs_spec(s))
}

/// The decoded bytes of an RLE stream: nine-byte records, each expanded to
/// its run. A trailing partial record, or a run length beyond machine size,
/// rejects the stream.
pub open spec fn rle_decode_bytes(s: Seq<u8>) -> Option<Seq<u8>>
    decreases s.len(),
{
    if s.len() == 0 {
        Some(Seq::<u8>::empty())
    } else if s.len() < 9 {
        None
    } else {
        let l = be_val(s.subrange(0, 8));
        let v = s[8];
        if l > usize::MAX {
            None
        } else {
            match rle_decode_bytes(s.skip(9)) {
                Option::Some(rest) => Some(repeat_byte(v, l) + rest),
                Option::None => None,
            }
        }
    }
}

/// The (value, length) pairs a list of runs stands for.
pub open spec fn runs_view(rs: Seq<Run>) -> Seq<(u8, nat)> {
    Seq::new(rs.len(), |i: int| (rs[i].val, rs[i].len as nat))
}

/// The maximal runs of `data`, in order.
pub fn runs(data: &Vec<u8>) -> (r: Vec<Run>)
    ensures
        runs_view(r@) == runs_spec(data@),
{
    let mut r: Vec<Run> = Vec::new();
    let n = data.len();
    let mut i: usize = 0;
    proof {
        assert(data@.take(0) =~= Seq::<u8>::empty());
        assert(runs_view(r@) =~= runs_spec(data@.take(0)));
    }
    while i < n
        invariant
            i <= n,
            n == data@.len(),
            runs_view(r@) == runs_spec(data@.take(i as int)),
            r@.len() > 0 ==> r@[r@.len() - 1].len as nat <= i,
        decreases n - i,
    {
        let c = data[i];
        let ghost pre = r@;
        proof {
            assert(data@.take(i + 1).drop_last() =~= data@.take(i as int));
            assert(data@.take(i + 1).last() == c);
        }
        let ln = r.len();
        let mut extended = false;
        if ln > 0 {
            let lv = r[ln - 1].val;
            if lv == c {
                let lr = r.pop().unwrap();
                r.push(Run { val: c, len: lr.len + 1 });
                extended = true;
                proof {
                    assert(runs_view(r@) =~= runs_view(pre).update(
                        pre.len() - 1,
                        (c, (pre[pre.len() - 1].len + 1) as nat),
                    ));
                }
            }
        }
        if !extended {
            r.push(Run { val: c, len: 1 });
            proof {
                assert(runs_view(r@) =~= runs_view(pre).push((c, 1nat)));
            }
        }
        i = i + 1;
    }
    proof {
        assert(data@.take(n as int) =~= data@);
    }
    r
}

/// Appends the `k`-byte big-endian form of `n`.
fn push_be(out: &mut Vec<u8>, n: usize, k: usize)
    ensures
        final(out)@ == old(out)@ + be_bytes(n as nat, k as nat),
    decreases k,
{
    if k == 0 {
        assert(out@ =~= out@ + be_bytes(n as nat, 0));
    } else {
        push_be(out, n / 256, k - 1);
        out.push((n % 256) as u8);
        assert(out@ =~= old(out)@ + be_bytes(n as nat, k as nat));
    }
}

impl Run {
    /// The run expanded to its bytes: `len` copies of `val`.
    pub fn into_bytes(self) -> (r: Vec<u8>)
        ensures
            r@ == repeat_byte(self.val, self.len as nat),
    {
        let mut r: Vec<u8> = Vec::new();
        let mut i: usize = 0;
        proof {
            assert(r@ =~= repeat_byte(self.val, 0));
        }
        while i < self.len
            invariant
                i <= self.len,
                r@ == repeat_byte(self.val, i as nat),
            decreases self.len - i,
        {
            r.push(self.val);
            proof {
                assert(r@ =~= repeat_byte(self.val, (i + 1) as nat));
            }
            i = i + 1;
        }
        r
    }

    /// The nine-byte record of this run.
    pub fn into_record(self) -> (r: Vec<u8>)
        ensures
            r@ == record_of(self.val, self.len as nat),
    {
        let mut out: Vec<u8> = Vec::new();
        push_be(&mut out, self.len, 8);
        out.push(self.val);
        proof {
            assert(out@ =~= record_of(self.val, self.len as nat));
        }
        out
    }

    /// Reads one run back from the head of a record: the eight-byte
    /// big-endian length, then the byte. Fails on a short record, or on a
    /// length beyond machine size.
    pub fn from_record(bs: &[u8]) -> (r: Result<Run, DecodeError>)
        ensures
            match r {
                Ok(run) => bs@.len() >= 9 && run.len as nat == be_val(bs@.subrange(0, 8))
                    && run.val == bs@[8],
                Err(_) => bs@.len() < 9 || be_val(bs@.subrange(0, 8)) > usize::MAX,
            },
    {
        if bs.len() < 9 {
            return Err(DecodeError);
        }
        let mut acc: u64 = 0;
        let mut i: usize = 0;
        proof {
            assert(bs@.subrange(0, 0) =~= Seq::<u8>::empty());
        }
        while i < 8
            invariant
                i <= 8,
                bs@.len() >= 9,
                acc as nat == be_val(bs@.subrange(0, i as int)),
            decreases 8 - i,
    {
            proof {
                lemma_be_val_bound(bs@.subrange(0, i as int));
                lemma_pow2_le_56((8 * i) as nat);
                assert(bs@.subrange(0, i + 1).drop_last() =~= bs@.subrange(0, i as int));
                assert(bs@.subrange(0, i + 1).last() == bs@[i as int]);
            }
            acc = 256 * acc + (bs[i] as u64);
            i = i + 1;
        }
        let v = bs[8];
        if acc > usize::MAX as u64 {
            return Err(DecodeError);
        }
        Ok(Run { val: v, len: acc as usize })
    }
}

proof fn lemma_pow2_le_56(i: nat)
    requires
        i <= 56,
    ensures
        pow2(i) <= 0x100000000000000,
    decreases 56 - i,
{
    if i == 56 {
        lemma2_to64_rest();
    } else {
        lemma_pow2_le_56(i + 1);
        vstd::arithmetic::power2::lemma_pow2_unfold((i + 1) as nat);
        vstd::arithmetic::power2::lemma_pow2_pos(i);
    }
}

/// The run-length codec choice.
pub struct RLE;

/// Runs the RLE decoder over the packed bytes: the decoded bytes, or nothing
/// on a malformed stream.
fn rle_decode_vec(data: &Vec<u8>) -> (r: Option<Vec<u8>>)
    ensures
        r is Some <==> rle_decode_bytes(data@) is Some,
        r matches Some(v) ==> Some(v@) == rle_decode_bytes(data@),
{
    let mut out: Vec<u8> = Vec::new();
    let n = data.len();
    let mut pos: usize = 0;
    proof {
        assert(data@.skip(0) =~= data@);
        assert(out@ =~= Seq::<u8>::empty());
    }
    while pos < n
        invariant
            pos <= n,
            n == data@.len(),
            rle_decode_bytes(data@) == match rle_decode_bytes(data@.skip(pos as int)) {
                Option::Some(rest) => Option::Some(out@ + rest),
                Option::None => Option::None::<Seq<u8>>,
            },
        decreases n - pos,
    {
        let ghost tail = data@.skip(pos as int);
        if n - pos < 9 {
            return None;
        }
        let chunk = slice_subrange(data.as_slice(), pos, pos + 9);
        proof {
            assert(tail.subrange(0, 8) =~= chunk@.subrange(0, 8));
            assert(tail[8] == chunk@[8]);
            assert(tail.skip(9) =~= data@.skip(pos + 9));
        }
        match Run::from_record(chunk) {
            Result::Err(_) => {
                return None;
            },
            Result::Ok(run) => {
                let ghost rl = run.len as nat;
                let ghost rv = run.val;
                let ghost oout = out@;
                let mut piece = run.into_bytes();
                out.append(&mut piece);
                proof {
                    assert forall|rest2: Seq<u8>| oout + (repeat_byte(rv, rl) + rest2) == out@
                        + rest2 by {
                        assert(oout + (repeat_byte(rv, rl) + rest2) =~= out@ + rest2);
                    }
                }
            },
        }
        pos = pos + 9;
    }
    proof {
        assert(data@.skip(n as int) =~= Seq::<u8>::empty());
        assert(out@ + Seq::<u8>::empty() =~= out@);
    }
    Some(out)
}

/// What the RLE decoder makes of a packed stream: the text whose UTF-8
/// bytes the stream decodes to; nothing when the stream is malformed or the
/// decoded bytes are not valid UTF-8.
pub open spec fn rle_decode_text(data: Seq<u8>) -> Option<Seq<char>> {
    match rle_decode_bytes(data) {
        Option::Some(bs) => if valid_utf8(bs) {
            Option::Some(decode_utf8(bs))
        } else {
            Option::None
        },
        Option::None => Option::None,
    }
}

impl RLE {
    /// Packs the text's UTF-8 bytes into run-length records.
    pub fn encode(&self, data: String) -> (r: Vec<u8>)
        ensures
            r@ == rle_encode_bytes(encode_utf8(data@)),
    {
        RLE::encode_runs(data)
    }

    /// Unpacks an RLE stream back to its text, or rejects it.
    pub fn decode(&self, data: Vec<u8>) -> (r: Result<String, DecodeError>)
        ensures
            r is Ok <==> rle_decode_text(data@) is Some,
            r matches Ok(s) ==> Some(s@) == rle_decode_text(data@),
    {
        match rle_decode_vec(&data) {
            Option::Some(bytes) => match string_from_utf8(bytes) {
                Option::Some(s) => Ok(s),
                Option::None => Err(DecodeError),
            },
            Option::None => Err(DecodeError),
        }
    }
}

impl Compress for RLE {
    /// The packed RLE stream of the text's UTF-8 bytes.
    open spec fn encode_spec(&self, data: Seq<char>) -> Seq<u8> {
        rle_encode_bytes(encode_utf8(data))
    }

    /// The text whose UTF-8 bytes the stream decodes to; nothing when the
    /// stream is malformed or the decoded bytes are not valid UTF-8.
    open spec fn decode_spec(&self, data: Seq<u8>) -> Option<Seq<char>> {
        rle_decode_text(data)
    }

    /// Run-length encoding is possible for any text.
    open spec fn fits(&self, data: Seq<char>) -> bool {
        true
    }

    fn encode(&self, data: String) -> (r: Vec<u8>) {
        RLE::encode(self, data)
    }

    fn decode(&self, data: Vec<u8>) -> (r: Result<String, DecodeError>) {
        RLE::decode(self, data)
    }
}

impl RLE {
    /// The run-length records of the text's UTF-8 bytes.
    fn encode_runs(data: String) -> (r: Vec<u8>)
        ensures
            r@ == rle_encode_bytes(encode_utf8(data@)),
    {
        let bs = data.as_str().as_bytes_vec();
        let rs = runs(&bs);
        let mut out: Vec<u8> = Vec::new();
        let n = rs.len();
        let mut i: usize = 0;
        proof {
            assert(runs_view(rs@).take(0) =~= Seq::<(u8, nat)>::empty());
            assert(out@ =~= rle_encode_runs(runs_view(rs@).take(0)));
        }
        while i < n
            invariant
                i <= n,
                n == rs@.len(),
                runs_view(rs@) == runs_spec(bs@),
                out@ == rle_encode_runs(runs_view(rs@).take(i as int)),
            decreases n - i,
        {
            let run = Run { val: rs[i].val, len: rs[i].len };
            let mut rec = run.into_record();
            out.append(&mut rec);
            proof {
                assert(runs_view(rs@).take(i + 1).drop_last() =~= runs_view(rs@).take(i as int));
                let ghost ri = rs@[i as int];
                assert(runs_view(rs@).take(i + 1).last() == (ri.val, ri.len as nat));
            }
            i = i + 1;
        }
        proof {
            assert(runs_view(rs@).take(n as int) =~= runs_view(rs@));
        }
        out
    }
}

/// The bytes a run list stands for: each run expanded, in order.
pub open spec fn expand_runs(rs: Seq<(u8, nat)>) -> Seq<u8>
    decreases rs.len(),
{
    if rs.len() == 0 {
        Seq::empty()
    } else {
        expand_runs(rs.drop_last()) + repeat_byte(rs.last().0, rs.last().1)
    }
}

/// The maximal runs of `s` expand back to `s`, and no run is empty or longer
/// than `s`.
pub proof fn lemma_runs_expand(s: Seq<u8>)
    ensures
        expand_runs(runs_spec(s)) == s,
        forall|k: int|
            0 <= k < runs_spec(s).len() ==> 1 <= (#[trigger] runs_spec(s)[k]).1 <= s.len(),
    decreases s.len(),
{
    if s.len() == 0 {
        assert(expand_runs(runs_spec(s)) =~= s);
    } else {
        lemma_runs_expand(s.drop_last());
        let rest = runs_spec(s.drop_last());
        let c = s.last();
        if rest.len() > 0 && rest.last().0 == c {
            let l = rest.last().1;
            let rs2 = rest.update(rest.len() - 1, (c, (l + 1) as nat));
            assert(rs2.drop_last() =~= rest.drop_last());
            assert(rs2.last() == (c, (l + 1) as nat));
            assert(repeat_byte(c, (l + 1) as nat) =~= repeat_byte(c, l).push(c));
            assert(expand_runs(rs2) == expand_runs(rest.drop_last()) + repeat_byte(c, l).push(c));
            assert(expand_runs(rest.drop_last()) + repeat_byte(c, l).push(c) =~= (expand_runs(
                rest.drop_last(),
            ) + repeat_byte(c, l)).push(c));
            assert(expand_runs(rs2) =~= s.drop_last().push(c));
            assert(s.drop_last().push(c) =~= s);
        } else {
            let rs2 = rest.push((c, 1nat));
            assert(rs2.drop_last() =~= rest);
            assert(repeat_byte(c, 1) =~= Seq::<u8>::empty().push(c));
            assert(expand_runs(rs2) =~= s.drop_last().push(c));
            assert(s.drop_last().push(c) =~= s);
        }
    }
}

/// Reading back the big-endian form of a value in range gives the value.
pub proof fn lemma_be_val_of_be_bytes(n: nat, k: nat)
    requires
        n < pow2(8 * k),
    ensures
        be_bytes(n, k).len() == k,
        be_val(be_bytes(n, k)) == n,
    decreases k,
{
    lemma2_to64();
    if k == 0 {
    } else {
        lemma_pow2_adds(8 * (k - 1) as nat, 8);
        lemma_be_val_of_be_bytes(n / 256, (k - 1) as nat);
        assert(be_bytes(n, k).drop_last() =~= be_bytes(n / 256, (k - 1) as nat));
    }
}

proof fn lemma_encode_runs_front(rs: Seq<(u8, nat)>)
    requires
        rs.len() > 0,
    ensures
        rle_encode_runs(rs) == record_of(rs[0].0, rs[0].1) + rle_encode_runs(rs.drop_first()),
    decreases rs.len(),
{
    if rs.len() == 1 {
        assert(rs.drop_last() =~= Seq::<(u8, nat)>::empty());
        assert(rs.drop_first() =~= Seq::<(u8, nat)>::empty());
        assert(rle_encode_runs(rs) =~= record_of(rs[0].0, rs[0].1) + rle_encode_runs(
            rs.drop_first(),
        ));
    } else {
        let head = rs.drop_last();
        lemma_encode_runs_front(head);
        assert(head[0] == rs[0]);
        assert(head.drop_first() =~= rs.drop_first().drop_last());
        assert(rs.drop_first().last() == rs.last());
        assert(rle_encode_runs(rs.drop_first()) == rle_encode_runs(rs.drop_first().drop_last())
            + record_of(rs.last().0, rs.last().1));
        assert(rle_encode_runs(rs) =~= record_of(rs[0].0, rs[0].1) + rle_encode_runs(
            rs.drop_first(),
        ));
    }
}

proof fn lemma_expand_runs_front(rs: Seq<(u8, nat)>)
    requires
        rs.len() > 0,
    ensures
        expand_runs(rs) == repeat_byte(rs[0].0, rs[0].1) + expand_runs(rs.drop_first()),
    decreases rs.len(),
{
    if rs.len() == 1 {
        assert(rs.drop_last() =~= Seq::<(u8, nat)>::empty());
        assert(rs.drop_first() =~= Seq::<(u8, nat)>::empty());
        assert(expand_runs(rs) =~= repeat_byte(rs[0].0, rs[0].1) + expand_runs(rs.drop_first()));
    } else {
        let head = rs.drop_last();
        lemma_expand_runs_front(head);
        assert(head[0] == rs[0]);
        assert(head.drop_first() =~= rs.drop_first().drop_last());
        assert(rs.drop_first().last() == rs.last());
        assert(expand_runs(rs.drop_first()) == expand_runs(rs.drop_first().drop_last())
            + repeat_byte(rs.last().0, rs.last().1));
        assert(expand_runs(rs) =~= repeat_byte(rs[0].0, rs[0].1) + expand_runs(rs.drop_first()));
    }
}

proof fn lemma_decode_encode_runs(rs: Seq<(u8, nat)>)
    requires
        forall|k: int| 0 <= k < rs.len() ==> (#[trigger] rs[k]).1 <= usize::MAX,
    ensures
        rle_decode_bytes(rle_encode_runs(rs)) == Some(expand_runs(rs)),
    decreases rs.len(),
{
    if rs.len() == 0 {
        assert(rle_encode_runs(rs) =~= Seq::<u8>::empty());
        assert(expand_runs(rs) =~= Seq::<u8>::empty());
    } else {
        let v = rs[0].0;
        let n = rs[0].1;
        lemma_encode_runs_front(rs);
        lemma_expand_runs_front(rs);
        assert(forall|k: int|
            0 <= k < rs.drop_first().len() ==> (#[trigger] rs.drop_first()[k]).1
                <= usize::MAX);
        lemma_decode_encode_runs(rs.drop_first());
        lemma2_to64_rest();
        assert(n < pow2(64));
        lemma_be_val_of_be_bytes(n, 8);
        let enc = rle_encode_runs(rs);
        assert(enc.len() >= 9);
        assert(enc.subrange(0, 8) =~= be_bytes(n, 8));
        assert(enc[8] == v);
        assert(enc.skip(9) =~= rle_encode_runs(rs.drop_first()));
    }
}

/// Round trip: decoding an encoded stream gives back the input, for every
/// byte sequence whose length the machine can hold.
pub proof fn lemma_rle_round_trip(s: Seq<u8>)
    requires
        s.len() <= usize::MAX,
    ensures
        rle_decode_bytes(rle_encode_bytes(s)) == Some(s),
{
    lemma_runs_expand(s);
    lemma_decode_encode_runs(runs_spec(s));
}

/// Round trip at the text level: decoding an encoded text gives back the
/// text, for every text whose UTF-8 form the machine can hold.
pub proof fn lemma_rle_text_round_trip(t: Seq<char>)
    requires
        encode_utf8(t).len() <= usize::MAX,
    ensures
        rle_decode_text(rle_encode_bytes(encode_utf8(t))) == Some(t),
{
    lemma_rle_round_trip(encode_utf8(t));
    vstd::utf8::encode_utf8_valid_utf8(t);
    vstd::utf8::encode_utf8_decode_utf8(t);
}

} // verus!
