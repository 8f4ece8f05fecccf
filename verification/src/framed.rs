//! The length-prefix framing codec: each message is a fixed-width big-endian
//! byte count followed by that many payload bytes.
use vstd::prelude::*;

use crate::codec::Codec;
use crate::seq_views;

verus! {

/// `256^w`: the number of values a `w`-byte length prefix can carry.
pub open spec fn pow256(w: nat) -> nat
    decreases w,
{
    if w == 0 {
        1
    } else {
        256 * pow256((w - 1) as nat)
    }
}

/// The value of a big-endian byte string.
pub open spec fn be_val(s: Seq<u8>) -> nat
    decreases s.len(),
{
    if s.len() == 0 {
        0
    } else {
        (be_val(s.drop_last()) * 256 + s.last()) as nat
    }
}

/// The `w` low-order bytes of `n`, big-endian.
pub open spec fn be_bytes(n: nat, w: nat) -> Seq<u8>
    decreases w,
{
    if w == 0 {
        Seq::empty()
    } else {
        be_bytes(n / 256, (w - 1) as nat).push((n % 256) as u8)
    }
}

pub proof fn lemma_be_bytes_len(n: nat, w: nat)
    ensures
        be_bytes(n, w).len() == w,
    decreases w,
{
    if w > 0 {
        lemma_be_bytes_len(n / 256, (w - 1) as nat);
    }
}

pub proof fn lemma_pow256_positive(w: nat)
    ensures
        pow256(w) >= 1,
    decreases w,
{
    if w > 0 {
        lemma_pow256_positive((w - 1) as nat);
    }
}

/// `pow256` grows with the width.
pub proof fn lemma_pow256_increases(a: nat, b: nat)
    requires
        a <= b,
    ensures
        pow256(a) <= pow256(b),
    decreases b,
{
    if a < b {
        lemma_pow256_increases(a, (b - 1) as nat);
        lemma_pow256_positive((b - 1) as nat);
    }
}

/// Reading back the big-endian bytes of `n` returns `n`, when `n` fits.
pub proof fn lemma_be_val_of_be_bytes(n: nat, w: nat)
    requires
        n < pow256(w),
    ensures
        be_val(be_bytes(n, w)) == n,
    decreases w,
{
    if w > 0 {
        let q = n / 256;
        let r = n % 256;
        assert(q < pow256((w - 1) as nat)) by (nonlinear_arith)
            requires
                n < 256 * pow256((w - 1) as nat),
                q == n / 256,
        {}
        lemma_be_val_of_be_bytes(q, (w - 1) as nat);
        let b = be_bytes(q, (w - 1) as nat);
        assert(be_bytes(n, w) == b.push(r as u8));
        assert(b.push(r as u8).drop_last() =~= b);
        assert(be_val(b.push(r as u8)) == be_val(b) * 256 + r);
        assert(q * 256 + r == n) by (nonlinear_arith)
            requires
                q == n / 256,
                r == n % 256,
        {}
    }
}

/// A big-endian byte string's value is bounded by its width.
pub proof fn lemma_be_val_bound(s: Seq<u8>)
    ensures
        be_val(s) < pow256(s.len()),
    decreases s.len(),
{
    if s.len() > 0 {
        lemma_be_val_bound(s.drop_last());
        let p = pow256((s.len() - 1) as nat);
        assert(be_val(s.drop_last()) * 256 + s.last() < 256 * p) by (nonlinear_arith)
            requires
                be_val(s.drop_last()) < p,
                s.last() < 256,
        {}
    }
}

/// All complete frames at the front of `s`, and the remaining bytes. A frame
/// is a `w`-byte big-endian length `n` followed by `n` payload bytes; the
/// payloads come out in stream order, and whatever does not yet form a
/// complete frame stays behind.
pub open spec fn frames(w: nat, s: Seq<u8>) -> (Seq<Seq<u8>>, Seq<u8>)
    decreases s.len(),
{
    if w == 0 || s.len() < w {
        (Seq::empty(), s)
    } else {
        let n = be_val(s.take(w as int));
        if s.len() < w + n {
            (Seq::empty(), s)
        } else {
            let rest = frames(w, s.skip((w + n) as int));
            (seq![s.subrange(w as int, (w + n) as int)] + rest.0, rest.1)
        }
    }
}

/// What `frames` leaves behind never contains a complete frame.
pub proof fn lemma_frames_rest_incomplete(w: nat, s: Seq<u8>)
    ensures
        frames(w, frames(w, s).1).0 == Seq::<Seq<u8>>::empty(),
        frames(w, frames(w, s).1).1 == frames(w, s).1,
    decreases s.len(),
{
    if w == 0 || s.len() < w {
    } else {
        let n = be_val(s.take(w as int));
        if s.len() < w + n {
        } else {
            lemma_frames_rest_incomplete(w, s.skip((w + n) as int));
        }
    }
}

/// The abstract state of a [`Framed`] codec: the prefix width and the bytes
/// received so far that do not yet form a complete frame.
pub struct FramedModel {
    pub width: nat,
    pub pending: Seq<u8>,
}

/// The length-prefix framing codec. Decoding buffers partial frames across
/// calls; encoding writes a `width`-byte big-endian length followed by the
/// payload.
pub struct Framed {
    width: usize,
    pending: Vec<u8>,
}

impl View for Framed {
    type V = FramedModel;

    closed spec fn view(&self) -> FramedModel {
        FramedModel { width: self.width as nat, pending: self.pending@ }
    }
}

impl Framed {
    /// A fresh framing codec with the given prefix width in bytes, with
    /// nothing buffered.
    pub fn new(width: usize) -> (r: Framed)
        requires
            1 <= width <= 8,
        ensures
            r@.width == width,
            r@.pending == Seq::<u8>::empty(),
    {
        Framed { width, pending: Vec::new() }
    }
}

/// Read the first `width` bytes of `buf` as a big-endian value.
fn be_read(buf: &Vec<u8>, width: usize) -> (r: u64)
    requires
        width <= 8,
        width <= buf@.len(),
    ensures
        r == be_val(buf@.take(width as int)),
{
    let mut acc: u64 = 0;
    let mut i: usize = 0;
    proof {
        assert(buf@.take(0) =~= Seq::<u8>::empty());
    }
    while i < width
        invariant
            i <= width <= 8,
            width <= buf@.len(),
            acc == be_val(buf@.take(i as int)),
            acc < pow256(i as nat),
        decreases width - i,
    {
        proof {
            lemma_pow256_increases(i as nat, 7);
            reveal_with_fuel(pow256, 9);
            assert(pow256(7) == 0x100000000000000);
            let t = buf@.take(i + 1);
            assert(t.drop_last() =~= buf@.take(i as int));
            assert(t.last() == buf@[i as int]);
            assert(acc * 256 + buf@[i as int] < 256 * pow256(i as nat)) by (nonlinear_arith)
                requires
                    acc < pow256(i as nat),
                    buf@[i as int] < 256,
            {}
        }
        acc = acc * 256 + (buf[i] as u64);
        i = i + 1;
    }
    acc
}

/// The `width` low-order bytes of `n`, big-endian, as a buffer.
pub fn usize_to_array(n: usize, width: usize) -> (r: Vec<u8>)
    requires
        width <= 8,
        (n as nat) < pow256(width as nat),
    ensures
        r@ == be_bytes(n as nat, width as nat),
        r@.len() == width,
    decreases width,
{
    proof {
        lemma_be_bytes_len(n as nat, width as nat);
    }
    if width == 0 {
        Vec::new()
    } else {
        proof {
            assert((n as nat) / 256 < pow256((width - 1) as nat)) by (nonlinear_arith)
                requires
                    (n as nat) < 256 * pow256((width - 1) as nat),
            {}
        }
        let mut r = usize_to_array(n / 256, width - 1);
        r.push((n % 256) as u8);
        r
    }
}

/// The big-endian value of the first `width` bytes of `buf`.
pub fn array_to_usize(buf: &Vec<u8>, width: usize) -> (r: usize)
    requires
        width <= 8,
        width <= buf@.len(),
        be_val(buf@.take(width as int)) <= usize::MAX,
    ensures
        r == be_val(buf@.take(width as int)),
{
    if width == 0 {
        proof {
            assert(buf@.take(0) =~= Seq::<u8>::empty());
        }
        0
    } else {
        let v = be_read(buf, width);
        v as usize
    }
}

/// A copy of `buf[start .. start + len]`.
fn copy_range(buf: &Vec<u8>, start: usize, len: usize) -> (r: Vec<u8>)
    requires
        start + len <= buf@.len(),
    ensures
        r@ == buf@.subrange(start as int, start as int + len as int),
{
    let total = buf.len();
    let mut r: Vec<u8> = Vec::new();
    let mut i: usize = 0;
    while i < len
        invariant
            i <= len,
            total == buf@.len(),
            start + len <= total,
            r@ =~= buf@.subrange(start as int, start as int + i as int),
        decreases len - i,
    {
        r.push(buf[start + i]);
        i = i + 1;
    }
    proof {
        assert(r@ =~= buf@.subrange(start as int, start as int + len as int));
    }
    r
}

/// A copy of `buf` from index `k` on.
pub(crate) fn suffix_of(buf: &Vec<u8>, k: usize) -> (r: Vec<u8>)
    requires
        k <= buf@.len(),
    ensures
        r@ == buf@.skip(k as int),
{
    let r = copy_range(buf, k, buf.len() - k);
    proof {
        assert(r@ =~= buf@.skip(k as int));
    }
    r
}

/// Drop the first `k` bytes of `v`.
fn drop_front(v: &mut Vec<u8>, k: usize)
    requires
        k <= old(v)@.len(),
    ensures
        final(v)@ == old(v)@.skip(k as int),
{
    let tail = copy_range(v, k, v.len() - k);
    proof {
        assert(tail@ =~= old(v)@.skip(k as int));
    }
    *v = tail;
}

impl Codec<Vec<u8>, Vec<u8>> for Framed {
    open spec fn inv(s: FramedModel) -> bool {
        1 <= s.width <= 8
    }

    open spec fn decode_post(pre: FramedModel, input: Seq<u8>) -> FramedModel {
        FramedModel { width: pre.width, pending: frames(pre.width, pre.pending + input).1 }
    }

    open spec fn decode_rest(pre: FramedModel, input: Seq<u8>) -> Seq<u8> {
        Seq::empty()
    }

    open spec fn decode_out(pre: FramedModel, input: Seq<u8>) -> Seq<Seq<u8>> {
        frames(pre.width, pre.pending + input).0
    }

    open spec fn encode_model(s: FramedModel, v: Seq<u8>) -> Seq<u8> {
        be_bytes(v.len(), s.width) + v
    }

    open spec fn encodable(s: FramedModel, v: Seq<u8>) -> bool {
        v.len() < pow256(s.width)
    }

    fn decode(&mut self, buf: &mut Vec<u8>) -> (r: Vec<Vec<u8>>) {
        let ghost stream = old(self)@.pending + old(buf)@;
        let ghost w = self@.width;
        self.pending.append(buf);
        let mut out: Vec<Vec<u8>> = Vec::new();
        proof {
            assert(self@.pending =~= stream);
            assert(seq_views(out@) =~= Seq::<Seq<u8>>::empty());
        }
        loop
            invariant
                1 <= w <= 8,
                self.width == w,
                seq_views(out@) + frames(w, self.pending@).0 =~= frames(w, stream).0,
                frames(w, self.pending@).1 == frames(w, stream).1,
            ensures
                frames(w, self.pending@).0 == Seq::<Seq<u8>>::empty(),
            decreases self.pending@.len(),
        {
            if self.pending.len() < self.width {
                break ;
            }
            let n64 = be_read(&self.pending, self.width);
            proof {
                lemma_be_val_bound(self.pending@.take(self.width as int));
                lemma_pow256_increases(w, 8);
                reveal_with_fuel(pow256, 10);
                assert(pow256(8) == 0x10000000000000000);
            }
            if ((self.pending.len() - self.width) as u64) < n64 {
                break ;
            }
            let n = n64 as usize;
            let payload = copy_range(&self.pending, self.width, n);
            let ghost before = self.pending@;
            drop_front(&mut self.pending, self.width + n);
            proof {
                let m = seq![before.subrange(w as int, w as int + n as int)];
                assert(frames(w, before).0 =~= m + frames(w, before.skip(w as int + n as int)).0);
                assert(frames(w, before).1 == frames(w, before.skip(w as int + n as int)).1);
                assert(seq_views(out@.push(payload)) =~= seq_views(out@).push(payload@));
            }
            out.push(payload);
        }
        proof {
            assert(frames(w, self.pending@).0 =~= Seq::<Seq<u8>>::empty());
            assert(seq_views(out@) + Seq::<Seq<u8>>::empty() =~= seq_views(out@));
            assert(buf@ =~= Seq::<u8>::empty());
        }
        out
    }

    fn can_encode(&self, v: &Vec<u8>) -> (r: bool) {
        let n = v.len();
        if self.width >= 8 {
            proof {
                reveal_with_fuel(pow256, 10);
                assert(pow256(8) == 0x10000000000000000);
            }
            true
        } else {
            let mut limit: u64 = 1;
            let mut i: usize = 0;
            while i < self.width
                invariant
                    i <= self.width <= 7,
                    limit == pow256(i as nat),
                    limit <= 0x100000000000000,
                decreases self.width - i,
            {
                proof {
                    lemma_pow256_increases(i as nat, 6);
                    reveal_with_fuel(pow256, 9);
                    assert(pow256(6) == 0x1000000000000);
                }
                limit = limit * 256;
                i = i + 1;
            }
            (n as u64) < limit
        }
    }

    fn encode(&self, v: &Vec<u8>) -> (r: Vec<u8>) {
        let mut r = usize_to_array(v.len(), self.width);
        let mut payload = copy_range(v, 0, v.len());
        proof {
            assert(payload@ =~= v@);
        }
        r.append(&mut payload);
        r
    }
}

/// Encoding a payload and decoding the result returns exactly that payload,
/// with nothing left over, for any payload that fits the prefix (length 0
/// included).
pub proof fn lemma_framed_round_trip(w: nat, payload: Seq<u8>)
    requires
        1 <= w,
        payload.len() < pow256(w),
    ensures
        frames(w, be_bytes(payload.len(), w) + payload).0 =~~= seq![payload],
        frames(w, be_bytes(payload.len(), w) + payload).1 =~= Seq::<u8>::empty(),
{
    let s = be_bytes(payload.len(), w) + payload;
    lemma_be_bytes_len(payload.len(), w);
    assert(s.take(w as int) =~= be_bytes(payload.len(), w));
    lemma_be_val_of_be_bytes(payload.len(), w);
    let n = be_val(s.take(w as int));
    assert(n == payload.len());
    assert(s.len() == w + n);
    assert(s.subrange(w as int, (w + n) as int) =~= payload);
    let rest = s.skip((w + n) as int);
    assert(rest =~= Seq::<u8>::empty());
    assert(frames(w, rest).0 == Seq::<Seq<u8>>::empty() && frames(w, rest).1 == rest);
    assert(frames(w, s).0 == seq![s.subrange(w as int, (w + n) as int)] + frames(w, rest).0);
    assert(frames(w, s).0 =~~= seq![payload]);
}

/// Splitting a byte stream across two `decode` calls yields the same
/// messages, in the same order, as one call on the whole stream: decoding
/// `s1 + s2` equals decoding `s1` and then feeding `s2` after the bytes
/// `s1` left behind.
pub proof fn lemma_frames_append(w: nat, s1: Seq<u8>, s2: Seq<u8>)
    requires
        1 <= w,
    ensures
        frames(w, s1 + s2).0 =~~= frames(w, s1).0 + frames(w, frames(w, s1).1 + s2).0,
        frames(w, s1 + s2).1 =~= frames(w, frames(w, s1).1 + s2).1,
    decreases s1.len(),
{
    if s1.len() < w {
        assert(frames(w, s1).1 == s1);
    } else {
        let n = be_val(s1.take(w as int));
        if s1.len() < w + n {
            assert(frames(w, s1).1 == s1);
        } else {
            let s = s1 + s2;
            assert(s.take(w as int) =~= s1.take(w as int));
            assert(s.len() >= w + n);
            assert(s.subrange(w as int, (w + n) as int) =~= s1.subrange(w as int, (w + n) as int));
            assert(s.skip((w + n) as int) =~= s1.skip((w + n) as int) + s2);
            lemma_frames_append(w, s1.skip((w + n) as int), s2);
        }
    }
}

/// The messages decoded from a sequence of reads, each fed to `decode` in
/// turn starting from buffered bytes `p`.
pub open spec fn chunked_out(w: nat, p: Seq<u8>, cs: Seq<Seq<u8>>) -> Seq<Seq<u8>>
    decreases cs.len(),
{
    if cs.len() == 0 {
        Seq::empty()
    } else {
        frames(w, p + cs.first()).0 + chunked_out(w, frames(w, p + cs.first()).1, cs.drop_first())
    }
}

/// The bytes still buffered after a sequence of reads is fed to `decode`.
pub open spec fn chunked_pending(w: nat, p: Seq<u8>, cs: Seq<Seq<u8>>) -> Seq<u8>
    decreases cs.len(),
{
    if cs.len() == 0 {
        p
    } else {
        chunked_pending(w, frames(w, p + cs.first()).1, cs.drop_first())
    }
}

/// Framing is read-boundary independent: however a byte stream is split
/// into successive reads, feeding the pieces to `decode` one at a time
/// yields the same ordered messages, and leaves the same bytes buffered, as
/// decoding the whole stream at once.
pub proof fn lemma_framed_read_boundary_independent(w: nat, p: Seq<u8>, cs: Seq<Seq<u8>>)
    requires
        1 <= w,
        frames(w, p).0 == Seq::<Seq<u8>>::empty(),
    ensures
        chunked_out(w, p, cs) =~~= frames(w, p + cs.flatten()).0,
        chunked_pending(w, p, cs) =~= frames(w, p + cs.flatten()).1,
    decreases cs.len(),
{
    if cs.len() == 0 {
        assert(p + cs.flatten() =~= p);
        assert(frames(w, p).1 == p);
    } else {
        let c0 = cs.first();
        let rest_p = frames(w, p + c0).1;
        lemma_frames_rest_incomplete(w, p + c0);
        lemma_framed_read_boundary_independent(w, rest_p, cs.drop_first());
        assert(p + cs.flatten() =~= (p + c0) + cs.drop_first().flatten());
        lemma_frames_append(w, p + c0, cs.drop_first().flatten());
    }
}

/// The concatenation of the framed encodings of `msgs`.
pub open spec fn frame_all(w: nat, msgs: Seq<Seq<u8>>) -> Seq<u8>
    decreases msgs.len(),
{
    if msgs.len() == 0 {
        Seq::empty()
    } else {
        (be_bytes(msgs.first().len(), w) + msgs.first()) + frame_all(w, msgs.drop_first())
    }
}

/// Round trip over whole buffers: decoding the concatenation of any number
/// of encoded messages returns exactly those messages, in order, with
/// nothing left over.
pub proof fn lemma_framed_round_trip_all(w: nat, msgs: Seq<Seq<u8>>)
    requires
        1 <= w,
        forall|i: int| 0 <= i < msgs.len() ==> (#[trigger] msgs[i]).len() < pow256(w),
    ensures
        frames(w, frame_all(w, msgs)).0 =~~= msgs,
        frames(w, frame_all(w, msgs)).1 =~= Seq::<u8>::empty(),
    decreases msgs.len(),
{
    if msgs.len() > 0 {
        let m0 = msgs.first();
        let enc0 = be_bytes(m0.len(), w) + m0;
        lemma_framed_round_trip(w, m0);
        lemma_framed_round_trip_all(w, msgs.drop_first());
        lemma_frames_append(w, enc0, frame_all(w, msgs.drop_first()));
        assert(frames(w, enc0).1 + frame_all(w, msgs.drop_first()) =~= frame_all(
            w,
            msgs.drop_first(),
        ));
        assert(seq![m0] + msgs.drop_first() =~~= msgs);
    }
}

} // verus!
