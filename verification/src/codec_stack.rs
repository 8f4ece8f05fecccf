//! Codec composition: stacking a codec `L: In -> Mid` under a codec
//! `R: Mid -> Out` yields one codec `In -> Out`.
use core::marker::PhantomData;
use vstd::prelude::*;

use crate::codec::Codec;
use crate::seq_views;

verus! {

/// The state of the right codec after it has decoded each intermediate
/// value of `mids` in turn.
pub open spec fn chain_post<Mid: View, Out: View, R: Codec<Mid, Out>>(
    rv: R::V,
    mids: Seq<Mid::V>,
) -> R::V
    decreases mids.len(),
{
    if mids.len() == 0 {
        rv
    } else {
        chain_post::<Mid, Out, R>(R::decode_post(rv, mids.first()), mids.drop_first())
    }
}

/// The concatenation, in order, of what the right codec decodes from each
/// intermediate value of `mids` in turn.
pub open spec fn chain_out<Mid: View, Out: View, R: Codec<Mid, Out>>(
    rv: R::V,
    mids: Seq<Mid::V>,
) -> Seq<Out::V>
    decreases mids.len(),
{
    if mids.len() == 0 {
        Seq::empty()
    } else {
        R::decode_out(rv, mids.first()) + chain_out::<Mid, Out, R>(
            R::decode_post(rv, mids.first()),
            mids.drop_first(),
        )
    }
}

/// Feeding one more intermediate value extends the chained output at the
/// end and advances the chained state by one decode.
pub proof fn lemma_chain_push<Mid: View, Out: View, R: Codec<Mid, Out>>(
    rv: R::V,
    mids: Seq<Mid::V>,
    m: Mid::V,
)
    ensures
        chain_post::<Mid, Out, R>(rv, mids.push(m)) == R::decode_post(
            chain_post::<Mid, Out, R>(rv, mids),
            m,
        ),
        chain_out::<Mid, Out, R>(rv, mids.push(m)) =~~= chain_out::<Mid, Out, R>(rv, mids)
            + R::decode_out(chain_post::<Mid, Out, R>(rv, mids), m),
    decreases mids.len(),
{
    let s1 = mids.push(m);
    if mids.len() == 0 {
        assert(s1.first() == m);
        assert(s1.drop_first() =~= Seq::<Mid::V>::empty());
        assert(chain_post::<Mid, Out, R>(rv, s1) == chain_post::<Mid, Out, R>(
            R::decode_post(rv, m),
            s1.drop_first(),
        ));
        assert(chain_post::<Mid, Out, R>(R::decode_post(rv, m), Seq::<Mid::V>::empty())
            == R::decode_post(rv, m));
        assert(chain_out::<Mid, Out, R>(R::decode_post(rv, m), Seq::<Mid::V>::empty())
            == Seq::<Out::V>::empty());
        assert(chain_out::<Mid, Out, R>(rv, mids) == Seq::<Out::V>::empty());
        assert(chain_post::<Mid, Out, R>(rv, mids) == rv);
    } else {
        assert(s1.first() == mids.first());
        assert(s1.drop_first() =~= mids.drop_first().push(m));
        let rv1 = R::decode_post(rv, mids.first());
        lemma_chain_push::<Mid, Out, R>(rv1, mids.drop_first(), m);
        assert(chain_post::<Mid, Out, R>(rv, s1) == chain_post::<Mid, Out, R>(
            rv1,
            s1.drop_first(),
        ));
        assert(chain_out::<Mid, Out, R>(rv, s1) == R::decode_out(rv, mids.first())
            + chain_out::<Mid, Out, R>(rv1, s1.drop_first()));
        assert(chain_post::<Mid, Out, R>(rv, mids) == chain_post::<Mid, Out, R>(
            rv1,
            mids.drop_first(),
        ));
        assert(chain_out::<Mid, Out, R>(rv, mids) == R::decode_out(rv, mids.first())
            + chain_out::<Mid, Out, R>(rv1, mids.drop_first()));
    }
}

/// Two codecs stacked into one: `left` decodes the raw input into
/// intermediate values, and `right` decodes each of those, in order, into
/// the output values; encoding composes the other way around.
///
/// Its `decode_out` model is, by definition, "decode with the left codec,
/// then decode each intermediate result with the right codec and
/// concatenate, in order" — one stage may fan a message out into several,
/// or compress several into one — and `decode` is proved to match it.
pub struct CodecStack<In, Mid, Out, L, R> where
    In: View,
    Mid: View,
    Out: View,
    L: Codec<In, Mid>,
    R: Codec<Mid, Out>,
 {
    pub left: L,
    pub right: R,
    _marker: PhantomData<(In, Mid, Out)>,
}

impl<In, Mid, Out, L, R> View for CodecStack<In, Mid, Out, L, R> where
    In: View,
    Mid: View,
    Out: View,
    L: Codec<In, Mid>,
    R: Codec<Mid, Out>,
 {
    type V = (L::V, R::V);

    closed spec fn view(&self) -> (L::V, R::V) {
        (self.left@, self.right@)
    }
}

impl<In, Mid, Out, L, R> CodecStack<In, Mid, Out, L, R> where
    In: View,
    Mid: View,
    Out: View,
    L: Codec<In, Mid>,
    R: Codec<Mid, Out>,
 {
    /// Stack `right` on top of `left`.
    pub fn new(left: L, right: R) -> (r: CodecStack<In, Mid, Out, L, R>)
        ensures
            r@ == (left@, right@),
    {
        CodecStack { left, right, _marker: PhantomData }
    }
}

impl<In, Mid, Out, L, R> Codec<In, Out> for CodecStack<In, Mid, Out, L, R> where
    In: View,
    Mid: View,
    Out: View,
    L: Codec<In, Mid>,
    R: Codec<Mid, Out>,
 {
    open spec fn inv(s: (L::V, R::V)) -> bool {
        L::inv(s.0) && R::inv(s.1)
    }

    open spec fn decode_post(pre: (L::V, R::V), input: In::V) -> (L::V, R::V) {
        (
            L::decode_post(pre.0, input),
            chain_post::<Mid, Out, R>(pre.1, L::decode_out(pre.0, input)),
        )
    }

    open spec fn decode_rest(pre: (L::V, R::V), input: In::V) -> In::V {
        L::decode_rest(pre.0, input)
    }

    open spec fn decode_out(pre: (L::V, R::V), input: In::V) -> Seq<Out::V> {
        chain_out::<Mid, Out, R>(pre.1, L::decode_out(pre.0, input))
    }

    open spec fn encode_model(s: (L::V, R::V), v: Out::V) -> In::V {
        L::encode_model(s.0, R::encode_model(s.1, v))
    }

    open spec fn encodable(s: (L::V, R::V), v: Out::V) -> bool {
        R::encodable(s.1, v) && L::encodable(s.0, R::encode_model(s.1, v))
    }

    fn decode(&mut self, buf: &mut In) -> (r: Vec<Out>) {
        let ghost l0 = self.left@;
        let ghost r0 = self.right@;
        let ghost input = buf@;
        let mut mids = self.left.decode(buf);
        let ghost mids_v = seq_views(mids@);
        let mut out: Vec<Out> = Vec::new();
        let ghost mut i: int = 0;
        proof {
            assert(mids_v.take(0) =~= Seq::<Mid::V>::empty());
            assert(seq_views(out@) =~~= chain_out::<Mid, Out, R>(r0, mids_v.take(0)));
        }
        while mids.len() > 0
            invariant
                R::inv(self.right@),
                0 <= i <= mids_v.len(),
                mids_v.len() - i == mids@.len(),
                seq_views(mids@) =~= mids_v.skip(i),
                self.left@ == L::decode_post(l0, input),
                buf@ == L::decode_rest(l0, input),
                mids_v == L::decode_out(l0, input),
                self.right@ == chain_post::<Mid, Out, R>(r0, mids_v.take(i)),
                seq_views(out@) =~~= chain_out::<Mid, Out, R>(r0, mids_v.take(i)),
            decreases mids@.len(),
        {
            let ghost out_before = seq_views(out@);
            let ghost r_before = self.right@;
            let ghost pre = mids@;
            let mut m = mids.remove(0);
            proof {
                assert(seq_views(pre)[0] == pre[0]@);
                assert(m@ == mids_v.skip(i)[0]);
                assert(mids_v.skip(i)[0] == mids_v[i]);
                assert forall|j: int| 0 <= j < mids@.len() implies #[trigger] seq_views(mids@)[j]
                    == mids_v.skip(i + 1)[j] by {
                    assert(mids@[j] == pre[j + 1]);
                    assert(seq_views(pre)[j + 1] == pre[j + 1]@);
                }
                assert(seq_views(mids@) =~= mids_v.skip(i + 1));
            }
            let mut sub = self.right.decode(&mut m);
            proof {
                assert(seq_views(sub@) == R::decode_out(r_before, mids_v[i]));
            }
            out.append(&mut sub);
            proof {
                assert(seq_views(out@) =~~= out_before + R::decode_out(r_before, mids_v[i]));
                assert(mids_v.take(i + 1) =~= mids_v.take(i).push(mids_v[i]));
                lemma_chain_push::<Mid, Out, R>(r0, mids_v.take(i), mids_v[i]);
                i = i + 1;
            }
        }
        proof {
            assert(mids_v.take(i) =~= mids_v);
        }
        out
    }

    fn can_encode(&self, v: &Out) -> (r: bool) {
        if self.right.can_encode(v) {
            let mid = self.right.encode(v);
            self.left.can_encode(&mid)
        } else {
            false
        }
    }

    fn encode(&self, v: &Out) -> (r: In) {
        let mid = self.right.encode(v);
        self.left.encode(&mid)
    }
}

} // verus!
