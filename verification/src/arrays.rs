use vstd::prelude::*;
use vstd::bytes::*;

use crate::error::Error;
use crate::reader::Reader;
use crate::writer::Writer;
use crate::Bebop;

verus! {

/// The concatenated encodings of the elements of `v`, in order.
pub open spec fn wire_elems<T: Bebop>(v: Seq<T::V>) -> Seq<u8>
    decreases v.len(),
{
    if v.len() == 0 {
        Seq::empty()
    } else {
        T::wire(v[0]) + wire_elems::<T>(v.drop_first())
    }
}

/// Whether every element of `v` can be encoded.
pub open spec fn wire_elems_ok<T: Bebop>(v: Seq<T::V>) -> bool {
    forall|i: int| 0 <= i < v.len() ==> T::wire_ok(#[trigger] v[i])
}

/// The outcome of decoding `n` consecutive elements from the front of `s`.
pub open spec fn dec_elems<T: Bebop>(s: Seq<u8>, n: nat) -> Result<(Seq<T::V>, int), Error>
    decreases n,
{
    if n == 0 {
        Ok((Seq::empty(), 0))
    } else {
        match T::dec(s) {
            Err(e) => Err(e),
            Ok((v, c)) => match dec_elems::<T>(s.skip(c), (n - 1) as nat) {
                Err(e) => Err(e),
                Ok(p) => Ok((seq![v] + p.0, c + p.1)),
            },
        }
    }
}

/// Element decoding undoes element encoding, whatever follows the elements.
pub proof fn lemma_elems_wire_dec<T: Bebop>(v: Seq<T::V>, rest: Seq<u8>)
    requires
        wire_elems_ok::<T>(v),
    ensures
        dec_elems::<T>(wire_elems::<T>(v) + rest, v.len()) == Ok::<(Seq<T::V>, int), Error>(
            (v, wire_elems::<T>(v).len() as int),
        ),
    decreases v.len(),
{
    if v.len() == 0 {
        assert(wire_elems::<T>(v) + rest =~= rest);
        assert(v =~= Seq::<T::V>::empty());
    } else {
        let w0 = T::wire(v[0]);
        let wr = wire_elems::<T>(v.drop_first());
        T::lemma_wire_dec(v[0], wr + rest);
        assert(wire_elems::<T>(v) + rest =~= w0 + (wr + rest));
        assert((w0 + (wr + rest)).skip(w0.len() as int) =~= wr + rest);
        lemma_elems_wire_dec::<T>(v.drop_first(), rest);
        assert(seq![v[0]] + v.drop_first() =~= v);
    }
}

/// A successful element decode consumes between 0 and `s.len()` bytes.
pub proof fn lemma_dec_elems_bounds<T: Bebop>(s: Seq<u8>, n: nat)
    ensures
        dec_elems::<T>(s, n) matches Ok(p) ==> 0 <= p.1 <= s.len(),
    decreases n,
{
    if n > 0 {
        T::lemma_dec_bounds(s);
        let r = T::dec(s);
        if r is Ok {
            let c = r->Ok_0.1;
            lemma_dec_elems_bounds::<T>(s.skip(c), (n - 1) as nat);
        }
    }
}

/// Appending one element to a sequence appends its encoding to the wire.
pub proof fn lemma_wire_elems_snoc<T: Bebop>(v: Seq<T::V>, x: T::V)
    ensures
        wire_elems::<T>(v + seq![x]) == wire_elems::<T>(v) + T::wire(x),
    decreases v.len(),
{
    if v.len() == 0 {
        assert(v + seq![x] =~= seq![x]);
        assert((seq![x]).drop_first() =~= Seq::<T::V>::empty());
        assert((seq![x])[0] == x);
        assert(wire_elems::<T>(seq![x]) == T::wire(x) + wire_elems::<T>(Seq::<T::V>::empty()));
        assert(T::wire(x) + Seq::<u8>::empty() =~= T::wire(x));
        assert(wire_elems::<T>(v) + T::wire(x) =~= T::wire(x));
    } else {
        assert((v + seq![x]).drop_first() =~= v.drop_first() + seq![x]);
        lemma_wire_elems_snoc::<T>(v.drop_first(), x);
        assert((v + seq![x])[0] == v[0]);
        assert(T::wire(v[0]) + (wire_elems::<T>(v.drop_first()) + T::wire(x)) =~= (T::wire(v[0])
            + wire_elems::<T>(v.drop_first())) + T::wire(x));
    }
}

impl<T: Bebop> Bebop for Vec<T> {
    /// A `u32` element count followed by each element's encoding, in order.
    open spec fn wire(v: Seq<T::V>) -> Seq<u8> {
        spec_u32_to_le_bytes(v.len() as u32) + wire_elems::<T>(v)
    }

    open spec fn wire_ok(v: Seq<T::V>) -> bool {
        v.len() <= u32::MAX && wire_elems_ok::<T>(v)
    }

    open spec fn dec(s: Seq<u8>) -> Result<(Seq<T::V>, int), Error> {
        if s.len() < 4 {
            Err(Error::UnexpectedEnd)
        } else {
            match dec_elems::<T>(s.skip(4), spec_u32_from_le_bytes(s.take(4)) as nat) {
                Err(e) => Err(e),
                Ok(p) => Ok((p.0, 4 + p.1)),
            }
        }
    }

    proof fn lemma_wire_dec(v: Seq<T::V>, rest: Seq<u8>) {
        lemma_auto_spec_u32_to_from_le_bytes();
        let w = Self::wire(v) + rest;
        assert(w.take(4) =~= spec_u32_to_le_bytes(v.len() as u32));
        assert(w.skip(4) =~= wire_elems::<T>(v) + rest);
        lemma_elems_wire_dec::<T>(v, rest);
    }

    proof fn lemma_dec_bounds(s: Seq<u8>) {
        if s.len() >= 4 {
            lemma_dec_elems_bounds::<T>(s.skip(4), spec_u32_from_le_bytes(s.take(4)) as nat);
        }
    }

    fn read_from(reader: &mut Reader) -> (r: Result<Self, Error>) {
        let ghost s = reader@;
        let n: u32 = u32::read_from(reader)?;
        let ghost s4 = s.skip(4);
        let mut vec: Vec<T> = Vec::new();
        let mut i: u32 = 0;
        let ghost mut done: int = 0;
        proof {
            assert(s4.skip(0) =~= s4);
            let r0 = dec_elems::<T>(s4, n as nat);
            if r0 is Ok {
                assert(Seq::<T::V>::empty() + r0->Ok_0.0 =~= r0->Ok_0.0);
            }
            assert(vec.deep_view() =~= Seq::<T::V>::empty());
        }
        while i < n
            invariant
                0 <= i <= n,
                0 <= done <= s4.len(),
                s == old(reader)@,
                s4 == s.skip(4),
                s.len() >= 4,
                n == spec_u32_from_le_bytes(s.take(4)),
                reader@ == s4.skip(done),
                dec_elems::<T>(s4, n as nat) == (match dec_elems::<T>(
                    s4.skip(done),
                    (n - i) as nat,
                ) {
                    Err(e) => Err::<(Seq<T::V>, int), Error>(e),
                    Ok(p) => Ok::<(Seq<T::V>, int), Error>((vec.deep_view() + p.0, done + p.1)),
                }),
            decreases n - i,
        {
            let ghost cur = reader@;
            let ghost dv0 = vec.deep_view();
            match T::read_from(reader) {
                Err(e) => {
                    proof {
                        assert(dec_elems::<T>(cur, (n - i) as nat) == Err::<(Seq<T::V>, int), Error>(
                            e,
                        ));
                        assert(Self::dec(s) == Err::<(Seq<T::V>, int), Error>(e));
                    }
                    return Err(e);
                },
                Ok(x) => {
                    proof {
                        T::lemma_dec_bounds(cur);
                        let c = T::dec(cur)->Ok_0.1;
                        assert(s4.skip(done).skip(c) =~= s4.skip(done + c));
                        done = done + c;
                    }
                    vec.push(x);
                    proof {
                        assert(vec.deep_view() =~= dv0 + seq![x.deep_view()]);
                        let rr = dec_elems::<T>(s4.skip(done), (n - i - 1) as nat);
                        if rr is Ok {
                            assert(dv0 + (seq![x.deep_view()] + rr->Ok_0.0) =~= vec.deep_view()
                                + rr->Ok_0.0);
                        }
                    }
                    i = i + 1;
                },
            }
        }
        proof {
            assert(vec.deep_view() + Seq::<T::V>::empty() =~= vec.deep_view());
            assert(s.skip(4).skip(done) =~= s.skip(4 + done));
        }
        Ok(vec)
    }

    fn write_into(&self, writer: &mut Writer) {
        let ghost dv = self.deep_view();
        proof {
            assert(dv.len() == self@.len());
            assert(dv.take(0) =~= Seq::<T::V>::empty());
        }
        let n = self.len() as u32;
        u32::write_into(&n, writer);
        let ghost base = writer@;
        let mut i: usize = 0;
        while i < self.len()
            invariant
                0 <= i <= self@.len(),
                dv == self.deep_view(),
                Self::wire_ok(dv),
                writer@ == base + wire_elems::<T>(dv.take(i as int)),
            decreases self@.len() - i,
        {
            let ghost pre = dv.take(i as int);
            proof {
                assert(self@[i as int].deep_view() == dv[i as int]);
                assert(T::wire_ok(dv[i as int]));
            }
            T::write_into(&self[i], writer);
            proof {
                lemma_wire_elems_snoc::<T>(pre, dv[i as int]);
                assert(pre + seq![dv[i as int]] =~= dv.take(i as int + 1));
                assert((base + wire_elems::<T>(pre)) + T::wire(dv[i as int]) =~= base + (
                wire_elems::<T>(pre) + T::wire(dv[i as int])));
            }
            i = i + 1;
        }
        proof {
            assert(dv.take(self@.len() as int) =~= dv);
            assert((old(writer)@ + spec_u32_to_le_bytes(n)) + wire_elems::<T>(dv) =~= old(writer)@
                + Self::wire(dv));
        }
    }
}

} // verus!
