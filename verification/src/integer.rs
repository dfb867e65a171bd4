//! INTEGER: two's complement, most significant octet first, in the fewest
//! octets.
use vstd::prelude::*;
use vstd::slice::slice_subrange;
use crate::codec::{lemma_open_canonical, lemma_open_tlv, open, spec_open, Codec};
use crate::error::Error;
use crate::tlv::{encode_tlv, lemma_pow256_values, pow256, spec_tlv};

verus! {

/// The content octets of the INTEGER `v`: one octet for -128 to 127, else
/// the octets of `v` divided by 256, rounded down, and then the octet that
/// the division left.
pub open spec fn signed_octets(v: int) -> Seq<u8>
    decreases (if v >= 0 { v } else { -v }),
{
    if -128 <= v < 128 {
        seq![(if v >= 0 { v } else { v + 256 }) as u8]
    } else {
        signed_octets(v / 256).push((v % 256) as u8)
    }
}

/// The number that `o` states in two's complement.
pub open spec fn signed_value(o: Seq<u8>) -> int
    decreases o.len(),
{
    if o.len() == 0 {
        0
    } else if o.len() == 1 {
        if o[0] < 128 {
            o[0] as int
        } else {
            o[0] - 256
        }
    } else {
        signed_value(o.drop_last()) * 256 + o.last()
    }
}

/// Whether `o` has no octet to spare: it is not empty, and its first nine
/// bits are not all equal.
pub open spec fn minimal(o: Seq<u8>) -> bool {
    &&& o.len() >= 1
    &&& o.len() >= 2 ==> !(o[0] == 0 && o[1] < 128) && !(o[0] == 255 && o[1] >= 128)
}

/// The octets of `v` state `v` and have no octet to spare.
pub proof fn lemma_signed_octets(v: int)
    ensures
        signed_octets(v).len() >= 1,
        signed_value(signed_octets(v)) == v,
        minimal(signed_octets(v)),
    decreases (if v >= 0 { v } else { -v }),
{
    if -128 <= v < 128 {
    } else {
        let q = v / 256;
        let r = (v % 256) as u8;
        lemma_signed_octets(q);
        let o = signed_octets(v);
        assert(o == signed_octets(q).push(r));
        assert(o.drop_last() =~= signed_octets(q));
        assert(o.last() == r);
        assert(o[0] == signed_octets(q)[0]);
        if signed_octets(q).len() >= 2 {
            assert(o[1] == signed_octets(q)[1]);
        } else {
            assert(o[1] == r);
            assert(-128 <= q < 128);
        }
    }
}

/// Two or more octets with none to spare state a number outside -128 to
/// 127.
pub proof fn lemma_signed_value_large(o: Seq<u8>)
    requires
        minimal(o),
        o.len() >= 2,
    ensures
        signed_value(o) < -128 || signed_value(o) >= 128,
    decreases o.len(),
{
    let init = o.drop_last();
    if o.len() == 2 {
        assert(init.len() == 1);
        assert(init[0] == o[0]);
        assert(o.last() == o[1]);
    } else {
        assert(init[0] == o[0]);
        assert(init[1] == o[1]);
        lemma_signed_value_large(init);
    }
}

/// Octets with none to spare are the octets of the number they state.
pub proof fn lemma_signed_octets_of_value(o: Seq<u8>)
    requires
        minimal(o),
    ensures
        signed_octets(signed_value(o)) == o,
    decreases o.len(),
{
    if o.len() == 1 {
        assert(signed_octets(signed_value(o)) =~= o);
    } else {
        let init = o.drop_last();
        let v = signed_value(o);
        lemma_signed_value_large(o);
        assert(init[0] == o[0]);
        if init.len() >= 2 {
            assert(init[1] == o[1]);
        }
        lemma_signed_octets_of_value(init);
        assert(v / 256 == signed_value(init));
        assert(v % 256 == o.last() as int);
        assert(signed_octets(v) =~= o);
    }
}

/// `k` octets state a number from -128 times 256 to the `k - 1` up to, but
/// not including, 128 times 256 to the `k - 1`.
pub proof fn lemma_signed_value_bound(o: Seq<u8>)
    requires
        o.len() >= 1,
    ensures
        -128 * pow256((o.len() - 1) as nat) <= signed_value(o) < 128 * pow256(
            (o.len() - 1) as nat,
        ),
    decreases o.len(),
{
    if o.len() == 1 {
        assert(pow256(0) == 1);
    } else {
        lemma_signed_value_bound(o.drop_last());
        let p = pow256((o.len() - 2) as nat);
        assert(pow256((o.len() - 1) as nat) == 256 * p);
    }
}

/// A number in the range of `k` octets has at most `k` octets.
pub proof fn lemma_signed_octets_len(v: int, k: nat)
    requires
        k >= 1,
        -128 * pow256((k - 1) as nat) <= v < 128 * pow256((k - 1) as nat),
    ensures
        signed_octets(v).len() <= k,
    decreases k,
{
    if -128 <= v < 128 {
    } else if k == 1 {
        assert(pow256(0) == 1);
    } else {
        let p = pow256((k - 2) as nat);
        assert(pow256((k - 1) as nat) == 256 * p);
        lemma_signed_octets_len(v / 256, (k - 1) as nat);
    }
}

/// An INTEGER of at most 64 bits.
#[derive(Clone, Copy, Debug, PartialEq, Eq, Structural)]
pub struct Integer {
    pub value: i64,
}

impl View for Integer {
    type V = int;

    open spec fn view(&self) -> int {
        self.value as int
    }
}

/// The content octets of the INTEGER `v`.
pub fn encode_integer(v: i64) -> (out: Vec<u8>)
    ensures
        out@ == signed_octets(v as int),
{
    let mut out: Vec<u8> = Vec::new();
    let mut left: i64 = v;
    assert(signed_octets(v as int) =~= signed_octets(left as int) + out@);
    while left < -128 || left >= 128
        invariant
            signed_octets(v as int) == signed_octets(left as int) + out@,
        decreases (if left >= 0 { left as int } else { -left }),
    {
        let q: i64;
        let r: u8;
        if left >= 0 {
            q = left / 256;
            r = (left % 256) as u8;
        } else {
            let p: i64 = -(left + 1);
            q = -1 - p / 256;
            r = (255 - p % 256) as u8;
        }
        proof {
            assert(q == left as int / 256);
            assert(r == left as int % 256);
            assert(signed_octets(left as int) == signed_octets(q as int).push(r));
            assert(signed_octets(q as int).push(r) + out@ =~= signed_octets(q as int)
                + out@.insert(0, r));
        }
        out.insert(0, r);
        left = q;
    }
    let first: u8 = if left >= 0 {
        left as u8
    } else {
        (left + 256) as u8
    };
    proof {
        assert(signed_octets(left as int) =~= seq![first]);
        assert(seq![first] + out@ =~= out@.insert(0, first));
    }
    out.insert(0, first);
    out
}

/// The INTEGER whose content octets are `c`, where `c` has one to eight
/// octets and none to spare.
pub fn decode_integer(c: &[u8]) -> (r: Result<i64, Error>)
    ensures
        match r {
            Ok(v) => minimal(c@) && c@.len() <= 8 && v == signed_value(c@),
            Err(e) => !(minimal(c@) && c@.len() <= 8) && e == Error::InvalidValue,
        },
{
    if c.len() == 0 || c.len() > 8 {
        return Err(Error::InvalidValue);
    }
    if c.len() >= 2 && ((c[0] == 0 && c[1] < 128) || (c[0] == 255 && c[1] >= 128)) {
        return Err(Error::InvalidValue);
    }
    let mut acc: i64 = if c[0] < 128 {
        c[0] as i64
    } else {
        c[0] as i64 - 256
    };
    let mut i: usize = 1;
    assert(c@.take(1) =~= seq![c@[0]]);
    assert(pow256(0) == 1);
    while i < c.len()
        invariant
            1 <= i <= c@.len() <= 8,
            acc == signed_value(c@.take(i as int)),
            -128 * pow256((i - 1) as nat) <= acc < 128 * pow256((i - 1) as nat),
        decreases c@.len() - i,
    {
        proof {
            lemma_pow256_values();
            assert(c@.take(i + 1).drop_last() =~= c@.take(i as int));
            assert(c@.take(i + 1).last() == c@[i as int]);
            assert(pow256(i as nat) == 256 * pow256((i - 1) as nat));
        }
        acc = acc * 256 + c[i] as i64;
        i += 1;
    }
    assert(c@.take(i as int) =~= c@);
    Ok(acc)
}

impl Codec for Integer {
    open spec fn spec_tag(tag: u8) -> bool {
        tag == 0x02
    }

    open spec fn spec_valid(v: int) -> bool {
        -0x8000_0000_0000_0000 <= v <= 0x7fff_ffff_ffff_ffff
    }

    open spec fn spec_canonical(v: int) -> bool {
        true
    }

    open spec fn spec_encode(v: int) -> Seq<u8> {
        spec_tlv(0x02, signed_octets(v))
    }

    open spec fn spec_decode(s: Seq<u8>) -> Result<int, Error> {
        match spec_open(s, 0x02) {
            Err(e) => Err(e),
            Ok(content) => if minimal(content) && content.len() <= 8 {
                Ok(signed_value(content))
            } else {
                Err(Error::InvalidValue)
            },
        }
    }

    proof fn lemma_encode(v: int) {
        lemma_pow256_values();
        lemma_signed_octets_len(v, 8);
        lemma_open_tlv(0x02, signed_octets(v));
    }

    proof fn lemma_roundtrip(v: int) {
        lemma_pow256_values();
        lemma_signed_octets_len(v, 8);
        lemma_signed_octets(v);
        lemma_open_tlv(0x02, signed_octets(v));
    }

    proof fn lemma_canonical(s: Seq<u8>) {
        lemma_open_canonical(s, 0x02);
        let content = spec_open(s, 0x02)->Ok_0;
        lemma_signed_octets_of_value(content);
        lemma_signed_value_bound(content);
        lemma_pow256_values();
        let k = content.len();
        assert(pow256((k - 1) as nat) <= pow256(7)) by {
            lemma_pow256_values();
        }
    }

    fn accepts_tag(tag: u8) -> (r: bool) {
        tag == 0x02
    }

    fn encode(&self) -> (r: Result<Vec<u8>, Error>) {
        let content = encode_integer(self.value);
        Ok(encode_tlv(0x02, content.as_slice()))
    }

    fn decode(s: &[u8]) -> (r: Result<Self, Error>) {
        match open(s, 0x02) {
            Err(e) => Err(e),
            Ok(start) => {
                let content = slice_subrange(s, start, s.len());
                assert(content@ =~= s@.skip(start as int));
                match decode_integer(content) {
                    Err(e) => Err(e),
                    Ok(value) => Ok(Integer { value }),
                }
            },
        }
    }
}

} // verus!
