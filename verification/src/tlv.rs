//! Tag, length and value framing under the Distinguished Encoding Rules.
//!
//! An element is one identifier octet, a definite length field in its
//! shortest form and the content octets. Identifiers in the multi-octet form
//! and length fields of more than eight octets are outside this codec.
use vstd::prelude::*;
use crate::error::Error;

verus! {

/// The largest content length that a length field of this codec can state.
pub open spec fn max_length() -> nat {
    0xffff_ffff_ffff_ffff
}

/// Whether `tag` is a complete identifier: its low five bits are not all set.
pub open spec fn valid_tag(tag: u8) -> bool {
    tag % 32 != 31
}

/// 256 to the power `k`.
pub open spec fn pow256(k: nat) -> nat
    decreases k,
{
    if k == 0 {
        1
    } else {
        256 * pow256((k - 1) as nat)
    }
}

/// The number that `octets` states, most significant octet first.
pub open spec fn be_value(octets: Seq<u8>) -> nat
    decreases octets.len(),
{
    if octets.len() == 0 {
        0
    } else {
        be_value(octets.drop_last()) * 256 + octets.last() as nat
    }
}

/// The shortest octet string that states `n`, most significant octet first.
/// It is empty for zero.
pub open spec fn be_octets(n: nat) -> Seq<u8>
    decreases n,
{
    if n == 0 {
        Seq::empty()
    } else {
        be_octets(n / 256).push((n % 256) as u8)
    }
}

/// The length field for a content of `n` octets: one octet below 128, else
/// the count of the octets of `n` with the top bit set, then those octets.
pub open spec fn spec_length_field(n: nat) -> Seq<u8> {
    if n < 128 {
        seq![n as u8]
    } else {
        seq![(128 + be_octets(n).len()) as u8] + be_octets(n)
    }
}

/// The element with identifier `tag` and the given content.
pub open spec fn spec_tlv(tag: u8, content: Seq<u8>) -> Seq<u8> {
    seq![tag] + spec_length_field(content.len()) + content
}

/// Reads a length field at the start of `s`: the length it states and the
/// number of octets it takes.
pub open spec fn spec_parse_length(s: Seq<u8>) -> Result<(nat, nat), Error> {
    if s.len() == 0 {
        Err(Error::MalformedLength)
    } else if s[0] < 128 {
        Ok((s[0] as nat, 1))
    } else {
        let k = (s[0] - 128) as nat;
        if k == 0 || k > 8 || s.len() < 1 + k {
            Err(Error::MalformedLength)
        } else {
            let octets = s.subrange(1, 1 + k as int);
            if octets[0] == 0 || be_value(octets) < 128 {
                Err(Error::MalformedLength)
            } else {
                Ok((be_value(octets), 1 + k))
            }
        }
    }
}

/// Splits `s` after its first element: the element's content and what
/// follows the element.
pub open spec fn spec_split(s: Seq<u8>) -> Result<(Seq<u8>, Seq<u8>), Error> {
    if s.len() == 0 {
        Err(Error::MissingField)
    } else if !valid_tag(s[0]) {
        Err(Error::UnexpectedTag)
    } else {
        match spec_parse_length(s.skip(1)) {
            Err(e) => Err(e),
            Ok((n, k)) => if s.len() - 1 - k < n {
                Err(Error::MalformedLength)
            } else {
                Ok((s.subrange(1 + k as int, 1 + k + n as int), s.skip(1 + k + n as int)))
            },
        }
    }
}

/// Whether `t` is exactly one element.
pub open spec fn is_tlv(t: Seq<u8>) -> bool {
    spec_split(t) matches Ok((_, rest)) && rest.len() == 0
}

/// The content of the element `t`.
pub open spec fn tlv_content(t: Seq<u8>) -> Seq<u8> {
    match spec_split(t) {
        Ok((content, _)) => content,
        Err(_) => Seq::empty(),
    }
}

/// Splits `s` after its first element: the whole element and what follows.
pub open spec fn spec_first(s: Seq<u8>) -> Result<(Seq<u8>, Seq<u8>), Error> {
    match spec_split(s) {
        Err(e) => Err(e),
        Ok((_, rest)) => Ok((s.take(s.len() - rest.len()), rest)),
    }
}

/// The powers of 256 up to the eighth.
pub proof fn lemma_pow256_values()
    ensures
        pow256(0) == 1,
        pow256(1) == 0x100,
        pow256(2) == 0x1_0000,
        pow256(3) == 0x100_0000,
        pow256(4) == 0x1_0000_0000,
        pow256(5) == 0x100_0000_0000,
        pow256(6) == 0x1_0000_0000_0000,
        pow256(7) == 0x100_0000_0000_0000,
        pow256(8) == 0x1_0000_0000_0000_0000,
{
    reveal_with_fuel(pow256, 10);
}

/// `be_value` of `k` octets is below 256 to the `k`.
pub proof fn lemma_be_value_bound(octets: Seq<u8>)
    ensures
        be_value(octets) < pow256(octets.len()),
    decreases octets.len(),
{
    if octets.len() > 0 {
        lemma_be_value_bound(octets.drop_last());
    }
}

/// With a leading octet other than zero, `be_value` reaches 256 to the
/// `k - 1`; so it is positive.
pub proof fn lemma_be_value_lower(octets: Seq<u8>)
    requires
        octets.len() > 0,
        octets[0] != 0,
    ensures
        be_value(octets) >= pow256((octets.len() - 1) as nat),
    decreases octets.len(),
{
    if octets.len() == 1 {
        assert(octets.drop_last().len() == 0);
        assert(be_value(octets.drop_last()) == 0);
    } else {
        lemma_be_value_lower(octets.drop_last());
    }
}

/// The octets of `n` state `n`, start with a non-zero octet, and number at
/// most `k` where `n` is below 256 to the `k`.
pub proof fn lemma_be_octets(n: nat)
    ensures
        be_value(be_octets(n)) == n,
        n > 0 ==> be_octets(n).len() > 0 && be_octets(n)[0] != 0,
        n == 0 ==> be_octets(n).len() == 0,
        forall|k: nat| n < pow256(k) ==> be_octets(n).len() <= k,
    decreases n,
{
    if n > 0 {
        let hi = n / 256;
        lemma_be_octets(hi);
        let o = be_octets(n);
        assert(o.drop_last() =~= be_octets(hi));
        assert(o.last() == (n % 256) as u8);
        if hi > 0 {
            assert(o[0] == be_octets(hi)[0]);
        }
        assert forall|k: nat| n < pow256(k) implies be_octets(n).len() <= k by {
            if k == 0 {
            } else {
                assert(hi < pow256((k - 1) as nat));
            }
        }
    }
}

/// Octets that start with a non-zero octet are the octets of their value.
pub proof fn lemma_be_octets_of_value(octets: Seq<u8>)
    requires
        octets.len() > 0 ==> octets[0] != 0,
    ensures
        be_octets(be_value(octets)) == octets,
    decreases octets.len(),
{
    if octets.len() == 0 {
        assert(be_octets(0) =~= octets);
    } else {
        let init = octets.drop_last();
        let v = be_value(octets);
        lemma_be_value_lower(octets);
        assert(pow256((octets.len() - 1) as nat) >= 1) by {
            lemma_pow256_positive((octets.len() - 1) as nat);
        }
        assert(v / 256 == be_value(init));
        assert(v % 256 == octets.last() as nat);
        if init.len() > 0 {
            assert(init[0] == octets[0]);
        }
        lemma_be_octets_of_value(init);
        assert(be_octets(v) =~= octets);
    }
}

/// A power of 256 is at least 1.
pub proof fn lemma_pow256_positive(k: nat)
    ensures
        pow256(k) >= 1,
    decreases k,
{
    if k > 0 {
        lemma_pow256_positive((k - 1) as nat);
    }
}

/// A length field is one to nine octets long and, read back, gives the
/// length it was made for.
pub proof fn lemma_length_roundtrip(n: nat, rest: Seq<u8>)
    requires
        n <= max_length(),
    ensures
        1 <= spec_length_field(n).len() <= 9,
        spec_parse_length(spec_length_field(n) + rest) == Ok::<(nat, nat), Error>(
            (n, spec_length_field(n).len()),
        ),
{
    let f = spec_length_field(n);
    let s = f + rest;
    if n < 128 {
        assert(s[0] == n as u8);
    } else {
        lemma_be_octets(n);
        lemma_pow256_values();
        let o = be_octets(n);
        assert(o.len() <= 8);
        assert(s[0] == (128 + o.len()) as u8);
        assert(s.subrange(1, 1 + o.len() as int) =~= o);
    }
}

/// What a length field reads as determines its octets.
pub proof fn lemma_length_canonical(s: Seq<u8>)
    requires
        spec_parse_length(s) is Ok,
    ensures
        ({
            let (n, k) = spec_parse_length(s)->Ok_0;
            &&& 1 <= k <= 9
            &&& k <= s.len()
            &&& n <= max_length()
            &&& s.take(k as int) == spec_length_field(n)
        }),
{
    let (n, k) = spec_parse_length(s)->Ok_0;
    if s[0] < 128 {
        assert(s.take(1) =~= seq![s[0]]);
    } else {
        let o = s.subrange(1, k as int);
        lemma_be_value_bound(o);
        lemma_pow256_values();
        lemma_be_octets_of_value(o);
        assert(s.take(k as int) =~= seq![s[0]] + o);
    }
}

/// An element followed by anything splits into its content and what follows.
pub proof fn lemma_split_tlv(tag: u8, content: Seq<u8>, rest: Seq<u8>)
    requires
        valid_tag(tag),
        content.len() <= max_length(),
    ensures
        spec_split(spec_tlv(tag, content) + rest) == Ok::<(Seq<u8>, Seq<u8>), Error>(
            (content, rest),
        ),
        spec_first(spec_tlv(tag, content) + rest) == Ok::<(Seq<u8>, Seq<u8>), Error>(
            (spec_tlv(tag, content), rest),
        ),
        (spec_tlv(tag, content) + rest)[0] == tag,
        spec_tlv(tag, content).len() >= 2,
{
    let f = spec_length_field(content.len());
    let t = spec_tlv(tag, content);
    let s = t + rest;
    lemma_length_roundtrip(content.len(), content + rest);
    assert(s.skip(1) =~= f + (content + rest));
    let k = f.len() as int;
    let n = content.len() as int;
    assert(s.subrange(1 + k, 1 + k + n) =~= content);
    assert(s.skip(1 + k + n) =~= rest);
    assert(s.take(s.len() - rest.len()) =~= t);
}

/// Input that splits is its first element, in the one form that the
/// element's identifier and content have, followed by the rest.
pub proof fn lemma_split_canonical(s: Seq<u8>)
    requires
        spec_split(s) is Ok,
    ensures
        ({
            let (content, rest) = spec_split(s)->Ok_0;
            &&& s.len() >= 2
            &&& valid_tag(s[0])
            &&& content.len() <= max_length()
            &&& s == spec_tlv(s[0], content) + rest
            &&& spec_first(s) == Ok::<(Seq<u8>, Seq<u8>), Error>((spec_tlv(s[0], content), rest))
        }),
{
    let (content, rest) = spec_split(s)->Ok_0;
    let (n, k) = spec_parse_length(s.skip(1))->Ok_0;
    lemma_length_canonical(s.skip(1));
    assert(s.skip(1).take(k as int) =~= s.subrange(1, 1 + k as int));
    assert(s =~= seq![s[0]] + s.subrange(1, 1 + k as int) + content + rest);
    assert(s =~= spec_tlv(s[0], content) + rest);
    assert(s.take(s.len() - rest.len()) =~= spec_tlv(s[0], content));
}

/// One element followed by anything splits into that element and what
/// follows.
pub proof fn lemma_first_of_tlv(t: Seq<u8>, rest: Seq<u8>)
    requires
        is_tlv(t),
    ensures
        spec_first(t + rest) == Ok::<(Seq<u8>, Seq<u8>), Error>((t, rest)),
        t.len() >= 2,
        (t + rest)[0] == t[0],
{
    lemma_split_canonical(t);
    let (content, r) = spec_split(t)->Ok_0;
    assert(t =~= spec_tlv(t[0], content));
    lemma_split_tlv(t[0], content, rest);
}

/// What is split off the front of an input is one element, and shorter
/// than the input by what is left.
pub proof fn lemma_first_is_tlv(s: Seq<u8>)
    requires
        spec_first(s) is Ok,
    ensures
        is_tlv(spec_first(s)->Ok_0.0),
        s == spec_first(s)->Ok_0.0 + spec_first(s)->Ok_0.1,
        spec_first(s)->Ok_0.0.len() >= 2,
        spec_first(s)->Ok_0.0[0] == s[0],
{
    lemma_split_canonical(s);
    let (content, rest) = spec_split(s)->Ok_0;
    lemma_split_tlv(s[0], content, Seq::empty());
    assert(spec_tlv(s[0], content) + Seq::<u8>::empty() =~= spec_tlv(s[0], content));
}

/// The length field of `n` with one octet more than it needs: the long form
/// for a length below 128, a leading zero octet for the others.
pub open spec fn spec_padded_length_field(n: nat) -> Seq<u8> {
    if n < 128 {
        seq![129u8, n as u8]
    } else {
        seq![(129 + be_octets(n).len()) as u8, 0u8] + be_octets(n)
    }
}

/// A length field that is one octet longer than the shortest is refused,
/// whatever stands behind it.
pub proof fn lemma_padded_length_refused(tag: u8, n: nat, rest: Seq<u8>)
    requires
        valid_tag(tag),
        n <= max_length(),
    ensures
        spec_split(seq![tag] + spec_padded_length_field(n) + rest) == Err::<
            (Seq<u8>, Seq<u8>),
            Error,
        >(Error::MalformedLength),
{
    let f = spec_padded_length_field(n);
    let s = seq![tag] + f + rest;
    let t = s.skip(1);
    assert(t =~= f + rest);
    if n < 128 {
        assert(t[0] == 129u8);
        let o = t.subrange(1, 2);
        assert(o =~= seq![n as u8]);
        assert(o.drop_last() =~= Seq::<u8>::empty());
        assert(be_value(o.drop_last()) == 0);
        assert(be_value(o) == n);
    } else {
        lemma_be_octets(n);
        lemma_pow256_values();
        let k = be_octets(n).len() + 1;
        assert(t[0] == (128 + k) as u8);
        if k <= 8 && t.len() >= 1 + k {
            assert(t.subrange(1, 1 + k as int)[0] == 0u8);
        }
    }
}

/// The indefinite form of the length field is refused.
pub proof fn lemma_indefinite_length_refused(tag: u8, rest: Seq<u8>)
    requires
        valid_tag(tag),
    ensures
        spec_split(seq![tag, 128u8] + rest) == Err::<(Seq<u8>, Seq<u8>), Error>(
            Error::MalformedLength,
        ),
{
    let s = seq![tag, 128u8] + rest;
    assert(s.skip(1)[0] == 128u8);
}

/// An element cut short anywhere behind its identifier is refused: the
/// length field is incomplete, or it states more than is left.
pub proof fn lemma_truncated_refused(tag: u8, content: Seq<u8>, j: int)
    requires
        valid_tag(tag),
        content.len() <= max_length(),
        1 <= j < spec_tlv(tag, content).len(),
    ensures
        spec_split(spec_tlv(tag, content).take(j)) == Err::<(Seq<u8>, Seq<u8>), Error>(
            Error::MalformedLength,
        ),
{
    let f = spec_length_field(content.len());
    let t = spec_tlv(tag, content);
    let s = t.take(j);
    let u = s.skip(1);
    lemma_length_roundtrip(content.len(), content);
    let whole = f + content;
    assert(t.skip(1) =~= whole);
    assert(u =~= whole.take(j - 1));
    if j - 1 >= f.len() {
        let part = content.take(j - 1 - f.len());
        assert(u =~= f + part);
        lemma_length_roundtrip(content.len(), part);
    } else if j - 1 > 0 {
        assert(u[0] == whole[0]);
        assert(whole[0] == f[0]);
        if content.len() >= 128 {
            lemma_be_octets(content.len());
            lemma_pow256_values();
        }
    }
}

/// Appends `s` to `out`.
pub fn append(out: &mut Vec<u8>, s: &[u8])
    ensures
        final(out)@ == old(out)@ + s@,
{
    let mut i: usize = 0;
    while i < s.len()
        invariant
            i <= s@.len(),
            out@ == old(out)@ + s@.take(i as int),
        decreases s@.len() - i,
    {
        out.push(s[i]);
        i += 1;
        assert(s@.take(i as int) =~= s@.take(i - 1).push(s@[i - 1]));
    }
    assert(s@.take(i as int) =~= s@);
}

/// The length field for a content of `n` octets.
pub fn encode_length(n: usize) -> (out: Vec<u8>)
    ensures
        out@ == spec_length_field(n as nat),
{
    let mut out: Vec<u8> = Vec::new();
    if n < 128 {
        out.push(n as u8);
        assert(out@ =~= spec_length_field(n as nat));
        return out;
    }
    let mut octets: Vec<u8> = Vec::new();
    let mut left: usize = n;
    proof {
        lemma_pow256_values();
    }
    while left > 0
        invariant
            be_octets(n as nat) == be_octets(left as nat) + octets@,
            left < pow256((8 - octets@.len()) as nat),
            octets@.len() <= 8,
        decreases left,
    {
        proof {
            lemma_pow256_values();
            assert(be_octets(left as nat) == be_octets(left as nat / 256).push(
                (left as nat % 256) as u8,
            ));
            assert(be_octets(left as nat / 256).push((left as nat % 256) as u8) + octets@
                =~= be_octets(left as nat / 256) + octets@.insert(0, (left as nat % 256) as u8));
            if octets@.len() == 8 {
                assert(pow256(0) == 1);
            }
        }
        octets.insert(0, (left % 256) as u8);
        left = left / 256;
    }
    proof {
        lemma_pow256_values();
        assert(be_octets(n as nat) =~= octets@);
    }
    out.push((128 + octets.len()) as u8);
    append(&mut out, octets.as_slice());
    out
}

/// The element with identifier `tag` and the given content. No slice is
/// longer than a length field can state.
pub fn encode_tlv(tag: u8, content: &[u8]) -> (out: Vec<u8>)
    ensures
        out@ == spec_tlv(tag, content@),
        content@.len() <= max_length(),
{
    let mut out: Vec<u8> = Vec::new();
    out.push(tag);
    let field = encode_length(content.len());
    append(&mut out, field.as_slice());
    append(&mut out, content);
    assert(out@ =~= spec_tlv(tag, content@));
    out
}

/// Finds the first element of `s`: where its content starts and where it
/// ends. The element's identifier is `s[0]`; what follows the element starts
/// at the second index.
pub fn split(s: &[u8]) -> (r: Result<(usize, usize), Error>)
    ensures
        match r {
            Ok((start, end)) => 2 <= start <= end <= s@.len() && spec_split(s@) == Ok::<
                (Seq<u8>, Seq<u8>),
                Error,
            >((s@.subrange(start as int, end as int), s@.skip(end as int))),
            Err(e) => spec_split(s@) == Err::<(Seq<u8>, Seq<u8>), Error>(e),
        },
{
    if s.len() == 0 {
        return Err(Error::MissingField);
    }
    if s[0] % 32 == 31 {
        return Err(Error::UnexpectedTag);
    }
    let ghost t = s@.skip(1);
    if s.len() < 2 {
        return Err(Error::MalformedLength);
    }
    let first: u8 = s[1];
    assert(t[0] == first);
    if first < 128 {
        let n: usize = first as usize;
        if s.len() - 2 < n {
            return Err(Error::MalformedLength);
        }
        return Ok((2, 2 + n));
    }
    let k: usize = (first - 128) as usize;
    if k == 0 || k > 8 || s.len() - 2 < k {
        return Err(Error::MalformedLength);
    }
    let ghost octets = t.subrange(1, 1 + k as int);
    assert(octets =~= s@.subrange(2, 2 + k as int));
    if s[2] == 0 {
        return Err(Error::MalformedLength);
    }
    let mut acc: u64 = 0;
    let mut i: usize = 0;
    while i < k
        invariant
            i <= k <= 8,
            2 + k <= s@.len(),
            acc == be_value(s@.subrange(2, 2 + i as int)),
            acc < pow256(i as nat),
        decreases k - i,
    {
        proof {
            lemma_pow256_values();
            assert(s@.subrange(2, 2 + i + 1).drop_last() =~= s@.subrange(2, 2 + i as int));
        }
        acc = acc * 256 + s[2 + i] as u64;
        i += 1;
    }
    if acc < 128 {
        return Err(Error::MalformedLength);
    }
    let left: usize = s.len() - 2 - k;
    if acc > left as u64 {
        return Err(Error::MalformedLength);
    }
    let n: usize = acc as usize;
    Ok((2 + k, 2 + k + n))
}

} // verus!
