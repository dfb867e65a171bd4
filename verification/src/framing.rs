//! The framing of what lies inside an element.
//!
//! A constructed element holds elements. They are walked from the front,
//! and into each constructed one among them, so that every length field
//! that the identifiers lead to is held to the rules of `tlv`, and the
//! elements of every SET to the octet order.
use vstd::prelude::*;
use vstd::slice::slice_subrange;
use crate::error::Error;
use crate::order::{lex_lt, lex_order, Relation};
use crate::tlv::{
    lemma_padded_length_refused, lemma_split_tlv, max_length, spec_padded_length_field, spec_split,
    spec_tlv, split, valid_tag,
};

verus! {

/// Whether the identifier `tag` marks an element that holds elements.
pub open spec fn constructed(tag: u8) -> bool {
    tag / 32 % 2 == 1
}

/// How many constructed elements, one inside the other, the walk follows.
pub open spec fn max_depth() -> nat {
    64
}

/// Walks the elements of `c`, which follow `prev` where there is one, and
/// for `depth` levels what lies inside the constructed ones. With `set`,
/// the elements of `c` are those of a SET and must ascend strictly; the
/// elements inside an element with the identifier `0x31` must do so in any
/// case. The first violation on the way decides: what `spec_split` refuses,
/// then the order, then what lies inside, then what follows. A constructed
/// element below the last level is refused as an invalid value.
pub open spec fn spec_framing(c: Seq<u8>, set: bool, prev: Option<Seq<u8>>, depth: nat) -> Result<
    (),
    Error,
>
    decreases c.len(),
{
    if c.len() == 0 {
        Ok(())
    } else {
        match spec_split(c) {
            Err(e) => Err(e),
            Ok((content, rest)) => {
                let elem = c.take(c.len() - rest.len());
                if set && prev is Some && !lex_lt(prev->Some_0, elem) {
                    Err(Error::NonCanonicalSetOrder)
                } else if !constructed(c[0]) {
                    spec_framing(rest, set, Some(elem), depth)
                } else if depth == 0 {
                    Err(Error::InvalidValue)
                } else {
                    match spec_framing(content, c[0] == 0x31, None, (depth - 1) as nat) {
                        Err(e) => Err(e),
                        Ok(_) => spec_framing(rest, set, Some(elem), depth),
                    }
                }
            },
        }
    }
}

/// Walks the elements of `c` and, for `depth` levels, what lies inside the
/// constructed ones.
pub fn check_framing(c: &[u8], set: bool, depth: usize) -> (r: Result<(), Error>)
    ensures
        r == spec_framing(c@, set, None, depth as nat),
    decreases depth,
{
    let mut at: usize = 0;
    let mut before: usize = 0;
    let ghost mut prev: Option<Seq<u8>> = None;
    assert(c@.skip(0) =~= c@);
    while at < c.len()
        invariant
            before <= at <= c@.len(),
            at > 0 <==> prev is Some,
            prev is Some ==> prev->Some_0 == c@.subrange(before as int, at as int),
            spec_framing(c@, set, None, depth as nat) == spec_framing(
                c@.skip(at as int),
                set,
                prev,
                depth as nat,
            ),
        decreases c@.len() - at,
    {
        let left = slice_subrange(c, at, c.len());
        assert(left@ =~= c@.skip(at as int));
        match split(left) {
            Err(e) => {
                return Err(e);
            },
            Ok((start, end)) => {
                let elem = slice_subrange(left, 0, end);
                proof {
                    assert(left@.skip(end as int).len() == left@.len() - end);
                    assert(elem@ =~= left@.take(left@.len() - left@.skip(end as int).len()));
                    assert(left@.skip(end as int) =~= c@.skip(at + end));
                    assert(elem@ =~= c@.subrange(at as int, at + end));
                }
                if set && at > 0 && lex_order(slice_subrange(c, before, at), elem)
                    != Relation::Before {
                    return Err(Error::NonCanonicalSetOrder);
                }
                let tag: u8 = left[0];
                if tag / 32 % 2 == 1 {
                    if depth == 0 {
                        return Err(Error::InvalidValue);
                    }
                    match check_framing(slice_subrange(left, start, end), tag == 0x31, depth - 1) {
                        Err(e) => {
                            return Err(e);
                        },
                        Ok(_) => {},
                    }
                }
                proof {
                    prev = Some(elem@);
                }
                before = at;
                at = at + end;
            },
        }
    }
    assert(c@.skip(at as int).len() == 0);
    Ok(())
}

/// An element whose length field is one octet longer than the shortest is
/// refused as malformed wherever the walk comes to it.
pub proof fn lemma_framing_padded_length(
    tag: u8,
    n: nat,
    rest: Seq<u8>,
    set: bool,
    prev: Option<Seq<u8>>,
    depth: nat,
)
    requires
        valid_tag(tag),
        n <= max_length(),
    ensures
        spec_framing(seq![tag] + spec_padded_length_field(n) + rest, set, prev, depth) == Err::<
            (),
            Error,
        >(Error::MalformedLength),
{
    lemma_padded_length_refused(tag, n, rest);
}

/// What the walk refuses inside a constructed element, it refuses of the
/// element, whatever follows it.
pub proof fn lemma_framing_inside(
    tag: u8,
    content: Seq<u8>,
    rest: Seq<u8>,
    set: bool,
    prev: Option<Seq<u8>>,
    depth: nat,
)
    requires
        valid_tag(tag),
        constructed(tag),
        content.len() <= max_length(),
        depth > 0,
        !set || prev is None || lex_lt(prev->Some_0, spec_tlv(tag, content)),
        spec_framing(content, tag == 0x31, None, (depth - 1) as nat) is Err,
    ensures
        spec_framing(spec_tlv(tag, content) + rest, set, prev, depth) == spec_framing(
            content,
            tag == 0x31,
            None,
            (depth - 1) as nat,
        ),
{
    lemma_split_tlv(tag, content, rest);
    let c = spec_tlv(tag, content) + rest;
    assert(c.take(c.len() - rest.len()) =~= spec_tlv(tag, content));
}

/// Behind an element that the walk takes, the walk goes on with what
/// follows.
pub proof fn lemma_framing_next(
    tag: u8,
    content: Seq<u8>,
    rest: Seq<u8>,
    set: bool,
    prev: Option<Seq<u8>>,
    depth: nat,
)
    requires
        valid_tag(tag),
        content.len() <= max_length(),
        !set || prev is None || lex_lt(prev->Some_0, spec_tlv(tag, content)),
        constructed(tag) ==> depth > 0 && spec_framing(
            content,
            tag == 0x31,
            None,
            (depth - 1) as nat,
        ) is Ok,
    ensures
        spec_framing(spec_tlv(tag, content) + rest, set, prev, depth) == spec_framing(
            rest,
            set,
            Some(spec_tlv(tag, content)),
            depth,
        ),
{
    lemma_split_tlv(tag, content, rest);
    let c = spec_tlv(tag, content) + rest;
    assert(c.take(c.len() - rest.len()) =~= spec_tlv(tag, content));
}

} // verus!
