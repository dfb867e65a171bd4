//! SET OF: elements placed in ascending octet order of their encodings.
//!
//! Encoding sorts the elements' encodings; decoding splits the content into
//! elements and refuses a neighbouring pair that does not ascend strictly,
//! before any element is looked into.
use vstd::prelude::*;
use vstd::relations::sorted_by;
use vstd::seq_lib::{lemma_sorted_unique, to_multiset_build, to_multiset_insert, to_multiset_remove};
use vstd::slice::slice_subrange;
use crate::codec::{lemma_open_canonical, lemma_open_tlv, open, spec_open, Codec};
use crate::error::Error;
use crate::order::{
    lemma_lex_transitive, lemma_lex_trichotomy, lemma_octet_order_total, lex_lt, lex_order,
    octet_order, Relation,
};
use crate::tlv::{
    append, encode_tlv, is_tlv, lemma_first_is_tlv, lemma_first_of_tlv, max_length, spec_first,
    spec_tlv, split,
};

verus! {

/// The octet strings that the vectors hold.
pub open spec fn views(v: Seq<Vec<u8>>) -> Seq<Seq<u8>> {
    v.map_values(|x: Vec<u8>| x@)
}

/// Whether every string of `ts` comes before the next one.
pub open spec fn ascending(ts: Seq<Seq<u8>>) -> bool {
    forall|i: int| 0 <= i < ts.len() - 1 ==> lex_lt(#[trigger] ts[i], ts[i + 1])
}

/// Whether every string of `ts` is exactly one element.
pub open spec fn all_tlv(ts: Seq<Seq<u8>>) -> bool {
    forall|i: int| 0 <= i < ts.len() ==> is_tlv(#[trigger] ts[i])
}

/// The strings of `ts` in ascending octet order.
pub open spec fn spec_sorted(ts: Seq<Seq<u8>>) -> Seq<Seq<u8>> {
    ts.sort_by(octet_order())
}

/// Splits the content of a SET OF into its elements, from the front. Each
/// element must come strictly after `prev`, where there is one, and after
/// the element before it.
pub open spec fn spec_elements(c: Seq<u8>, prev: Option<Seq<u8>>) -> Result<
    Seq<Seq<u8>>,
    Error,
>
    decreases c.len(),
{
    if c.len() == 0 {
        Ok(Seq::empty())
    } else {
        match spec_first(c) {
            Err(e) => Err(e),
            Ok((elem, rest)) => if prev is Some && !lex_lt(prev->Some_0, elem) {
                Err(Error::NonCanonicalSetOrder)
            } else {
                match spec_elements(rest, Some(elem)) {
                    Err(e) => Err(e),
                    Ok(tail) => Ok(seq![elem] + tail),
                }
            },
        }
    }
}

/// In an ascending sequence every string comes before every later one.
pub proof fn lemma_ascending_pair(ts: Seq<Seq<u8>>, i: int, j: int)
    requires
        ascending(ts),
        0 <= i < j < ts.len(),
    ensures
        lex_lt(ts[i], ts[j]),
    decreases j - i,
{
    if j > i + 1 {
        lemma_ascending_pair(ts, i, j - 1);
        assert(lex_lt(ts[j - 1], ts[j - 1 + 1]));
        lemma_lex_transitive(ts[i], ts[j - 1], ts[j]);
    }
}

/// An ascending sequence is sorted and holds no string twice.
pub proof fn lemma_ascending_sorted(ts: Seq<Seq<u8>>)
    requires
        ascending(ts),
    ensures
        sorted_by(ts, octet_order()),
        ts.no_duplicates(),
{
    let r = octet_order();
    assert forall|i: int, j: int| 0 <= i < j < ts.len() implies #[trigger] r(ts[i], ts[j]) by {
        lemma_ascending_pair(ts, i, j);
    }
    assert forall|i: int, j: int| 0 <= i < ts.len() && 0 <= j < ts.len() && i != j implies ts[i]
        != ts[j] by {
        if i < j {
            lemma_ascending_pair(ts, i, j);
            lemma_lex_trichotomy(ts[i], ts[j]);
        } else {
            lemma_ascending_pair(ts, j, i);
            lemma_lex_trichotomy(ts[j], ts[i]);
        }
    }
}

/// A sorted sequence that holds no string twice is ascending.
pub proof fn lemma_sorted_ascending(ts: Seq<Seq<u8>>)
    requires
        sorted_by(ts, octet_order()),
        ts.no_duplicates(),
    ensures
        ascending(ts),
{
    let r = octet_order();
    assert forall|i: int| 0 <= i < ts.len() - 1 implies lex_lt(#[trigger] ts[i], ts[i + 1]) by {
        assert(r(ts[i], ts[i + 1]));
    }
}

/// The sorted form of `ts` is sorted, holds the strings of `ts` as often as
/// `ts` does, and is `ts` itself where `ts` is sorted.
pub proof fn lemma_sorted(ts: Seq<Seq<u8>>)
    ensures
        sorted_by(spec_sorted(ts), octet_order()),
        spec_sorted(ts).to_multiset() == ts.to_multiset(),
        spec_sorted(ts).len() == ts.len(),
        sorted_by(ts, octet_order()) ==> spec_sorted(ts) == ts,
        ts.no_duplicates() <==> spec_sorted(ts).no_duplicates(),
{
    lemma_octet_order_total();
    ts.lemma_sort_by_ensures(octet_order());
    let sorted = spec_sorted(ts);
    assert(sorted.to_multiset() == ts.to_multiset());
    ts.to_multiset_ensures();
    sorted.to_multiset_ensures();
    if sorted_by(ts, octet_order()) {
        lemma_sorted_unique(sorted, ts, octet_order());
    }
    if ts.no_duplicates() {
        ts.lemma_multiset_has_no_duplicates();
        sorted.lemma_multiset_has_no_duplicates_conv();
    }
    if sorted.no_duplicates() {
        sorted.lemma_multiset_has_no_duplicates();
        ts.lemma_multiset_has_no_duplicates_conv();
    }
}

/// Ascending elements, put one behind the other, split into themselves.
pub proof fn lemma_elements_of_flatten(ts: Seq<Seq<u8>>, prev: Option<Seq<u8>>)
    requires
        all_tlv(ts),
        ascending(ts),
        prev is Some && ts.len() > 0 ==> lex_lt(prev->Some_0, ts[0]),
    ensures
        spec_elements(ts.flatten(), prev) == Ok::<Seq<Seq<u8>>, Error>(ts),
    decreases ts.len(),
{
    if ts.len() == 0 {
        assert(ts =~= Seq::empty());
    } else {
        let tail = ts.drop_first();
        let rest = tail.flatten();
        lemma_first_of_tlv(ts[0], rest);
        assert(ts.flatten() == ts[0] + rest);
        assert forall|i: int| 0 <= i < tail.len() - 1 implies lex_lt(
            #[trigger] tail[i],
            tail[i + 1],
        ) by {
            assert(lex_lt(ts[i + 1], ts[i + 1 + 1]));
        }
        if tail.len() > 0 {
            assert(lex_lt(ts[0int], ts[0int + 1]));
        }
        lemma_elements_of_flatten(tail, Some(ts[0]));
        assert(seq![ts[0]] + tail =~= ts);
    }
}

/// Content that splits is its elements put one behind the other, and they
/// ascend.
pub proof fn lemma_elements_canonical(c: Seq<u8>, prev: Option<Seq<u8>>)
    requires
        spec_elements(c, prev) is Ok,
    ensures
        ({
            let ts = spec_elements(c, prev)->Ok_0;
            &&& ts.flatten() == c
            &&& all_tlv(ts)
            &&& ascending(ts)
            &&& prev is Some && ts.len() > 0 ==> lex_lt(prev->Some_0, ts[0])
        }),
    decreases c.len(),
{
    let ts = spec_elements(c, prev)->Ok_0;
    if c.len() == 0 {
    } else {
        let (elem, rest) = spec_first(c)->Ok_0;
        lemma_first_is_tlv(c);
        lemma_elements_canonical(rest, Some(elem));
        let tail = spec_elements(rest, Some(elem))->Ok_0;
        assert(ts == seq![elem] + tail);
        assert(ts.drop_first() =~= tail);
        assert(ts.flatten() == ts[0] + tail.flatten());
        assert forall|i: int| 0 <= i < ts.len() - 1 implies lex_lt(#[trigger] ts[i], ts[i + 1]) by {
            if i > 0 {
                assert(lex_lt(tail[i - 1], tail[i - 1 + 1]));
            }
        }
    }
}

/// Elements that do not ascend, put one behind the other, are refused for
/// their order.
pub proof fn lemma_elements_out_of_order(ts: Seq<Seq<u8>>, prev: Option<Seq<u8>>)
    requires
        all_tlv(ts),
        !ascending(ts) || (prev is Some && ts.len() > 0 && !lex_lt(prev->Some_0, ts[0])),
    ensures
        spec_elements(ts.flatten(), prev) == Err::<Seq<Seq<u8>>, Error>(
            Error::NonCanonicalSetOrder,
        ),
    decreases ts.len(),
{
    if ts.len() == 0 {
    } else {
        let tail = ts.drop_first();
        let rest = tail.flatten();
        lemma_first_of_tlv(ts[0], rest);
        assert(ts.flatten() == ts[0] + rest);
        if prev is Some && !lex_lt(prev->Some_0, ts[0]) {
        } else {
            let i = choose|i: int| 0 <= i < ts.len() - 1 && !lex_lt(#[trigger] ts[i], ts[i + 1]);
            if i == 0 {
                assert(tail[0] == ts[1]);
            } else {
                assert(tail[i - 1] == ts[i]);
                assert(tail[i - 1 + 1] == ts[i + 1]);
            }
            lemma_elements_out_of_order(tail, Some(ts[0]));
        }
    }
}

/// Sorts octet strings into ascending order.
pub fn sort_elements(items: Vec<Vec<u8>>) -> (out: Vec<Vec<u8>>)
    ensures
        views(out@) == spec_sorted(views(items@)),
{
    let mut items = items;
    let ghost all = views(items@);
    let mut out: Vec<Vec<u8>> = Vec::new();
    proof {
        broadcast use vstd::multiset::group_multiset_axioms;

        assert(views(out@) =~= Seq::<Seq<u8>>::empty());
        views(out@).to_multiset_ensures();
        assert(views(out@).to_multiset() =~= vstd::multiset::Multiset::<Seq<u8>>::empty());
        assert(views(out@).to_multiset().add(views(items@).to_multiset()) =~= all.to_multiset());
    }
    while items.len() > 0
        invariant
            sorted_by(views(out@), octet_order()),
            views(out@).to_multiset().add(views(items@).to_multiset()) == all.to_multiset(),
        decreases items@.len(),
    {
        let ghost before = views(items@);
        let ghost placed = views(out@);
        let x = items.pop().unwrap();
        proof {
            assert(views(items@) =~= before.drop_last());
            assert(before =~= before.drop_last().push(x@));
            to_multiset_build(before.drop_last(), x@);
        }
        let mut p: usize = 0;
        while p < out.len() && lex_order(out[p].as_slice(), x.as_slice()) == Relation::Before
            invariant
                p <= out@.len(),
                forall|q: int| 0 <= q < p ==> lex_lt(#[trigger] views(out@)[q], x@),
            decreases out@.len() - p,
        {
            p += 1;
        }
        out.insert(p, x);
        proof {
            let now = views(out@);
            assert(now =~= placed.insert(p as int, x@));
            to_multiset_insert(placed, p as int, x@);
            assert(now.to_multiset().add(views(items@).to_multiset()) =~= all.to_multiset());
            let r = octet_order();
            assert forall|i: int, j: int| 0 <= i < j < now.len() implies #[trigger] r(
                now[i],
                now[j],
            ) by {
                if j < p {
                    assert(r(placed[i], placed[j]));
                } else if j == p {
                    assert(lex_lt(placed[i], x@));
                } else if i < p {
                    assert(r(placed[i], placed[j - 1]));
                } else if i == p {
                    lemma_lex_trichotomy(placed[p as int], x@);
                    if j - 1 > p {
                        assert(r(placed[p as int], placed[j - 1]));
                        if x@ != placed[p as int] && placed[p as int] != placed[j - 1] {
                            lemma_lex_transitive(x@, placed[p as int], placed[j - 1]);
                        }
                    }
                } else {
                    assert(r(placed[i - 1], placed[j - 1]));
                }
            }
        }
    }
    proof {
        broadcast use vstd::multiset::group_multiset_axioms;

        assert(views(items@) =~= Seq::<Seq<u8>>::empty());
        views(items@).to_multiset_ensures();
        assert(views(items@).to_multiset() =~= vstd::multiset::Multiset::<Seq<u8>>::empty());
        assert(views(out@).to_multiset() =~= all.to_multiset());
        lemma_octet_order_total();
        lemma_sorted(all);
        lemma_sorted_unique(views(out@), spec_sorted(all), octet_order());
    }
    out
}

/// Puts octet strings one behind the other.
pub fn join_elements(items: &Vec<Vec<u8>>) -> (out: Vec<u8>)
    ensures
        out@ == views(items@).flatten(),
{
    let mut out: Vec<u8> = Vec::new();
    let mut i: usize = 0;
    while i < items.len()
        invariant
            i <= items@.len(),
            out@ == views(items@).take(i as int).flatten(),
        decreases items@.len() - i,
    {
        proof {
            let ts = views(items@);
            assert(ts.take(i + 1) =~= ts.take(i as int).push(ts[i as int]));
            ts.take(i as int).lemma_flatten_push(ts[i as int]);
        }
        append(&mut out, items[i].as_slice());
        i += 1;
    }
    assert(views(items@).take(i as int) =~= views(items@));
    out
}

/// Splits the content of a SET OF into its elements and checks their
/// order.
pub fn split_elements(c: &[u8]) -> (r: Result<Vec<Vec<u8>>, Error>)
    ensures
        match r {
            Ok(elems) => spec_elements(c@, None) == Ok::<Seq<Seq<u8>>, Error>(views(elems@)),
            Err(e) => spec_elements(c@, None) == Err::<Seq<Seq<u8>>, Error>(e),
        },
{
    let mut elems: Vec<Vec<u8>> = Vec::new();
    let mut at: usize = 0;
    let ghost mut prev: Option<Seq<u8>> = None;
    proof {
        assert(c@.skip(0) =~= c@);
        assert(views(elems@) =~= Seq::<Seq<u8>>::empty());
    }
    while at < c.len()
        invariant
            at <= c@.len(),
            prev is Some <==> elems@.len() > 0,
            prev is Some ==> prev->Some_0 == elems@.last()@,
            match spec_elements(c@.skip(at as int), prev) {
                Ok(tail) => spec_elements(c@, None) == Ok::<Seq<Seq<u8>>, Error>(
                    views(elems@) + tail,
                ),
                Err(e) => spec_elements(c@, None) == Err::<Seq<Seq<u8>>, Error>(e),
            },
        decreases c@.len() - at,
    {
        let left = slice_subrange(c, at, c.len());
        assert(left@ =~= c@.skip(at as int));
        match split(left) {
            Err(e) => {
                return Err(e);
            },
            Ok((start, end)) => {
                let elem = slice_subrange(left, 0, end);
                proof {
                    assert(left@.skip(end as int).len() == left@.len() - end);
                    assert(elem@ =~= left@.take(left@.len() - left@.skip(end as int).len()));
                    assert(left@.skip(end as int) =~= c@.skip(at + end));
                }
                if elems.len() > 0 && lex_order(elems[elems.len() - 1].as_slice(), elem)
                    != Relation::Before {
                    return Err(Error::NonCanonicalSetOrder);
                }
                let mut copy: Vec<u8> = Vec::new();
                append(&mut copy, elem);
                proof {
                    let tail = spec_elements(c@.skip(at + end), Some(elem@));
                    if tail is Ok {
                        assert(views(elems@.push(copy)) + tail->Ok_0 =~= views(elems@) + (seq![
                            elem@,
                        ] + tail->Ok_0));
                    }
                    prev = Some(elem@);
                }
                elems.push(copy);
                at = at + end;
            },
        }
    }
    proof {
        assert(c@.skip(at as int).len() == 0);
        assert(views(elems@) + Seq::<Seq<u8>>::empty() =~= views(elems@));
    }
    Ok(elems)
}

/// A SET OF `T`: the elements in the order in which the holder put them.
///
/// The order in which the elements are held does not show in the encoding,
/// which places them by the octet order of their encodings. Decoding gives
/// them in that order.
#[derive(Clone, Debug, PartialEq, Eq)]
pub struct SetOf<T>(pub Vec<T>);

/// The views of the values `items`.
pub open spec fn seq_views<T: View>(items: Seq<T>) -> Seq<T::V> {
    items.map_values(|t: T| t@)
}

impl<T: View> View for SetOf<T> {
    type V = Seq<T::V>;

    open spec fn view(&self) -> Seq<T::V> {
        seq_views(self.0@)
    }
}

/// The encodings of the elements `vs`, in the order of `vs`.
pub open spec fn spec_encodings<T: Codec>(vs: Seq<T::V>) -> Seq<Seq<u8>> {
    vs.map_values(|v: T::V| T::spec_encode(v))
}

/// The content of the SET OF with the elements `vs`: their encodings in
/// ascending octet order, one behind the other.
pub open spec fn spec_set_content<T: Codec>(vs: Seq<T::V>) -> Seq<u8> {
    spec_sorted(spec_encodings::<T>(vs)).flatten()
}

/// Decodes each of `ts` as a `T`. The first that fails decides the error.
pub open spec fn spec_decode_all<T: Codec>(ts: Seq<Seq<u8>>) -> Result<Seq<T::V>, Error>
    decreases ts.len(),
{
    if ts.len() == 0 {
        Ok(Seq::empty())
    } else {
        match spec_decode_all::<T>(ts.drop_last()) {
            Err(e) => Err(e),
            Ok(init) => match T::spec_decode(ts.last()) {
                Err(e) => Err(e),
                Ok(v) => Ok(init.push(v)),
            },
        }
    }
}

/// Where all of `ts` decode, or `spec_decode_all` succeeds, the result holds
/// what each of them decodes to.
pub proof fn lemma_decode_all<T: Codec>(ts: Seq<Seq<u8>>)
    requires
        spec_decode_all::<T>(ts) is Ok || forall|i: int|
            0 <= i < ts.len() ==> T::spec_decode(#[trigger] ts[i]) is Ok,
    ensures
        spec_decode_all::<T>(ts) is Ok,
        spec_decode_all::<T>(ts)->Ok_0.len() == ts.len(),
        forall|i: int|
            0 <= i < ts.len() ==> T::spec_decode(#[trigger] ts[i]) == Ok::<T::V, Error>(
                spec_decode_all::<T>(ts)->Ok_0[i],
            ),
    decreases ts.len(),
{
    if ts.len() > 0 {
        let init = ts.drop_last();
        assert forall|i: int| 0 <= i < init.len() implies init[i] == ts[i] by {}
        if !(spec_decode_all::<T>(ts) is Ok) {
            assert forall|i: int| 0 <= i < init.len() implies T::spec_decode(
                #[trigger] init[i],
            ) is Ok by {
                assert(init[i] == ts[i]);
            }
            assert(T::spec_decode(ts[ts.len() - 1]) is Ok);
        }
        lemma_decode_all::<T>(init);
        assert(T::spec_decode(ts.last()) is Ok);
        let r = spec_decode_all::<T>(ts)->Ok_0;
        assert forall|i: int| 0 <= i < ts.len() implies T::spec_decode(#[trigger] ts[i]) == Ok::<
            T::V,
            Error,
        >(r[i]) by {
            if i < init.len() {
                assert(init[i] == ts[i]);
            }
        }
    }
}

/// An error among the first `k` strings is the error of the whole.
pub proof fn lemma_decode_all_error<T: Codec>(ts: Seq<Seq<u8>>, k: int)
    requires
        0 <= k <= ts.len(),
        spec_decode_all::<T>(ts.take(k)) is Err,
    ensures
        spec_decode_all::<T>(ts) == spec_decode_all::<T>(ts.take(k)),
    decreases ts.len() - k,
{
    if k < ts.len() {
        assert(ts.take(k + 1).drop_last() =~= ts.take(k));
        lemma_decode_all_error::<T>(ts, k + 1);
    } else {
        assert(ts.take(k) =~= ts);
    }
}

impl<T: Codec> Codec for SetOf<T> {
    open spec fn spec_tag(tag: u8) -> bool {
        tag == 0x31
    }

    open spec fn spec_valid(vs: Seq<T::V>) -> bool {
        &&& forall|i: int| 0 <= i < vs.len() ==> T::spec_valid(#[trigger] vs[i])
        &&& spec_encodings::<T>(vs).no_duplicates()
        &&& spec_set_content::<T>(vs).len() <= max_length()
    }

    open spec fn spec_canonical(vs: Seq<T::V>) -> bool {
        &&& forall|i: int| 0 <= i < vs.len() ==> T::spec_canonical(#[trigger] vs[i])
        &&& ascending(spec_encodings::<T>(vs))
    }

    open spec fn spec_encode(vs: Seq<T::V>) -> Seq<u8> {
        spec_tlv(0x31, spec_set_content::<T>(vs))
    }

    open spec fn spec_decode(s: Seq<u8>) -> Result<Seq<T::V>, Error> {
        match spec_open(s, 0x31) {
            Err(e) => Err(e),
            Ok(content) => match spec_elements(content, None) {
                Err(e) => Err(e),
                Ok(ts) => spec_decode_all::<T>(ts),
            },
        }
    }

    proof fn lemma_encode(vs: Seq<T::V>) {
        lemma_open_tlv(0x31, spec_set_content::<T>(vs));
    }

    proof fn lemma_roundtrip(vs: Seq<T::V>) {
        let encs = spec_encodings::<T>(vs);
        let sorted = spec_sorted(encs);
        let content = sorted.flatten();
        lemma_sorted(encs);
        lemma_open_tlv(0x31, content);
        encs.to_multiset_ensures();
        sorted.to_multiset_ensures();
        assert forall|i: int| 0 <= i < sorted.len() implies is_tlv(#[trigger] sorted[i])
            && T::spec_decode(sorted[i]) is Ok by {
            assert(sorted.contains(sorted[i]));
            assert(encs.to_multiset().count(sorted[i]) > 0);
            assert(encs.contains(sorted[i]));
            let k = choose|k: int| 0 <= k < encs.len() && encs[k] == sorted[i];
            T::lemma_encode(vs[k]);
            T::lemma_roundtrip(vs[k]);
        }
        lemma_sorted_ascending(sorted);
        lemma_elements_of_flatten(sorted, None);
        lemma_decode_all::<T>(sorted);
        if Self::spec_canonical(vs) {
            lemma_ascending_sorted(encs);
            let r = spec_decode_all::<T>(sorted)->Ok_0;
            assert forall|i: int| 0 <= i < vs.len() implies r[i] == vs[i] by {
                T::lemma_roundtrip(vs[i]);
                assert(sorted[i] == T::spec_encode(vs[i]));
            }
            assert(r =~= vs);
        }
    }

    proof fn lemma_canonical(s: Seq<u8>) {
        lemma_open_canonical(s, 0x31);
        let content = spec_open(s, 0x31)->Ok_0;
        let ts = spec_elements(content, None)->Ok_0;
        lemma_elements_canonical(content, None);
        lemma_decode_all::<T>(ts);
        let vs = spec_decode_all::<T>(ts)->Ok_0;
        let encs = spec_encodings::<T>(vs);
        assert forall|i: int| 0 <= i < vs.len() implies T::spec_valid(#[trigger] vs[i])
            && T::spec_canonical(vs[i]) && encs[i] == ts[i] by {
            T::lemma_canonical(ts[i]);
        }
        assert(encs =~= ts);
        lemma_ascending_sorted(ts);
        lemma_sorted(ts);
    }

    fn accepts_tag(tag: u8) -> (r: bool) {
        tag == 0x31
    }

    fn encode(&self) -> (r: Result<Vec<u8>, Error>) {
        let ghost vs = self@;
        let ghost all = spec_encodings::<T>(vs);
        let mut encs: Vec<Vec<u8>> = Vec::new();
        let mut i: usize = 0;
        while i < self.0.len()
            invariant
                i <= self.0@.len(),
                vs == self@,
                all == spec_encodings::<T>(vs),
                views(encs@) == all.take(i as int),
                forall|q: int| 0 <= q < i ==> T::spec_valid(#[trigger] vs[q]),
            decreases self.0@.len() - i,
        {
            match self.0[i].encode() {
                Err(e) => {
                    assert(!T::spec_valid(vs[i as int]));
                    return Err(e);
                },
                Ok(bytes) => {
                    proof {
                        assert(vs[i as int] == self.0@[i as int]@);
                        assert(all[i as int] == T::spec_encode(vs[i as int]));
                        assert(all.take(i + 1) =~= all.take(i as int).push(all[i as int]));
                        assert(views(encs@.push(bytes)) =~= views(encs@).push(bytes@));
                    }
                    encs.push(bytes);
                },
            }
            i += 1;
        }
        assert(all.take(i as int) =~= all);
        let sorted = sort_elements(encs);
        proof {
            lemma_sorted(all);
        }
        let mut j: usize = 1;
        while j < sorted.len()
            invariant
                1 <= j,
                all == spec_encodings::<T>(self@),
                views(sorted@) == spec_sorted(all),
                sorted_by(spec_sorted(all), octet_order()),
                forall|q: int| 0 <= q < j - 1 && q < sorted@.len() - 1 ==> lex_lt(
                    #[trigger] views(sorted@)[q],
                    views(sorted@)[q + 1],
                ),
            decreases sorted@.len() - j,
        {
            let ghost ts = views(sorted@);
            let rel = lex_order(sorted[j - 1].as_slice(), sorted[j].as_slice());
            if rel == Relation::Same {
                proof {
                    assert(ts[j - 1] == ts[j as int]);
                    assert(!ts.no_duplicates());
                    lemma_sorted(all);
                }
                return Err(Error::InvalidValue);
            }
            proof {
                let r = octet_order();
                assert(r(ts[j - 1], ts[j as int]));
            }
            j += 1;
        }
        proof {
            assert(ascending(views(sorted@)));
            lemma_ascending_sorted(views(sorted@));
        }
        let content = join_elements(&sorted);
        let out = encode_tlv(0x31, content.as_slice());
        Ok(out)
    }

    fn decode(s: &[u8]) -> (r: Result<Self, Error>) {
        let start = match open(s, 0x31) {
            Err(e) => {
                return Err(e);
            },
            Ok(start) => start,
        };
        let content = slice_subrange(s, start, s.len());
        assert(content@ =~= s@.skip(start as int));
        let elems = match split_elements(content) {
            Err(e) => {
                return Err(e);
            },
            Ok(elems) => elems,
        };
        let ghost ts = views(elems@);
        let mut items: Vec<T> = Vec::new();
        let mut i: usize = 0;
        proof {
            assert(ts.take(0) =~= Seq::<Seq<u8>>::empty());
            assert(seq_views(items@) =~= Seq::<T::V>::empty());
        }
        while i < elems.len()
            invariant
                i <= elems@.len(),
                ts == views(elems@),
                spec_open(s@, 0x31) == Ok::<Seq<u8>, Error>(content@),
                spec_elements(content@, None) == Ok::<Seq<Seq<u8>>, Error>(ts),
                spec_decode_all::<T>(ts.take(i as int)) == Ok::<Seq<T::V>, Error>(seq_views(items@)),
            decreases elems@.len() - i,
        {
            proof {
                assert(ts.take(i + 1).drop_last() =~= ts.take(i as int));
                assert(ts.take(i + 1).last() == elems@[i as int]@);
            }
            match T::decode(elems[i].as_slice()) {
                Err(e) => {
                    proof {
                        assert(spec_decode_all::<T>(ts.take(i + 1)) == Err::<Seq<T::V>, Error>(e));
                        lemma_decode_all_error::<T>(ts, i + 1);
                    }
                    return Err(e);
                },
                Ok(v) => {
                    assert(seq_views(items@.push(v)) =~= seq_views(items@).push(v@));
                    items.push(v);
                },
            }
            i += 1;
        }
        assert(ts.take(i as int) =~= ts);
        Ok(SetOf(items))
    }
}

/// Sequences that hold the same values equally often still do so after
/// `f` is applied to each value.
pub proof fn lemma_map_multiset<A, B>(a: Seq<A>, b: Seq<A>, f: spec_fn(A) -> B)
    requires
        a.to_multiset() == b.to_multiset(),
    ensures
        a.map_values(f).to_multiset() == b.map_values(f).to_multiset(),
    decreases a.len(),
{
    broadcast use vstd::multiset::group_multiset_axioms;

    a.to_multiset_ensures();
    b.to_multiset_ensures();
    if a.len() == 0 {
        assert(b.len() == 0);
        assert(a.map_values(f) =~= b.map_values(f));
    } else {
        let x = a.last();
        let a1 = a.drop_last();
        assert(a =~= a1.push(x));
        to_multiset_build(a1, x);
        assert(a.contains(x));
        assert(b.to_multiset().count(x) > 0);
        assert(b.contains(x));
        let j = choose|j: int| 0 <= j < b.len() && b[j] == x;
        let b1 = b.remove(j);
        to_multiset_remove(b, j);
        assert(a1.to_multiset() =~= b1.to_multiset());
        lemma_map_multiset(a1, b1, f);
        let ma = a.map_values(f);
        let mb = b.map_values(f);
        assert(ma =~= a1.map_values(f).push(f(x)));
        to_multiset_build(a1.map_values(f), f(x));
        assert(mb.remove(j) =~= b1.map_values(f));
        to_multiset_remove(mb, j);
        mb.to_multiset_ensures();
        assert(mb.contains(mb[j]));
        assert(mb.to_multiset() =~= mb.remove(j).to_multiset().insert(f(x)));
        assert(ma.to_multiset() =~= mb.to_multiset());
    }
}

/// The encoding of a valid SET OF decodes to what the encodings of its
/// elements, taken in ascending order, decode to.
pub proof fn lemma_set_decoded<T: Codec>(vs: Seq<T::V>)
    requires
        SetOf::<T>::spec_valid(vs),
    ensures
        SetOf::<T>::spec_decode(SetOf::<T>::spec_encode(vs)) is Ok,
        SetOf::<T>::spec_decode(SetOf::<T>::spec_encode(vs))->Ok_0.len() == vs.len(),
        forall|i: int|
            0 <= i < vs.len() ==> T::spec_decode(
                #[trigger] spec_sorted(spec_encodings::<T>(vs))[i],
            ) == Ok::<T::V, Error>(SetOf::<T>::spec_decode(SetOf::<T>::spec_encode(vs))->Ok_0[i]),
{
    let encs = spec_encodings::<T>(vs);
    let sorted = spec_sorted(encs);
    let content = sorted.flatten();
    lemma_sorted(encs);
    lemma_open_tlv(0x31, content);
    encs.to_multiset_ensures();
    sorted.to_multiset_ensures();
    assert forall|i: int| 0 <= i < sorted.len() implies is_tlv(#[trigger] sorted[i])
        && T::spec_decode(sorted[i]) is Ok by {
        assert(sorted.contains(sorted[i]));
        assert(encs.to_multiset().count(sorted[i]) > 0);
        assert(encs.contains(sorted[i]));
        let k = choose|k: int| 0 <= k < encs.len() && encs[k] == sorted[i];
        T::lemma_encode(vs[k]);
        T::lemma_roundtrip(vs[k]);
    }
    lemma_sorted_ascending(sorted);
    lemma_elements_of_flatten(sorted, None);
    lemma_decode_all::<T>(sorted);
}

/// The round trip of a SET OF, whatever the order in which it is held: the
/// encoding of a valid SET OF with canonical elements decodes to the same
/// elements, each as often as before.
pub proof fn lemma_set_round_trip<T: Codec>(vs: Seq<T::V>)
    requires
        SetOf::<T>::spec_valid(vs),
        forall|i: int| 0 <= i < vs.len() ==> T::spec_canonical(#[trigger] vs[i]),
    ensures
        SetOf::<T>::spec_decode(SetOf::<T>::spec_encode(vs)) is Ok,
        SetOf::<T>::spec_decode(SetOf::<T>::spec_encode(vs))->Ok_0.to_multiset()
            == vs.to_multiset(),
{
    let encs = spec_encodings::<T>(vs);
    let sorted = spec_sorted(encs);
    let ws = SetOf::<T>::spec_decode(SetOf::<T>::spec_encode(vs))->Ok_0;
    let f = |b: Seq<u8>| T::spec_decode(b)->Ok_0;
    lemma_set_decoded::<T>(vs);
    lemma_sorted(encs);
    assert(ws =~= sorted.map_values(f));
    assert forall|i: int| 0 <= i < vs.len() implies encs.map_values(f)[i] == vs[i] by {
        T::lemma_roundtrip(vs[i]);
    }
    assert(vs =~= encs.map_values(f));
    lemma_map_multiset(sorted, encs, f);
}

} // verus!
