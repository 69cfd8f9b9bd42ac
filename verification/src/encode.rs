//! The host-to-canonical encoder.
//!
//! Classification is first-match-wins over the host shapes; sequences and
//! mappings are converted recursively in order, and the first inner error
//! aborts the whole conversion (fail-fast, no partial result).

use vstd::prelude::*;

use crate::errors::Error;
use crate::host::{host_pair_views, host_views, lemma_host_pair_views, lemma_host_views};
use crate::host::{HostValue, HostView};
use crate::value::{canonical_views, object_views};
use crate::value::{CanonicalValue, CanonicalView, Number};

verus! {

/// Whether an IEEE 754 double-precision bit pattern denotes a finite value:
/// finite exactly when the exponent field is not all ones.
pub open spec fn float_bits_finite(bits: u64) -> bool {
    ((bits >> 52) & 0x7ff) != 0x7ff
}

/// What encoding one host value yields: the canonical value, or the first
/// error met while walking the value.
pub open spec fn enc_res(h: HostView) -> Result<CanonicalView, Error>
    decreases h,
{
    match h {
        HostView::Null => Ok(CanonicalView::Null),
        HostView::Bool(b) => Ok(CanonicalView::Bool(b)),
        HostView::SignedInt(i) => Ok(CanonicalView::Number(Number::SignedInt(i))),
        HostView::UnsignedInt(u) => Ok(CanonicalView::Number(Number::UnsignedInt(u))),
        HostView::FloatBits(bits) => if float_bits_finite(bits) {
            Ok(CanonicalView::Number(Number::FloatBits(bits)))
        } else {
            Err(Error::NonFiniteFloat)
        },
        HostView::Str(s) => Ok(CanonicalView::Str(s)),
        HostView::List(items) => match enc_items(items) {
            Ok(cs) => Ok(CanonicalView::Array(cs)),
            Err(e) => Err(e),
        },
        HostView::Tuple(items) => match enc_items(items) {
            Ok(cs) => Ok(CanonicalView::Array(cs)),
            Err(e) => Err(e),
        },
        HostView::Dict(pairs) => match enc_entries(pairs, Error::NonStringKey) {
            Ok(es) => Ok(CanonicalView::Object(es)),
            Err(e) => Err(e),
        },
        HostView::Sentinel => Err(Error::UnsupportedType),
    }
}

/// What encoding a sequence of host values yields: the canonical elements in
/// order, or the error of the first element that does not encode.
pub open spec fn enc_items(items: Seq<HostView>) -> Result<Seq<CanonicalView>, Error>
    decreases items,
{
    if items.len() == 0 {
        Ok(Seq::empty())
    } else {
        match enc_items(items.drop_last()) {
            Err(e) => Err(e),
            Ok(cs) => match enc_res(items.last()) {
                Err(e) => Err(e),
                Ok(c) => Ok(cs.push(c)),
            },
        }
    }
}

/// Whether one mapping entry encodes: its key is a string and its value
/// encodes.
pub open spec fn entry_ok(p: (HostView, HostView)) -> bool {
    p.0 is Str && enc_res(p.1) is Ok
}

/// The error of one failing mapping entry: a non-string key is reported,
/// as `key_err`, before the entry's value is considered.
pub open spec fn entry_err(p: (HostView, HostView), key_err: Error) -> Error {
    if !(p.0 is Str) {
        key_err
    } else {
        enc_res(p.1)->Err_0
    }
}

/// What encoding a sequence of mapping entries yields: string keys with the
/// encoded values in entry order, or the error of the first failing entry.
/// A non-string key is reported as `key_err`: mapping values and the
/// bindings of an evaluation carry different descriptions for it.
pub open spec fn enc_entries(pairs: Seq<(HostView, HostView)>, key_err: Error) -> Result<
    Seq<(Seq<char>, CanonicalView)>,
    Error,
>
    decreases pairs,
{
    if pairs.len() == 0 {
        Ok(Seq::empty())
    } else {
        match enc_entries(pairs.drop_last(), key_err) {
            Err(e) => Err(e),
            Ok(es) => match pairs.last().0 {
                HostView::Str(k) => match enc_res(pairs.last().1) {
                    Err(e) => Err(e),
                    Ok(c) => Ok(es.push((k, c))),
                },
                _ => Err(key_err),
            },
        }
    }
}

/// `enc_items` succeeds exactly when every element encodes, and then carries
/// the elements' encodings in order.
pub proof fn lemma_enc_items(items: Seq<HostView>)
    ensures
        enc_items(items) is Ok <==> (forall|i: int|
            0 <= i < items.len() ==> (#[trigger] enc_res(items[i])) is Ok),
        enc_items(items) is Ok ==> enc_items(items)->Ok_0.len() == items.len(),
        enc_items(items) is Ok ==> (forall|i: int|
            0 <= i < items.len() ==> enc_items(items)->Ok_0[i] == (#[trigger] enc_res(
                items[i],
            ))->Ok_0),
    decreases items.len(),
{
    if items.len() == 0 {
        assert(enc_items(items) == Ok::<Seq<CanonicalView>, Error>(Seq::empty()));
    } else {
        let pre = items.drop_last();
        lemma_enc_items(pre);
        assert(forall|i: int| 0 <= i < pre.len() ==> pre[i] == #[trigger] items[i]);
        if enc_items(pre) is Err {
            assert(enc_items(items) == enc_items(pre));
            let w = choose|i: int| 0 <= i < pre.len() && !((#[trigger] enc_res(pre[i])) is Ok);
            assert(!(enc_res(items[w]) is Ok));
        } else {
            let cs = enc_items(pre)->Ok_0;
            if enc_res(items.last()) is Err {
                assert(enc_items(items) == Err::<Seq<CanonicalView>, Error>(
                    enc_res(items.last())->Err_0,
                ));
                assert(!(enc_res(items[items.len() - 1]) is Ok));
            } else {
                assert(enc_items(items) == Ok::<Seq<CanonicalView>, Error>(
                    cs.push(enc_res(items.last())->Ok_0),
                ));
                assert forall|i: int| 0 <= i < items.len() implies (#[trigger] enc_res(
                    items[i],
                )) is Ok by {
                    if i < items.len() - 1 {
                        assert(enc_res(pre[i]) is Ok);
                    }
                }
                assert forall|i: int|
                    0 <= i < items.len() implies enc_items(items)->Ok_0[i] == (#[trigger] enc_res(
                    items[i],
                ))->Ok_0 by {
                    if i < items.len() - 1 {
                        assert(enc_items(pre)->Ok_0[i] == enc_res(pre[i])->Ok_0);
                    }
                }
            }
        }
    }
}

/// When the elements before `k` encode and element `k` does not, the whole
/// sequence fails with element `k`'s error: the first error wins.
pub proof fn lemma_enc_items_first_err(items: Seq<HostView>, k: int)
    requires
        0 <= k < items.len(),
        forall|j: int| 0 <= j < k ==> (#[trigger] enc_res(items[j])) is Ok,
        enc_res(items[k]) is Err,
    ensures
        enc_items(items) == Err::<Seq<CanonicalView>, Error>(enc_res(items[k])->Err_0),
    decreases items.len(),
{
    let pre = items.drop_last();
    assert(forall|i: int| 0 <= i < pre.len() ==> pre[i] == #[trigger] items[i]);
    if k == items.len() - 1 {
        assert(forall|j: int| 0 <= j < pre.len() ==> (#[trigger] enc_res(pre[j])) is Ok);
        lemma_enc_items(pre);
        assert(enc_items(items) == Err::<Seq<CanonicalView>, Error>(
            enc_res(items.last())->Err_0,
        ));
    } else {
        lemma_enc_items_first_err(pre, k);
        assert(enc_items(items) == enc_items(pre));
    }
}

/// `enc_entries` succeeds exactly when every entry encodes, and then carries
/// the keys and encoded values in entry order.
pub proof fn lemma_enc_entries(pairs: Seq<(HostView, HostView)>, key_err: Error)
    ensures
        enc_entries(pairs, key_err) is Ok <==> (forall|i: int|
            0 <= i < pairs.len() ==> entry_ok(#[trigger] pairs[i])),
        enc_entries(pairs, key_err) is Ok ==> enc_entries(pairs, key_err)->Ok_0.len() == pairs.len(),
        enc_entries(pairs, key_err) is Ok ==> (forall|i: int|
            0 <= i < pairs.len() ==> enc_entries(pairs, key_err)->Ok_0[i] == (
                (#[trigger] pairs[i]).0->Str_0,
                enc_res(pairs[i].1)->Ok_0,
            )),
    decreases pairs.len(),
{
    if pairs.len() == 0 {
        assert(enc_entries(pairs, key_err) == Ok::<Seq<(Seq<char>, CanonicalView)>, Error>(Seq::empty()));
    } else {
        let pre = pairs.drop_last();
        lemma_enc_entries(pre, key_err);
        assert(forall|i: int| 0 <= i < pre.len() ==> pre[i] == #[trigger] pairs[i]);
        if enc_entries(pre, key_err) is Err {
            assert(enc_entries(pairs, key_err) == enc_entries(pre, key_err));
            let w = choose|i: int| 0 <= i < pre.len() && !entry_ok(#[trigger] pre[i]);
            assert(!entry_ok(pairs[w]));
        } else {
            let es = enc_entries(pre, key_err)->Ok_0;
            if !entry_ok(pairs.last()) {
                assert(enc_entries(pairs, key_err) is Err);
                assert(!entry_ok(pairs[pairs.len() - 1]));
            } else {
                assert(enc_entries(pairs, key_err) == Ok::<Seq<(Seq<char>, CanonicalView)>, Error>(
                    es.push((pairs.last().0->Str_0, enc_res(pairs.last().1)->Ok_0)),
                ));
                assert forall|i: int| 0 <= i < pairs.len() implies entry_ok(
                    #[trigger] pairs[i],
                ) by {
                    if i < pairs.len() - 1 {
                        assert(entry_ok(pre[i]));
                    }
                }
                assert forall|i: int|
                    0 <= i < pairs.len() implies enc_entries(pairs, key_err)->Ok_0[i] == (
                    (#[trigger] pairs[i]).0->Str_0,
                    enc_res(pairs[i].1)->Ok_0,
                ) by {
                    if i < pairs.len() - 1 {
                        assert(enc_entries(pre, key_err)->Ok_0[i] == (
                            pre[i].0->Str_0,
                            enc_res(pre[i].1)->Ok_0,
                        ));
                    }
                }
            }
        }
    }
}

/// When the entries before `k` encode and entry `k` does not, the whole
/// mapping fails with entry `k`'s error: the first error wins, and a
/// non-string key is reported before the entry's value.
pub proof fn lemma_enc_entries_first_err(pairs: Seq<(HostView, HostView)>, key_err: Error, k: int)
    requires
        0 <= k < pairs.len(),
        forall|j: int| 0 <= j < k ==> entry_ok(#[trigger] pairs[j]),
        !entry_ok(pairs[k]),
    ensures
        enc_entries(pairs, key_err) == Err::<Seq<(Seq<char>, CanonicalView)>, Error>(entry_err(pairs[k], key_err)),
    decreases pairs.len(),
{
    let pre = pairs.drop_last();
    assert(forall|i: int| 0 <= i < pre.len() ==> pre[i] == #[trigger] pairs[i]);
    if k == pairs.len() - 1 {
        assert(forall|j: int| 0 <= j < pre.len() ==> entry_ok(#[trigger] pre[j]));
        lemma_enc_entries(pre, key_err);
        assert(enc_entries(pairs, key_err) == Err::<Seq<(Seq<char>, CanonicalView)>, Error>(
            entry_err(pairs.last(), key_err),
        ));
    } else {
        lemma_enc_entries_first_err(pre, key_err, k);
        assert(enc_entries(pairs, key_err) == enc_entries(pre, key_err));
    }
}

/// The model of an encoding result.
pub open spec fn enc_result_view(r: Result<CanonicalValue, Error>) -> Result<
    CanonicalView,
    Error,
> {
    match r {
        Ok(c) => Ok(c@),
        Err(e) => Err(e),
    }
}

/// Encode one host value into a canonical value.
///
/// The sentinel has no canonical representation here: it is rejected like any
/// other unsupported kind. Treating the sentinel as an absent top-level input
/// is `encode_input`'s concern.
pub fn encode_value(h: &HostValue) -> (r: Result<CanonicalValue, Error>)
    ensures
        enc_result_view(r) == enc_res(h@),
    decreases h,
{
    match h {
        HostValue::Null => Ok(CanonicalValue::Null),
        HostValue::Bool(b) => Ok(CanonicalValue::Bool(*b)),
        HostValue::SignedInt(i) => Ok(CanonicalValue::Number(Number::SignedInt(*i))),
        HostValue::UnsignedInt(u) => Ok(CanonicalValue::Number(Number::UnsignedInt(*u))),
        HostValue::FloatBits(bits) => {
            if ((*bits >> 52) & 0x7ff) != 0x7ff {
                Ok(CanonicalValue::Number(Number::FloatBits(*bits)))
            } else {
                Err(Error::NonFiniteFloat)
            }
        },
        HostValue::Str(s) => Ok(CanonicalValue::Str(s.clone())),
        HostValue::List(items) => {
            match encode_sequence(items) {
                Ok(out) => Ok(CanonicalValue::Array(out)),
                Err(e) => Err(e),
            }
        },
        HostValue::Tuple(items) => {
            match encode_sequence(items) {
                Ok(out) => Ok(CanonicalValue::Array(out)),
                Err(e) => Err(e),
            }
        },
        HostValue::Dict(pairs) => {
            match encode_mapping(pairs) {
                Ok(out) => Ok(CanonicalValue::Object(out)),
                Err(e) => Err(e),
            }
        },
        HostValue::Sentinel => Err(Error::UnsupportedType),
    }
}

/// Encode the elements of a host sequence in order, failing fast.
fn encode_sequence(items: &Vec<HostValue>) -> (r: Result<Vec<CanonicalValue>, Error>)
    ensures
        r is Ok ==> enc_items(host_views(items@)) == Ok::<Seq<CanonicalView>, Error>(
            canonical_views(r->Ok_0@),
        ),
        r is Err ==> enc_items(host_views(items@)) == Err::<Seq<CanonicalView>, Error>(r->Err_0),
    decreases items,
{
    let ghost hv = host_views(items@);
    let mut out: Vec<CanonicalValue> = Vec::new();
    let mut idx: usize = 0;
    proof {
        lemma_host_views(items@);
        assert(hv.take(0) =~= Seq::<HostView>::empty());
        assert(enc_items(hv.take(0)) == Ok::<Seq<CanonicalView>, Error>(Seq::empty()));
        assert(canonical_views(out@) =~= Seq::<CanonicalView>::empty());
    }
    while idx < items.len()
        invariant
            idx <= items@.len(),
            out@.len() == idx,
            hv == host_views(items@),
            hv.len() == items@.len(),
            forall|i: int| 0 <= i < items@.len() ==> hv[i] == #[trigger] items@[i]@,
            enc_items(hv.take(idx as int)) == Ok::<Seq<CanonicalView>, Error>(
                canonical_views(out@),
            ),
        decreases items@.len() - idx,
    {
        match encode_value(&items[idx]) {
            Ok(c) => {
                proof {
                    let t = hv.take(idx as int + 1);
                    assert(t.drop_last() =~= hv.take(idx as int));
                    assert(t.last() == hv[idx as int]);
                    assert(enc_res(hv[idx as int]) == Ok::<CanonicalView, Error>(c@));
                    assert(enc_items(t) == Ok::<Seq<CanonicalView>, Error>(
                        canonical_views(out@).push(c@),
                    ));
                    assert(out@.push(c).drop_last() =~= out@);
                    assert(canonical_views(out@.push(c)) == canonical_views(out@).push(c@));
                }
                out.push(c);
                idx = idx + 1;
            },
            Err(e) => {
                proof {
                    lemma_enc_items(hv.take(idx as int));
                    assert(forall|j: int|
                        0 <= j < idx ==> hv.take(idx as int)[j] == #[trigger] hv[j]);
                    assert(forall|j: int| 0 <= j < idx ==> (#[trigger] enc_res(hv[j])) is Ok);
                    assert(enc_res(hv[idx as int]) == Err::<CanonicalView, Error>(e));
                    lemma_enc_items_first_err(hv, idx as int);
                }
                return Err(e);
            },
        }
    }
    proof {
        assert(hv.take(items@.len() as int) =~= hv);
    }
    Ok(out)
}

/// Encode the entries of a host mapping in order, requiring string keys and
/// failing fast.
fn encode_mapping(pairs: &Vec<(HostValue, HostValue)>) -> (r: Result<
    Vec<(String, CanonicalValue)>,
    Error,
>)
    ensures
        r is Ok ==> enc_entries(host_pair_views(pairs@), Error::NonStringKey) == Ok::<
            Seq<(Seq<char>, CanonicalView)>,
            Error,
        >(object_views(r->Ok_0@)),
        r is Err ==> enc_entries(host_pair_views(pairs@), Error::NonStringKey) == Err::<
            Seq<(Seq<char>, CanonicalView)>,
            Error,
        >(r->Err_0),
    decreases pairs,
{
    let ghost pv = host_pair_views(pairs@);
    let mut out: Vec<(String, CanonicalValue)> = Vec::new();
    let mut idx: usize = 0;
    proof {
        lemma_host_pair_views(pairs@);
        assert(pv.take(0) =~= Seq::<(HostView, HostView)>::empty());
        assert(enc_entries(pv.take(0), Error::NonStringKey) == Ok::<Seq<(Seq<char>, CanonicalView)>, Error>(
            Seq::empty(),
        ));
        assert(object_views(out@) =~= Seq::<(Seq<char>, CanonicalView)>::empty());
    }
    while idx < pairs.len()
        invariant
            idx <= pairs@.len(),
            out@.len() == idx,
            pv == host_pair_views(pairs@),
            pv.len() == pairs@.len(),
            forall|i: int|
                0 <= i < pairs@.len() ==> pv[i] == ((#[trigger] pairs@[i]).0@, pairs@[i].1@),
            enc_entries(pv.take(idx as int), Error::NonStringKey) == Ok::<Seq<(Seq<char>, CanonicalView)>, Error>(
                object_views(out@),
            ),
        decreases pairs@.len() - idx,
    {
        let key: String = match &pairs[idx].0 {
            HostValue::Str(k) => k.clone(),
            _ => {
                proof {
                    lemma_enc_entries(pv.take(idx as int), Error::NonStringKey);
                    assert(forall|j: int|
                        0 <= j < idx ==> pv.take(idx as int)[j] == #[trigger] pv[j]);
                    assert(forall|j: int| 0 <= j < idx ==> entry_ok(#[trigger] pv[j]));
                    assert(!(pv[idx as int].0 is Str));
                    assert(!entry_ok(pv[idx as int]));
                    assert(entry_err(pv[idx as int], Error::NonStringKey) == Error::NonStringKey);
                    lemma_enc_entries_first_err(pv, Error::NonStringKey, idx as int);
                }
                return Err(Error::NonStringKey);
            },
        };
        match encode_value(&pairs[idx].1) {
            Ok(c) => {
                proof {
                    let t = pv.take(idx as int + 1);
                    assert(t.drop_last() =~= pv.take(idx as int));
                    assert(t.last() == pv[idx as int]);
                    assert(pv[idx as int].0 is Str && pv[idx as int].0->Str_0 == key@);
                    assert(enc_res(pv[idx as int].1) == Ok::<CanonicalView, Error>(c@));
                    assert(enc_entries(t, Error::NonStringKey) == Ok::<Seq<(Seq<char>, CanonicalView)>, Error>(
                        object_views(out@).push((key@, c@)),
                    ));
                    assert(out@.push((key, c)).drop_last() =~= out@);
                    assert(object_views(out@.push((key, c))) == object_views(out@).push(
                        (key@, c@),
                    ));
                }
                out.push((key, c));
                idx = idx + 1;
            },
            Err(e) => {
                proof {
                    lemma_enc_entries(pv.take(idx as int), Error::NonStringKey);
                    assert(forall|j: int|
                        0 <= j < idx ==> pv.take(idx as int)[j] == #[trigger] pv[j]);
                    assert(forall|j: int| 0 <= j < idx ==> entry_ok(#[trigger] pv[j]));
                    assert(enc_res(pv[idx as int].1) == Err::<CanonicalView, Error>(e));
                    assert(!entry_ok(pv[idx as int]));
                    assert(entry_err(pv[idx as int], Error::NonStringKey) == e);
                    lemma_enc_entries_first_err(pv, Error::NonStringKey, idx as int);
                }
                return Err(e);
            },
        }
    }
    proof {
        assert(pv.take(pairs@.len() as int) =~= pv);
    }
    Ok(out)
}

/// What encoding the top-level input yields: the sentinel means "no input
/// bound", distinct from null; every other value encodes as usual.
pub open spec fn enc_input(h: HostView) -> Result<Option<CanonicalView>, Error> {
    if h is Sentinel {
        Ok(None)
    } else {
        match enc_res(h) {
            Ok(c) => Ok(Some(c)),
            Err(e) => Err(e),
        }
    }
}

/// The model of an input-encoding result.
pub open spec fn input_result_view(r: Result<Option<CanonicalValue>, Error>) -> Result<
    Option<CanonicalView>,
    Error,
> {
    match r {
        Ok(Some(c)) => Ok(Some(c@)),
        Ok(None) => Ok(None),
        Err(e) => Err(e),
    }
}

/// Encode the top-level input of an evaluation: the sentinel short-circuits
/// to "absent", so the engine sees no input at all rather than null.
pub fn encode_input(h: &HostValue) -> (r: Result<Option<CanonicalValue>, Error>)
    ensures
        input_result_view(r) == enc_input(h@),
{
    match h {
        HostValue::Sentinel => Ok(None),
        _ => match encode_value(h) {
            Ok(c) => Ok(Some(c)),
            Err(e) => Err(e),
        },
    }
}

} // verus!
