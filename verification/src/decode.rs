//! The canonical-to-host decoder.
//!
//! Dispatch is by tag: structured values are converted recursively in order
//! with the first inner error aborting the whole conversion, ranges are
//! materialized eagerly, and the callable/pattern variants are rejected
//! because the host boundary cannot represent them.

use vstd::prelude::*;

use crate::errors::Error;
use crate::host::{host_views, host_pair_views};
use crate::host::{HostValue, HostView};
use crate::sentinel::SentinelRegistry;
use crate::value::{canonical_views, object_views, lemma_canonical_views, lemma_object_views, wf};
use crate::value::{CanonicalValue, CanonicalView, Number, RangeValue};

verus! {

/// The host values a range materializes to: the integers `start`,
/// `start + 1`, ..., one per index below `count`.
pub open spec fn range_items(rv: RangeValue) -> Seq<HostView> {
    Seq::new(rv.count as nat, |i: int| HostView::SignedInt((rv.start + i) as i64))
}

/// What decoding one canonical value yields under a given sentinel-slot
/// state: the host value, or the first error met while walking the value.
pub open spec fn dec_res(c: CanonicalView, init: bool) -> Result<HostView, Error>
    decreases c,
{
    match c {
        CanonicalView::Undefined => if init {
            Ok(HostView::Sentinel)
        } else {
            Err(Error::SentinelUninitialized)
        },
        CanonicalView::Null => Ok(HostView::Null),
        CanonicalView::Bool(b) => Ok(HostView::Bool(b)),
        CanonicalView::Number(n) => match n {
            Number::SignedInt(i) => Ok(HostView::SignedInt(i)),
            Number::UnsignedInt(u) => Ok(HostView::UnsignedInt(u)),
            Number::FloatBits(bits) => Ok(HostView::FloatBits(bits)),
        },
        CanonicalView::Str(s) => Ok(HostView::Str(s)),
        CanonicalView::Array(items) => match dec_items(items, init) {
            Ok(hs) => Ok(HostView::List(hs)),
            Err(e) => Err(e),
        },
        CanonicalView::Object(pairs) => match dec_entries(pairs, init) {
            Ok(ps) => Ok(HostView::Dict(ps)),
            Err(e) => Err(e),
        },
        CanonicalView::Range(rv) => Ok(HostView::List(range_items(rv))),
        CanonicalView::Regex => Err(Error::UnsupportedValue),
        CanonicalView::Lambda => Err(Error::UnsupportedValue),
        CanonicalView::NativeFn => Err(Error::UnsupportedValue),
        CanonicalView::Transformer => Err(Error::UnsupportedValue),
    }
}

/// What decoding a sequence of canonical values yields: the host elements in
/// order, or the error of the first element that does not decode.
pub open spec fn dec_items(items: Seq<CanonicalView>, init: bool) -> Result<Seq<HostView>, Error>
    decreases items,
{
    if items.len() == 0 {
        Ok(Seq::empty())
    } else {
        match dec_items(items.drop_last(), init) {
            Err(e) => Err(e),
            Ok(hs) => match dec_res(items.last(), init) {
                Err(e) => Err(e),
                Ok(h) => Ok(hs.push(h)),
            },
        }
    }
}

/// What decoding a sequence of object entries yields: the keys as host
/// strings with the decoded values in canonical order, or the error of the
/// first value that does not decode.
pub open spec fn dec_entries(pairs: Seq<(Seq<char>, CanonicalView)>, init: bool) -> Result<
    Seq<(HostView, HostView)>,
    Error,
>
    decreases pairs,
{
    if pairs.len() == 0 {
        Ok(Seq::empty())
    } else {
        match dec_entries(pairs.drop_last(), init) {
            Err(e) => Err(e),
            Ok(ps) => match dec_res(pairs.last().1, init) {
                Err(e) => Err(e),
                Ok(h) => Ok(ps.push((HostView::Str(pairs.last().0), h))),
            },
        }
    }
}

/// `dec_items` succeeds exactly when every element decodes, and then carries
/// the elements' decodings in order.
pub proof fn lemma_dec_items(items: Seq<CanonicalView>, init: bool)
    ensures
        dec_items(items, init) is Ok <==> (forall|i: int|
            0 <= i < items.len() ==> (#[trigger] dec_res(items[i], init)) is Ok),
        dec_items(items, init) is Ok ==> dec_items(items, init)->Ok_0.len() == items.len(),
        dec_items(items, init) is Ok ==> (forall|i: int|
            0 <= i < items.len() ==> dec_items(items, init)->Ok_0[i] == (#[trigger] dec_res(
                items[i],
                init,
            ))->Ok_0),
    decreases items.len(),
{
    if items.len() == 0 {
        assert(dec_items(items, init) == Ok::<Seq<HostView>, Error>(Seq::empty()));
    } else {
        let pre = items.drop_last();
        lemma_dec_items(pre, init);
        assert(forall|i: int| 0 <= i < pre.len() ==> pre[i] == #[trigger] items[i]);
        if dec_items(pre, init) is Err {
            assert(dec_items(items, init) == dec_items(pre, init));
            let w = choose|i: int|
                0 <= i < pre.len() && !((#[trigger] dec_res(pre[i], init)) is Ok);
            assert(!(dec_res(items[w], init) is Ok));
        } else {
            let hs = dec_items(pre, init)->Ok_0;
            if dec_res(items.last(), init) is Err {
                assert(dec_items(items, init) == Err::<Seq<HostView>, Error>(
                    dec_res(items.last(), init)->Err_0,
                ));
                assert(!(dec_res(items[items.len() - 1], init) is Ok));
            } else {
                assert(dec_items(items, init) == Ok::<Seq<HostView>, Error>(
                    hs.push(dec_res(items.last(), init)->Ok_0),
                ));
                assert forall|i: int| 0 <= i < items.len() implies (#[trigger] dec_res(
                    items[i],
                    init,
                )) is Ok by {
                    if i < items.len() - 1 {
                        assert(dec_res(pre[i], init) is Ok);
                    }
                }
                assert forall|i: int|
                    0 <= i < items.len() implies dec_items(items, init)->Ok_0[i] == (
                #[trigger] dec_res(items[i], init))->Ok_0 by {
                    if i < items.len() - 1 {
                        assert(dec_items(pre, init)->Ok_0[i] == dec_res(pre[i], init)->Ok_0);
                    }
                }
            }
        }
    }
}

/// When the elements before `k` decode and element `k` does not, the whole
/// sequence fails with element `k`'s error: the first error wins.
pub proof fn lemma_dec_items_first_err(items: Seq<CanonicalView>, init: bool, k: int)
    requires
        0 <= k < items.len(),
        forall|j: int| 0 <= j < k ==> (#[trigger] dec_res(items[j], init)) is Ok,
        dec_res(items[k], init) is Err,
    ensures
        dec_items(items, init) == Err::<Seq<HostView>, Error>(dec_res(items[k], init)->Err_0),
    decreases items.len(),
{
    let pre = items.drop_last();
    assert(forall|i: int| 0 <= i < pre.len() ==> pre[i] == #[trigger] items[i]);
    if k == items.len() - 1 {
        assert(forall|j: int| 0 <= j < pre.len() ==> (#[trigger] dec_res(pre[j], init)) is Ok);
        lemma_dec_items(pre, init);
        assert(dec_items(items, init) == Err::<Seq<HostView>, Error>(
            dec_res(items.last(), init)->Err_0,
        ));
    } else {
        lemma_dec_items_first_err(pre, init, k);
        assert(dec_items(items, init) == dec_items(pre, init));
    }
}

/// `dec_entries` succeeds exactly when every entry's value decodes, and then
/// carries the keys and decoded values in order.
pub proof fn lemma_dec_entries(pairs: Seq<(Seq<char>, CanonicalView)>, init: bool)
    ensures
        dec_entries(pairs, init) is Ok <==> (forall|i: int|
            0 <= i < pairs.len() ==> (#[trigger] dec_res(pairs[i].1, init)) is Ok),
        dec_entries(pairs, init) is Ok ==> dec_entries(pairs, init)->Ok_0.len() == pairs.len(),
        dec_entries(pairs, init) is Ok ==> (forall|i: int|
            0 <= i < pairs.len() ==> dec_entries(pairs, init)->Ok_0[i] == (
                HostView::Str((#[trigger] pairs[i]).0),
                dec_res(pairs[i].1, init)->Ok_0,
            )),
    decreases pairs.len(),
{
    if pairs.len() == 0 {
        assert(dec_entries(pairs, init) == Ok::<Seq<(HostView, HostView)>, Error>(Seq::empty()));
    } else {
        let pre = pairs.drop_last();
        lemma_dec_entries(pre, init);
        assert(forall|i: int| 0 <= i < pre.len() ==> pre[i] == #[trigger] pairs[i]);
        if dec_entries(pre, init) is Err {
            assert(dec_entries(pairs, init) == dec_entries(pre, init));
            let w = choose|i: int|
                0 <= i < pre.len() && !((#[trigger] dec_res(pre[i].1, init)) is Ok);
            assert(!(dec_res(pairs[w].1, init) is Ok));
        } else {
            let ps = dec_entries(pre, init)->Ok_0;
            if dec_res(pairs.last().1, init) is Err {
                assert(dec_entries(pairs, init) == Err::<Seq<(HostView, HostView)>, Error>(
                    dec_res(pairs.last().1, init)->Err_0,
                ));
                assert(!(dec_res(pairs[pairs.len() - 1].1, init) is Ok));
            } else {
                assert(dec_entries(pairs, init) == Ok::<Seq<(HostView, HostView)>, Error>(
                    ps.push((HostView::Str(pairs.last().0), dec_res(pairs.last().1, init)->Ok_0)),
                ));
                assert forall|i: int| 0 <= i < pairs.len() implies (#[trigger] dec_res(
                    pairs[i].1,
                    init,
                )) is Ok by {
                    if i < pairs.len() - 1 {
                        assert(dec_res(pre[i].1, init) is Ok);
                    }
                }
                assert forall|i: int|
                    0 <= i < pairs.len() implies dec_entries(pairs, init)->Ok_0[i] == (
                    HostView::Str((#[trigger] pairs[i]).0),
                    dec_res(pairs[i].1, init)->Ok_0,
                ) by {
                    if i < pairs.len() - 1 {
                        assert(dec_entries(pre, init)->Ok_0[i] == (
                            HostView::Str(pre[i].0),
                            dec_res(pre[i].1, init)->Ok_0,
                        ));
                    }
                }
            }
        }
    }
}

/// When the entry values before `k` decode and entry `k`'s does not, the
/// whole mapping fails with entry `k`'s error: the first error wins.
pub proof fn lemma_dec_entries_first_err(pairs: Seq<(Seq<char>, CanonicalView)>, init: bool, k: int)
    requires
        0 <= k < pairs.len(),
        forall|j: int| 0 <= j < k ==> (#[trigger] dec_res(pairs[j].1, init)) is Ok,
        dec_res(pairs[k].1, init) is Err,
    ensures
        dec_entries(pairs, init) == Err::<Seq<(HostView, HostView)>, Error>(
            dec_res(pairs[k].1, init)->Err_0,
        ),
    decreases pairs.len(),
{
    let pre = pairs.drop_last();
    assert(forall|i: int| 0 <= i < pre.len() ==> pre[i] == #[trigger] pairs[i]);
    if k == pairs.len() - 1 {
        assert(forall|j: int| 0 <= j < pre.len() ==> (#[trigger] dec_res(pre[j].1, init)) is Ok);
        lemma_dec_entries(pre, init);
        assert(dec_entries(pairs, init) == Err::<Seq<(HostView, HostView)>, Error>(
            dec_res(pairs.last().1, init)->Err_0,
        ));
    } else {
        lemma_dec_entries_first_err(pre, init, k);
        assert(dec_entries(pairs, init) == dec_entries(pre, init));
    }
}

/// The model of a decoding result.
pub open spec fn dec_result_view(r: Result<HostValue, Error>) -> Result<HostView, Error> {
    match r {
        Ok(h) => Ok(h@),
        Err(e) => Err(e),
    }
}

/// Decode one canonical value into a host value, reading the sentinel slot
/// for `Undefined`.
pub fn decode_value(c: &CanonicalValue, registry: &SentinelRegistry) -> (r: Result<
    HostValue,
    Error,
>)
    requires
        wf(c@),
    ensures
        dec_result_view(r) == dec_res(c@, registry.is_initialized()),
    decreases c,
{
    match c {
        CanonicalValue::Undefined => match registry.sentinel() {
            Some(s) => Ok(s),
            None => Err(Error::SentinelUninitialized),
        },
        CanonicalValue::Null => Ok(HostValue::Null),
        CanonicalValue::Bool(b) => Ok(HostValue::Bool(*b)),
        CanonicalValue::Number(n) => match n {
            Number::SignedInt(i) => Ok(HostValue::SignedInt(*i)),
            Number::UnsignedInt(u) => Ok(HostValue::UnsignedInt(*u)),
            Number::FloatBits(bits) => Ok(HostValue::FloatBits(*bits)),
        },
        CanonicalValue::Str(s) => Ok(HostValue::Str(s.clone())),
        CanonicalValue::Array(items) => {
            proof {
                lemma_canonical_views(items@);
            }
            match decode_sequence(items, registry) {
                Ok(out) => Ok(HostValue::List(out)),
                Err(e) => Err(e),
            }
        },
        CanonicalValue::Object(pairs) => {
            proof {
                lemma_object_views(pairs@);
                assert(c@ == CanonicalView::Object(object_views(pairs@)));
                assert forall|i: int| 0 <= i < pairs@.len() implies wf(
                    (#[trigger] pairs@[i]).1@,
                ) by {
                    assert(object_views(pairs@)[i].1 == pairs@[i].1@);
                    assert(wf(object_views(pairs@)[i].1));
                }
            }
            match decode_mapping(pairs, registry) {
                Ok(out) => Ok(HostValue::Dict(out)),
                Err(e) => Err(e),
            }
        },
        CanonicalValue::Range(rv) => Ok(HostValue::List(materialize_range(rv))),
        CanonicalValue::Regex => Err(Error::UnsupportedValue),
        CanonicalValue::Lambda => Err(Error::UnsupportedValue),
        CanonicalValue::NativeFn => Err(Error::UnsupportedValue),
        CanonicalValue::Transformer => Err(Error::UnsupportedValue),
    }
}

/// Decode the elements of a canonical array in order, failing fast.
fn decode_sequence(items: &Vec<CanonicalValue>, registry: &SentinelRegistry) -> (r: Result<
    Vec<HostValue>,
    Error,
>)
    requires
        forall|i: int| 0 <= i < items@.len() ==> wf(#[trigger] items@[i]@),
    ensures
        r is Ok ==> dec_items(canonical_views(items@), registry.is_initialized()) == Ok::<
            Seq<HostView>,
            Error,
        >(host_views(r->Ok_0@)),
        r is Err ==> dec_items(canonical_views(items@), registry.is_initialized()) == Err::<
            Seq<HostView>,
            Error,
        >(r->Err_0),
    decreases items,
{
    let ghost init = registry.is_initialized();
    let ghost cv = canonical_views(items@);
    let mut out: Vec<HostValue> = Vec::new();
    let mut idx: usize = 0;
    proof {
        lemma_canonical_views(items@);
        assert(cv.take(0) =~= Seq::<CanonicalView>::empty());
        assert(dec_items(cv.take(0), init) == Ok::<Seq<HostView>, Error>(Seq::empty()));
        assert(host_views(out@) =~= Seq::<HostView>::empty());
    }
    while idx < items.len()
        invariant
            idx <= items@.len(),
            out@.len() == idx,
            init == registry.is_initialized(),
            cv == canonical_views(items@),
            cv.len() == items@.len(),
            forall|i: int| 0 <= i < items@.len() ==> cv[i] == #[trigger] items@[i]@,
            forall|i: int| 0 <= i < items@.len() ==> wf(#[trigger] items@[i]@),
            dec_items(cv.take(idx as int), init) == Ok::<Seq<HostView>, Error>(
                host_views(out@),
            ),
        decreases items@.len() - idx,
    {
        match decode_value(&items[idx], registry) {
            Ok(h) => {
                proof {
                    let t = cv.take(idx as int + 1);
                    assert(t.drop_last() =~= cv.take(idx as int));
                    assert(t.last() == cv[idx as int]);
                    assert(dec_res(cv[idx as int], init) == Ok::<HostView, Error>(h@));
                    assert(dec_items(t, init) == Ok::<Seq<HostView>, Error>(
                        host_views(out@).push(h@),
                    ));
                    assert(out@.push(h).drop_last() =~= out@);
                    assert(host_views(out@.push(h)) == host_views(out@).push(h@));
                }
                out.push(h);
                idx = idx + 1;
            },
            Err(e) => {
                proof {
                    lemma_dec_items(cv.take(idx as int), init);
                    assert(forall|j: int|
                        0 <= j < idx ==> cv.take(idx as int)[j] == #[trigger] cv[j]);
                    assert(forall|j: int|
                        0 <= j < idx ==> (#[trigger] dec_res(cv[j], init)) is Ok);
                    assert(dec_res(cv[idx as int], init) == Err::<HostView, Error>(e));
                    lemma_dec_items_first_err(cv, init, idx as int);
                }
                return Err(e);
            },
        }
    }
    proof {
        assert(cv.take(items@.len() as int) =~= cv);
    }
    Ok(out)
}

/// Decode the entries of a canonical object in order, failing fast; the keys
/// are already strings.
fn decode_mapping(pairs: &Vec<(String, CanonicalValue)>, registry: &SentinelRegistry) -> (r: Result<
    Vec<(HostValue, HostValue)>,
    Error,
>)
    requires
        forall|i: int| 0 <= i < pairs@.len() ==> wf((#[trigger] pairs@[i]).1@),
    ensures
        r is Ok ==> dec_entries(object_views(pairs@), registry.is_initialized()) == Ok::<
            Seq<(HostView, HostView)>,
            Error,
        >(host_pair_views(r->Ok_0@)),
        r is Err ==> dec_entries(object_views(pairs@), registry.is_initialized()) == Err::<
            Seq<(HostView, HostView)>,
            Error,
        >(r->Err_0),
    decreases pairs,
{
    let ghost init = registry.is_initialized();
    let ghost ov = object_views(pairs@);
    let mut out: Vec<(HostValue, HostValue)> = Vec::new();
    let mut idx: usize = 0;
    proof {
        lemma_object_views(pairs@);
        assert(ov.take(0) =~= Seq::<(Seq<char>, CanonicalView)>::empty());
        assert(dec_entries(ov.take(0), init) == Ok::<Seq<(HostView, HostView)>, Error>(
            Seq::empty(),
        ));
        assert(host_pair_views(out@) =~= Seq::<(HostView, HostView)>::empty());
    }
    while idx < pairs.len()
        invariant
            idx <= pairs@.len(),
            out@.len() == idx,
            init == registry.is_initialized(),
            ov == object_views(pairs@),
            ov.len() == pairs@.len(),
            forall|i: int|
                0 <= i < pairs@.len() ==> ov[i] == ((#[trigger] pairs@[i]).0@, pairs@[i].1@),
            forall|i: int| 0 <= i < pairs@.len() ==> wf((#[trigger] pairs@[i]).1@),
            dec_entries(ov.take(idx as int), init) == Ok::<Seq<(HostView, HostView)>, Error>(
                host_pair_views(out@),
            ),
        decreases pairs@.len() - idx,
    {
        let key: String = pairs[idx].0.clone();
        match decode_value(&pairs[idx].1, registry) {
            Ok(h) => {
                proof {
                    let t = ov.take(idx as int + 1);
                    assert(t.drop_last() =~= ov.take(idx as int));
                    assert(t.last() == ov[idx as int]);
                    assert(dec_res(ov[idx as int].1, init) == Ok::<HostView, Error>(h@));
                    assert(dec_entries(t, init) == Ok::<Seq<(HostView, HostView)>, Error>(
                        host_pair_views(out@).push((HostView::Str(key@), h@)),
                    ));
                    assert((HostValue::Str(key))@ == HostView::Str(key@));
                    assert(out@.push((HostValue::Str(key), h)).drop_last() =~= out@);
                    assert(host_pair_views(out@.push((HostValue::Str(key), h)))
                        == host_pair_views(out@).push((HostView::Str(key@), h@)));
                }
                out.push((HostValue::Str(key), h));
                idx = idx + 1;
            },
            Err(e) => {
                proof {
                    lemma_dec_entries(ov.take(idx as int), init);
                    assert(forall|j: int|
                        0 <= j < idx ==> ov.take(idx as int)[j] == #[trigger] ov[j]);
                    assert(forall|j: int|
                        0 <= j < idx ==> (#[trigger] dec_res(ov[j].1, init)) is Ok);
                    assert(dec_res(ov[idx as int].1, init) == Err::<HostView, Error>(e));
                    lemma_dec_entries_first_err(ov, init, idx as int);
                }
                return Err(e);
            },
        }
    }
    proof {
        assert(ov.take(pairs@.len() as int) =~= ov);
    }
    Ok(out)
}

/// Materialize a range eagerly into the host integers it denotes.
fn materialize_range(rv: &RangeValue) -> (r: Vec<HostValue>)
    requires
        rv.start + rv.count <= i64::MAX + 1,
    ensures
        host_views(r@) == range_items(*rv),
{
    let mut out: Vec<HostValue> = Vec::new();
    let mut i: u32 = 0;
    proof {
        assert(host_views(out@) =~= Seq::<HostView>::empty());
        assert(range_items(*rv).take(0) =~= Seq::<HostView>::empty());
    }
    while i < rv.count
        invariant
            i <= rv.count,
            out@.len() == i,
            rv.start + rv.count <= i64::MAX + 1,
            host_views(out@) == range_items(*rv).take(i as int),
        decreases rv.count - i,
    {
        let item = HostValue::SignedInt(rv.start + (i as i64));
        proof {
            assert(item@ == range_items(*rv)[i as int]);
            assert(out@.push(item).drop_last() =~= out@);
            assert(host_views(out@.push(item)) == host_views(out@).push(item@));
            assert(range_items(*rv).take(i as int + 1) =~= range_items(*rv).take(i as int).push(
                range_items(*rv)[i as int],
            ));
        }
        out.push(item);
        i = i + 1;
    }
    proof {
        assert(range_items(*rv).take(rv.count as int) =~= range_items(*rv));
    }
    out
}

} // verus!
