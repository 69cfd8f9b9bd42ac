//! Laws of the marshaling boundary, stated over the specification functions
//! that the converters' contracts use.

use vstd::prelude::*;

use crate::decode::{
    dec_entries, dec_items, dec_res, lemma_dec_entries, lemma_dec_items,
};
use crate::encode::{
    enc_entries, enc_input, enc_items, enc_res, entry_ok, float_bits_finite, lemma_enc_entries,
    lemma_enc_entries_first_err, lemma_enc_items, entry_err,
};
use crate::errors::{Error, ErrorKind};
use crate::host::{similar, similar_pairs, similar_seqs, HostView};
use crate::invoke::prep_res;
use crate::value::{wf, CanonicalView};

verus! {

/// Round trip: every host value that encodes decodes back, under any
/// sentinel-slot state, to a structurally equivalent host value — arrays
/// element-wise equal in order, mappings entry-wise equal with equal string
/// keys; only the list/tuple distinction is not preserved, since both encode
/// to the same canonical array.
pub proof fn lemma_round_trip(h: HostView, init: bool)
    requires
        enc_res(h) is Ok,
    ensures
        dec_res(enc_res(h)->Ok_0, init) is Ok,
        similar(dec_res(enc_res(h)->Ok_0, init)->Ok_0, h),
    decreases h,
{
    match h {
        HostView::List(items) => {
            lemma_round_trip_items(items, init);
            let cs = enc_items(items)->Ok_0;
            assert(enc_res(h) == Ok::<CanonicalView, Error>(CanonicalView::Array(cs)));
            let hs = dec_items(cs, init)->Ok_0;
            assert(dec_res(CanonicalView::Array(cs), init) == Ok::<HostView, Error>(
                HostView::List(hs),
            ));
            assert(similar(HostView::List(hs), h));
        },
        HostView::Tuple(items) => {
            lemma_round_trip_items(items, init);
            let cs = enc_items(items)->Ok_0;
            assert(enc_res(h) == Ok::<CanonicalView, Error>(CanonicalView::Array(cs)));
            let hs = dec_items(cs, init)->Ok_0;
            assert(dec_res(CanonicalView::Array(cs), init) == Ok::<HostView, Error>(
                HostView::List(hs),
            ));
            assert(similar(HostView::List(hs), h));
        },
        HostView::Dict(pairs) => {
            lemma_round_trip_entries(pairs, Error::NonStringKey, init);
            let es = enc_entries(pairs, Error::NonStringKey)->Ok_0;
            assert(enc_res(h) == Ok::<CanonicalView, Error>(CanonicalView::Object(es)));
            let ps = dec_entries(es, init)->Ok_0;
            assert(dec_res(CanonicalView::Object(es), init) == Ok::<HostView, Error>(
                HostView::Dict(ps),
            ));
            assert(similar(HostView::Dict(ps), h));
        },
        _ => {
        },
    }
}

/// Round trip for the elements of a sequence, in order.
pub proof fn lemma_round_trip_items(items: Seq<HostView>, init: bool)
    requires
        enc_items(items) is Ok,
    ensures
        dec_items(enc_items(items)->Ok_0, init) is Ok,
        similar_seqs(dec_items(enc_items(items)->Ok_0, init)->Ok_0, items),
    decreases items,
{
    let cs = enc_items(items)->Ok_0;
    lemma_enc_items(items);
    assert forall|i: int| 0 <= i < cs.len() implies (#[trigger] dec_res(cs[i], init)) is Ok
        && similar(dec_res(cs[i], init)->Ok_0, items[i]) by {
        assert(cs[i] == enc_res(items[i])->Ok_0);
        lemma_round_trip(items[i], init);
    }
    lemma_dec_items(cs, init);
    let hs = dec_items(cs, init)->Ok_0;
    assert(hs.len() == items.len());
    assert forall|i: int| 0 <= i < hs.len() implies similar(#[trigger] hs[i], items[i]) by {
        assert(hs[i] == dec_res(cs[i], init)->Ok_0);
    }
    assert(similar_seqs(hs, items));
}

/// Round trip for the entries of a mapping, in order: the keys come back as
/// the same strings and the values round-trip element-wise.
pub proof fn lemma_round_trip_entries(pairs: Seq<(HostView, HostView)>, key_err: Error, init: bool)
    requires
        enc_entries(pairs, key_err) is Ok,
    ensures
        dec_entries(enc_entries(pairs, key_err)->Ok_0, init) is Ok,
        similar_pairs(dec_entries(enc_entries(pairs, key_err)->Ok_0, init)->Ok_0, pairs),
    decreases pairs,
{
    let es = enc_entries(pairs, key_err)->Ok_0;
    lemma_enc_entries(pairs, key_err);
    assert forall|i: int| 0 <= i < es.len() implies (#[trigger] dec_res(es[i].1, init)) is Ok
        && similar(dec_res(es[i].1, init)->Ok_0, pairs[i].1) by {
        assert(es[i] == (pairs[i].0->Str_0, enc_res(pairs[i].1)->Ok_0));
        lemma_round_trip(pairs[i].1, init);
    }
    lemma_dec_entries(es, init);
    let ps = dec_entries(es, init)->Ok_0;
    assert forall|i: int|
        0 <= i < ps.len() implies similar((#[trigger] ps[i]).0, pairs[i].0) && similar(
        ps[i].1,
        pairs[i].1,
    ) by {
        assert(ps[i] == (HostView::Str(es[i].0), dec_res(es[i].1, init)->Ok_0));
        assert(pairs[i].0 == HostView::Str(pairs[i].0->Str_0));
        assert(similar(ps[i].0, pairs[i].0));
    }
}

/// Everything the encoder produces is well formed: in particular it contains
/// no range, so decoding it never materializes one.
pub proof fn lemma_encode_wf(h: HostView)
    requires
        enc_res(h) is Ok,
    ensures
        wf(enc_res(h)->Ok_0),
    decreases h,
{
    match h {
        HostView::List(items) => {
            lemma_encode_wf_items(items);
        },
        HostView::Tuple(items) => {
            lemma_encode_wf_items(items);
        },
        HostView::Dict(pairs) => {
            let es = enc_entries(pairs, Error::NonStringKey)->Ok_0;
            lemma_enc_entries(pairs, Error::NonStringKey);
            assert forall|i: int| 0 <= i < es.len() implies wf((#[trigger] es[i]).1) by {
                assert(es[i] == (pairs[i].0->Str_0, enc_res(pairs[i].1)->Ok_0));
                lemma_encode_wf(pairs[i].1);
            }
            assert(wf(CanonicalView::Object(es)));
        },
        _ => {
        },
    }
}

/// Well-formedness of every element the encoder produces for a sequence.
pub proof fn lemma_encode_wf_items(items: Seq<HostView>)
    requires
        enc_items(items) is Ok,
    ensures
        wf(CanonicalView::Array(enc_items(items)->Ok_0)),
    decreases items,
{
    let cs = enc_items(items)->Ok_0;
    lemma_enc_items(items);
    assert forall|i: int| 0 <= i < cs.len() implies wf(#[trigger] cs[i]) by {
        assert(cs[i] == enc_res(items[i])->Ok_0);
        lemma_encode_wf(items[i]);
    }
    assert(wf(CanonicalView::Array(cs)));
}

/// Whether a host value holds a non-finite floating-point value anywhere
/// inside it.
pub open spec fn has_nonfinite_float(h: HostView) -> bool
    decreases h,
{
    match h {
        HostView::FloatBits(bits) => !float_bits_finite(bits),
        HostView::List(items) => exists|i: int|
            0 <= i < items.len() && has_nonfinite_float(#[trigger] items[i]),
        HostView::Tuple(items) => exists|i: int|
            0 <= i < items.len() && has_nonfinite_float(#[trigger] items[i]),
        HostView::Dict(pairs) => exists|i: int|
            0 <= i < pairs.len() && (has_nonfinite_float((#[trigger] pairs[i]).0)
                || has_nonfinite_float(pairs[i].1)),
        _ => false,
    }
}

/// A non-finite floating-point value is itself rejected with a value error.
pub proof fn lemma_nonfinite_float_error(bits: u64)
    requires
        !float_bits_finite(bits),
    ensures
        enc_res(HostView::FloatBits(bits)) == Err::<CanonicalView, Error>(Error::NonFiniteFloat),
        Error::NonFiniteFloat.kind_view() == ErrorKind::ValueError,
{
}

/// Nothing that encodes holds a non-finite floating-point value; so encoding
/// any host value holding one fails.
pub proof fn lemma_nonfinite_float_rejected(h: HostView)
    requires
        has_nonfinite_float(h),
    ensures
        enc_res(h) is Err,
{
    if enc_res(h) is Ok {
        lemma_encode_ok_finite(h);
    }
}

/// Whatever encodes is free of non-finite floating-point values.
pub proof fn lemma_encode_ok_finite(h: HostView)
    requires
        enc_res(h) is Ok,
    ensures
        !has_nonfinite_float(h),
    decreases h,
{
    match h {
        HostView::List(items) => {
            lemma_enc_items(items);
            assert forall|i: int|
                0 <= i < items.len() implies !has_nonfinite_float(#[trigger] items[i]) by {
                lemma_encode_ok_finite(items[i]);
            }
        },
        HostView::Tuple(items) => {
            lemma_enc_items(items);
            assert forall|i: int|
                0 <= i < items.len() implies !has_nonfinite_float(#[trigger] items[i]) by {
                lemma_encode_ok_finite(items[i]);
            }
        },
        HostView::Dict(pairs) => {
            lemma_enc_entries(pairs, Error::NonStringKey);
            assert forall|i: int|
                0 <= i < pairs.len() implies !has_nonfinite_float((#[trigger] pairs[i]).0)
                && !has_nonfinite_float(pairs[i].1) by {
                assert(entry_ok(pairs[i]));
                assert(pairs[i].0 is Str);
                lemma_encode_ok_finite(pairs[i].1);
            }
        },
        _ => {
        },
    }
}

/// A mapping whose first failing entry has a non-string key fails with a
/// type error, and no partial object is produced: the whole encoding is an
/// error.
pub proof fn lemma_non_string_key(pairs: Seq<(HostView, HostView)>, k: int)
    requires
        0 <= k < pairs.len(),
        forall|j: int| 0 <= j < k ==> entry_ok(#[trigger] pairs[j]),
        !(pairs[k].0 is Str),
    ensures
        enc_res(HostView::Dict(pairs)) == Err::<CanonicalView, Error>(Error::NonStringKey),
        Error::NonStringKey.kind_view() == ErrorKind::TypeError,
{
    assert(!entry_ok(pairs[k]));
    assert(entry_err(pairs[k], Error::NonStringKey) == Error::NonStringKey);
    lemma_enc_entries_first_err(pairs, Error::NonStringKey, k);
}

/// Decoding any of the callable/pattern values fails with a type error,
/// whatever the sentinel-slot state.
pub proof fn lemma_decode_callable_rejected(init: bool)
    ensures
        dec_res(CanonicalView::Regex, init) == Err::<HostView, Error>(Error::UnsupportedValue),
        dec_res(CanonicalView::Lambda, init) == Err::<HostView, Error>(Error::UnsupportedValue),
        dec_res(CanonicalView::NativeFn, init) == Err::<HostView, Error>(Error::UnsupportedValue),
        dec_res(CanonicalView::Transformer, init) == Err::<HostView, Error>(
            Error::UnsupportedValue,
        ),
        Error::UnsupportedValue.kind_view() == ErrorKind::TypeError,
{
}

/// Decoding `Undefined` yields the sentinel once the slot is initialized,
/// and fails with a value error before: the sentinel is never confused with
/// null.
pub proof fn lemma_sentinel_decode()
    ensures
        dec_res(CanonicalView::Undefined, true) == Ok::<HostView, Error>(HostView::Sentinel),
        dec_res(CanonicalView::Undefined, false) == Err::<HostView, Error>(
            Error::SentinelUninitialized,
        ),
        dec_res(CanonicalView::Null, true) == Ok::<HostView, Error>(HostView::Null),
        HostView::Sentinel != HostView::Null,
        Error::SentinelUninitialized.kind_view() == ErrorKind::ValueError,
{
}

/// The input determination of an evaluation call: no given input and the
/// sentinel both bind no input at all, while an explicit host null binds a
/// JSON null.
pub proof fn lemma_input_binding(bindings: Option<Seq<(HostView, HostView)>>)
    requires
        (match bindings {
            None => true,
            Some(pairs) => enc_entries(pairs, Error::NonStringBindingKey) is Ok,
        }),
    ensures
        prep_res(Some(HostView::Sentinel), bindings) is Ok,
        prep_res(Some(HostView::Sentinel), bindings)->Ok_0.0 is None,
        prep_res(None, bindings) is Ok,
        prep_res(None, bindings)->Ok_0.0 is None,
        prep_res(Some(HostView::Null), bindings) is Ok,
        prep_res(Some(HostView::Null), bindings)->Ok_0.0 == Some(CanonicalView::Null),
{
    assert(enc_input(HostView::Sentinel) == Ok::<Option<CanonicalView>, Error>(None));
    assert(enc_res(HostView::Null) == Ok::<CanonicalView, Error>(CanonicalView::Null));
    assert(enc_input(HostView::Null) == Ok::<Option<CanonicalView>, Error>(
        Some(CanonicalView::Null),
    ));
}

} // verus!
