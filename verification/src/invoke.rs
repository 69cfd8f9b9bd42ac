//! The evaluation invoker: assembling one evaluation call for the external
//! compile/evaluate collaborator, and turning its outcome back into a host
//! value.
//!
//! Construction is cheap: an expression stores only its source, and
//! compilation is deferred to evaluation time. Per call, the invoker builds
//! the bindings map (string keys required, values encoded), determines the
//! input (absent when none was given or when the given input is the
//! sentinel, null only when the host passed null explicitly), and afterwards
//! wraps a collaborator failure as a value error with the message preserved
//! verbatim, or decodes the canonical result.

use vstd::prelude::*;

use crate::decode::{dec_res, dec_result_view, decode_value};
use crate::encode::{
    enc_entries, enc_input, encode_input, entry_ok, entry_err, lemma_enc_entries,
    lemma_enc_entries_first_err, encode_value, enc_res,
};
use crate::errors::Error;
use crate::host::{host_pair_views, lemma_host_pair_views, HostValue, HostView};
use crate::sentinel::SentinelRegistry;
use crate::value::{object_views, wf, CanonicalValue, CanonicalView};

verus! {

/// An expression handed to the external collaborator: held as source,
/// compiled anew by each evaluation call.
pub struct Jsonata {
    expr: String,
}

impl Jsonata {
    /// The expression source.
    pub closed spec fn expr_view(self) -> Seq<char> {
        self.expr@
    }

    pub fn new(expr: String) -> (r: Self)
        ensures
            r.expr_view() == expr@,
    {
        Jsonata { expr }
    }

    /// The source to hand to the external compile step.
    pub fn source(&self) -> (r: &str)
        ensures
            r@ == self.expr_view(),
    {
        self.expr.as_str()
    }
}

/// One assembled evaluation call: the encoded input, if any is bound, and
/// the encoded bindings, owned by the invoker for the duration of the call.
#[derive(Debug)]
pub struct EvalRequest {
    pub input: Option<CanonicalValue>,
    pub bindings: Vec<(String, CanonicalValue)>,
}

impl View for EvalRequest {
    type V = (Option<CanonicalView>, Seq<(Seq<char>, CanonicalView)>);

    open spec fn view(&self) -> Self::V {
        (
            match self.input {
                Some(c) => Some(c@),
                None => None,
            },
            object_views(self.bindings@),
        )
    }
}

/// The model of the optional input argument.
pub open spec fn input_view(input: Option<&HostValue>) -> Option<HostView> {
    match input {
        Some(h) => Some(h@),
        None => None,
    }
}

/// The model of the optional bindings argument.
pub open spec fn bindings_view(bindings: Option<&Vec<(HostValue, HostValue)>>) -> Option<
    Seq<(HostView, HostView)>,
> {
    match bindings {
        Some(pairs) => Some(host_pair_views(pairs@)),
        None => None,
    }
}

/// What assembling one evaluation call yields: the bindings are built first
/// (each key must be a string, each value must encode), then the input is
/// determined; the first error aborts the assembly.
pub open spec fn prep_res(input: Option<HostView>, bindings: Option<Seq<(HostView, HostView)>>)
    -> Result<(Option<CanonicalView>, Seq<(Seq<char>, CanonicalView)>), Error> {
    let b = match bindings {
        None => Ok(Seq::empty()),
        Some(pairs) => enc_entries(pairs, Error::NonStringBindingKey),
    };
    match b {
        Err(e) => Err(e),
        Ok(bs) => match input {
            None => Ok((None, bs)),
            Some(h) => match enc_input(h) {
                Err(e) => Err(e),
                Ok(ci) => Ok((ci, bs)),
            },
        },
    }
}

/// The model of an assembly result.
pub open spec fn prep_result_view(r: Result<EvalRequest, Error>) -> Result<
    (Option<CanonicalView>, Seq<(Seq<char>, CanonicalView)>),
    Error,
> {
    match r {
        Ok(req) => Ok(req@),
        Err(e) => Err(e),
    }
}

/// Assemble one evaluation call from the host's arguments.
///
/// An absent input, or the sentinel as input, binds no input at all; an
/// explicit host null binds a JSON null. Bindings keys must be strings and
/// bindings values are encoded, in entry order, failing fast.
pub fn prepare_request(input: Option<&HostValue>, bindings: Option<&Vec<(HostValue, HostValue)>>)
    -> (r: Result<EvalRequest, Error>)
    ensures
        prep_result_view(r) == prep_res(input_view(input), bindings_view(bindings)),
{
    let bindings_owned: Vec<(String, CanonicalValue)> = match bindings {
        None => Vec::new(),
        Some(pairs) => match encode_bindings(pairs) {
            Ok(v) => v,
            Err(e) => {
                return Err(e);
            },
        },
    };
    proof {
        if bindings is None {
            assert(object_views(bindings_owned@) =~= Seq::<(Seq<char>, CanonicalView)>::empty());
        }
    }
    let input_value: Option<CanonicalValue> = match input {
        None => None,
        Some(h) => match encode_input(h) {
            Ok(ci) => ci,
            Err(e) => {
                return Err(e);
            },
        },
    };
    Ok(EvalRequest { input: input_value, bindings: bindings_owned })
}

/// Encode the bindings mapping in entry order, requiring string keys and
/// failing fast; a non-string key is the bindings' own error.
fn encode_bindings(pairs: &Vec<(HostValue, HostValue)>) -> (r: Result<
    Vec<(String, CanonicalValue)>,
    Error,
>)
    ensures
        r is Ok ==> enc_entries(host_pair_views(pairs@), Error::NonStringBindingKey) == Ok::<
            Seq<(Seq<char>, CanonicalView)>,
            Error,
        >(object_views(r->Ok_0@)),
        r is Err ==> enc_entries(host_pair_views(pairs@), Error::NonStringBindingKey) == Err::<
            Seq<(Seq<char>, CanonicalView)>,
            Error,
        >(r->Err_0),
{
    let ghost pv = host_pair_views(pairs@);
    let mut out: Vec<(String, CanonicalValue)> = Vec::new();
    let mut idx: usize = 0;
    proof {
        lemma_host_pair_views(pairs@);
        assert(pv.take(0) =~= Seq::<(HostView, HostView)>::empty());
        assert(enc_entries(pv.take(0), Error::NonStringBindingKey) == Ok::<
            Seq<(Seq<char>, CanonicalView)>,
            Error,
        >(Seq::empty()));
        assert(object_views(out@) =~= Seq::<(Seq<char>, CanonicalView)>::empty());
    }
    while idx < pairs.len()
        invariant
            idx <= pairs@.len(),
            out@.len() == idx,
            pv == host_pair_views(pairs@),
            pv.len() == pairs@.len(),
            forall|i: int|
                0 <= i < pairs@.len() ==> pv[i] == ((#[trigger] pairs@[i]).0@, pairs@[i].1@),
            enc_entries(pv.take(idx as int), Error::NonStringBindingKey) == Ok::<
                Seq<(Seq<char>, CanonicalView)>,
                Error,
            >(object_views(out@)),
        decreases pairs@.len() - idx,
    {
        let key: String = match &pairs[idx].0 {
            HostValue::Str(k) => k.clone(),
            _ => {
                proof {
                    lemma_enc_entries(pv.take(idx as int), Error::NonStringBindingKey);
                    assert(forall|j: int|
                        0 <= j < idx ==> pv.take(idx as int)[j] == #[trigger] pv[j]);
                    assert(forall|j: int| 0 <= j < idx ==> entry_ok(#[trigger] pv[j]));
                    assert(!(pv[idx as int].0 is Str));
                    assert(!entry_ok(pv[idx as int]));
                    assert(entry_err(pv[idx as int], Error::NonStringBindingKey)
                        == Error::NonStringBindingKey);
                    lemma_enc_entries_first_err(pv, Error::NonStringBindingKey, idx as int);
                }
                return Err(Error::NonStringBindingKey);
            },
        };
        match encode_value(&pairs[idx].1) {
            Ok(c) => {
                proof {
                    let t = pv.take(idx as int + 1);
                    assert(t.drop_last() =~= pv.take(idx as int));
                    assert(t.last() == pv[idx as int]);
                    assert(pv[idx as int].0 is Str && pv[idx as int].0->Str_0 == key@);
                    assert(enc_res(pv[idx as int].1) == Ok::<CanonicalView, Error>(c@));
                    assert(enc_entries(t, Error::NonStringBindingKey) == Ok::<
                        Seq<(Seq<char>, CanonicalView)>,
                        Error,
                    >(object_views(out@).push((key@, c@))));
                    assert(out@.push((key, c)).drop_last() =~= out@);
                    assert(object_views(out@.push((key, c))) == object_views(out@).push(
                        (key@, c@),
                    ));
                }
                out.push((key, c));
                idx = idx + 1;
            },
            Err(e) => {
                proof {
                    lemma_enc_entries(pv.take(idx as int), Error::NonStringBindingKey);
                    assert(forall|j: int|
                        0 <= j < idx ==> pv.take(idx as int)[j] == #[trigger] pv[j]);
                    assert(forall|j: int| 0 <= j < idx ==> entry_ok(#[trigger] pv[j]));
                    assert(enc_res(pv[idx as int].1) == Err::<CanonicalView, Error>(e));
                    assert(!entry_ok(pv[idx as int]));
                    assert(entry_err(pv[idx as int], Error::NonStringBindingKey) == e);
                    lemma_enc_entries_first_err(pv, Error::NonStringBindingKey, idx as int);
                }
                return Err(e);
            },
        }
    }
    proof {
        assert(pv.take(pairs@.len() as int) =~= pv);
    }
    Ok(out)
}

/// What turning the engine's outcome into a host value yields: a failure
/// message becomes a value error carrying that message verbatim; a canonical
/// result is decoded under the given sentinel-slot state.
pub open spec fn finish_res(outcome: Result<CanonicalView, String>, init: bool) -> Result<
    HostView,
    Error,
> {
    match outcome {
        Err(msg) => Err(Error::Engine(msg)),
        Ok(c) => dec_res(c, init),
    }
}

/// The model of the engine's outcome.
pub open spec fn outcome_view(outcome: Result<CanonicalValue, String>) -> Result<
    CanonicalView,
    String,
> {
    match outcome {
        Ok(c) => Ok(c@),
        Err(msg) => Err(msg),
    }
}

/// Turn the outcome of the external compile/evaluate collaborator into a
/// host value or an error of the boundary's taxonomy.
pub fn finish_evaluation(outcome: Result<CanonicalValue, String>, registry: &SentinelRegistry)
    -> (r: Result<HostValue, Error>)
    requires
        outcome is Ok ==> wf(outcome->Ok_0@),
    ensures
        dec_result_view(r) == finish_res(outcome_view(outcome), registry.is_initialized()),
{
    match outcome {
        Err(msg) => Err(Error::Engine(msg)),
        Ok(c) => decode_value(&c, registry),
    }
}

} // verus!
