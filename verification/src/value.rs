//! The canonical, JSON-shaped value model that the evaluation engine consumes
//! and produces. Only the first seven variants have a host representation;
//! the callable/pattern variants are engine-internal.

use vstd::prelude::*;

verus! {

/// A canonical number, preserving the engine's internal representation:
/// a signed integer, an unsigned integer wider than signed 64-bit, or a
/// floating-point value carried as its IEEE 754 bit pattern.
#[derive(Clone, Copy, Debug, PartialEq, Eq, Structural)]
pub enum Number {
    SignedInt(i64),
    UnsignedInt(u64),
    FloatBits(u64),
}

/// A lazily-indexed numeric sequence produced by the engine: the integers
/// `start`, `start + 1`, ..., `start + count - 1`. It is materialized
/// eagerly when decoded; it is never exposed to the host as a lazy object.
#[derive(Clone, Copy, Debug, PartialEq, Eq, Structural)]
pub struct RangeValue {
    pub start: i64,
    pub count: u32,
}

/// A canonical value: the tagged union all conversions target and source.
#[derive(Debug, PartialEq, Eq)]
pub enum CanonicalValue {
    Undefined,
    Null,
    Bool(bool),
    Number(Number),
    Str(String),
    Array(Vec<CanonicalValue>),
    Object(Vec<(String, CanonicalValue)>),
    Range(RangeValue),
    Regex,
    Lambda,
    NativeFn,
    Transformer,
}

/// The mathematical model of a canonical value.
#[verifier::ext_equal]
pub enum CanonicalView {
    Undefined,
    Null,
    Bool(bool),
    Number(Number),
    Str(Seq<char>),
    Array(Seq<CanonicalView>),
    Object(Seq<(Seq<char>, CanonicalView)>),
    Range(RangeValue),
    Regex,
    Lambda,
    NativeFn,
    Transformer,
}

impl View for CanonicalValue {
    type V = CanonicalView;

    open spec fn view(&self) -> CanonicalView
        decreases self,
    {
        match self {
            CanonicalValue::Undefined => CanonicalView::Undefined,
            CanonicalValue::Null => CanonicalView::Null,
            CanonicalValue::Bool(b) => CanonicalView::Bool(*b),
            CanonicalValue::Number(n) => CanonicalView::Number(*n),
            CanonicalValue::Str(s) => CanonicalView::Str(s@),
            CanonicalValue::Array(items) => CanonicalView::Array(canonical_views(items@)),
            CanonicalValue::Object(pairs) => CanonicalView::Object(object_views(pairs@)),
            CanonicalValue::Range(r) => CanonicalView::Range(*r),
            CanonicalValue::Regex => CanonicalView::Regex,
            CanonicalValue::Lambda => CanonicalView::Lambda,
            CanonicalValue::NativeFn => CanonicalView::NativeFn,
            CanonicalValue::Transformer => CanonicalView::Transformer,
        }
    }
}

/// The models of a sequence of canonical values.
pub open spec fn canonical_views(s: Seq<CanonicalValue>) -> Seq<CanonicalView>
    decreases s,
{
    if s.len() == 0 {
        Seq::empty()
    } else {
        canonical_views(s.drop_last()).push(s.last()@)
    }
}

/// The models of a sequence of object entries.
pub open spec fn object_views(s: Seq<(String, CanonicalValue)>) -> Seq<
    (Seq<char>, CanonicalView),
>
    decreases s,
{
    if s.len() == 0 {
        Seq::empty()
    } else {
        object_views(s.drop_last()).push((s.last().0@, s.last().1@))
    }
}

/// `canonical_views` is the element-wise model of its argument.
pub proof fn lemma_canonical_views(s: Seq<CanonicalValue>)
    ensures
        canonical_views(s).len() == s.len(),
        forall|i: int| 0 <= i < s.len() ==> canonical_views(s)[i] == #[trigger] s[i]@,
    decreases s.len(),
{
    if s.len() > 0 {
        lemma_canonical_views(s.drop_last());
        assert(canonical_views(s) == canonical_views(s.drop_last()).push(s.last()@));
        assert forall|i: int|
            0 <= i < s.len() implies canonical_views(s)[i] == #[trigger] s[i]@ by {
            if i < s.len() - 1 {
                assert(s.drop_last()[i] == s[i]);
                assert(canonical_views(s.drop_last())[i] == s.drop_last()[i]@);
            }
        }
    }
}

/// `object_views` is the entry-wise model of its argument.
pub proof fn lemma_object_views(s: Seq<(String, CanonicalValue)>)
    ensures
        object_views(s).len() == s.len(),
        forall|i: int|
            0 <= i < s.len() ==> object_views(s)[i] == ((#[trigger] s[i]).0@, s[i].1@),
    decreases s.len(),
{
    if s.len() > 0 {
        lemma_object_views(s.drop_last());
        assert(object_views(s) == object_views(s.drop_last()).push((s.last().0@, s.last().1@)));
        assert forall|i: int|
            0 <= i < s.len() implies object_views(s)[i] == ((#[trigger] s[i]).0@, s[i].1@) by {
            if i < s.len() - 1 {
                assert(s.drop_last()[i] == s[i]);
                assert(object_views(s.drop_last())[i] == (
                    s.drop_last()[i].0@,
                    s.drop_last()[i].1@,
                ));
            }
        }
    }
}

/// Well-formedness of a canonical value: every range it contains stays within
/// the signed 64-bit integers when materialized index by index.
pub open spec fn wf(c: CanonicalView) -> bool
    decreases c,
{
    match c {
        CanonicalView::Array(items) => wf_seq(items),
        CanonicalView::Object(pairs) => wf_entries(pairs),
        CanonicalView::Range(r) => r.start + r.count <= i64::MAX + 1,
        _ => true,
    }
}

/// Well-formedness of every element of a sequence of canonical values.
pub open spec fn wf_seq(items: Seq<CanonicalView>) -> bool
    decreases items,
{
    forall|i: int| 0 <= i < items.len() ==> wf(#[trigger] items[i])
}

/// Well-formedness of every entry value of a canonical object.
pub open spec fn wf_entries(pairs: Seq<(Seq<char>, CanonicalView)>) -> bool
    decreases pairs,
{
    forall|i: int| 0 <= i < pairs.len() ==> wf((#[trigger] pairs[i]).1)
}

/// Decide well-formedness, so that callers outside the proofs can establish
/// it before decoding a value of unknown provenance.
pub fn well_formed(c: &CanonicalValue) -> (r: bool)
    ensures
        r == wf(c@),
    decreases c,
{
    match c {
        CanonicalValue::Array(items) => {
            let ok = well_formed_items(items);
            proof {
                lemma_canonical_views(items@);
                let cv = canonical_views(items@);
                assert(c@ == CanonicalView::Array(cv));
                if ok {
                    assert forall|j: int| 0 <= j < cv.len() implies wf(#[trigger] cv[j]) by {
                        assert(cv[j] == items@[j]@);
                    }
                    assert(wf_seq(cv));
                    assert(wf(c@));
                } else {
                    assert(exists|j: int| 0 <= j < items@.len() && !wf(#[trigger] items@[j]@));
                    let w = choose|j: int| 0 <= j < items@.len() && !wf(#[trigger] items@[j]@);
                    assert(cv[w] == items@[w]@);
                    assert(!wf(cv[w]));
                    if wf_seq(cv) {
                        assert(wf(cv[w]));
                    }
                    assert(!wf(c@));
                }
            }
            ok
        },
        CanonicalValue::Object(pairs) => {
            let ok = well_formed_entries(pairs);
            proof {
                lemma_object_views(pairs@);
                let ov = object_views(pairs@);
                assert(c@ == CanonicalView::Object(ov));
                if ok {
                    assert forall|j: int| 0 <= j < ov.len() implies wf((#[trigger] ov[j]).1) by {
                        assert(ov[j].1 == pairs@[j].1@);
                    }
                    assert(wf_entries(ov));
                    assert(wf(c@));
                } else {
                    assert(exists|j: int| 0 <= j < pairs@.len() && !wf((#[trigger] pairs@[j]).1@));
                    let w = choose|j: int|
                        0 <= j < pairs@.len() && !wf((#[trigger] pairs@[j]).1@);
                    assert(ov[w].1 == pairs@[w].1@);
                    assert(!wf(ov[w].1));
                    if wf_entries(ov) {
                        assert(wf(ov[w].1));
                    }
                    assert(!wf(c@));
                }
            }
            ok
        },
        CanonicalValue::Range(rv) => {
            if rv.count == 0 {
                true
            } else {
                rv.start <= i64::MAX - ((rv.count - 1) as i64)
            }
        },
        _ => true,
    }
}

/// Whether every element of a sequence is well formed.
fn well_formed_items(items: &Vec<CanonicalValue>) -> (r: bool)
    ensures
        r <==> (forall|j: int| 0 <= j < items@.len() ==> wf(#[trigger] items@[j]@)),
    decreases items,
{
    let mut idx: usize = 0;
    while idx < items.len()
        invariant
            idx <= items@.len(),
            forall|j: int| 0 <= j < idx ==> wf(#[trigger] items@[j]@),
        decreases items@.len() - idx,
    {
        if !well_formed(&items[idx]) {
            return false;
        }
        idx = idx + 1;
    }
    true
}

/// Whether every entry value of an object is well formed.
fn well_formed_entries(pairs: &Vec<(String, CanonicalValue)>) -> (r: bool)
    ensures
        r <==> (forall|j: int| 0 <= j < pairs@.len() ==> wf((#[trigger] pairs@[j]).1@)),
    decreases pairs,
{
    let mut idx: usize = 0;
    while idx < pairs.len()
        invariant
            idx <= pairs@.len(),
            forall|j: int| 0 <= j < idx ==> wf((#[trigger] pairs@[j]).1@),
        decreases pairs@.len() - idx,
    {
        if !well_formed(&pairs[idx].1) {
            return false;
        }
        idx = idx + 1;
    }
    true
}

} // verus!
