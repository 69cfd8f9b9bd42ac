//! The host side of the boundary: the shapes into which a dynamic host value
//! is classified before encoding, and into which engine results are decoded.
//!
//! A host floating-point value is carried as its IEEE 754 bit pattern, so the
//! boundary can state finiteness exactly without computing on floats.

use vstd::prelude::*;

verus! {

/// A classified host value.
#[derive(Debug, PartialEq, Eq)]
pub enum HostValue {
    /// The host's none/null value.
    Null,
    Bool(bool),
    SignedInt(i64),
    /// An unsigned integer wider than signed 64-bit but exactly representable
    /// as unsigned 64-bit.
    UnsignedInt(u64),
    /// A floating-point value, as its IEEE 754 double-precision bit pattern.
    FloatBits(u64),
    Str(String),
    /// A list-like ordered sequence.
    List(Vec<HostValue>),
    /// A fixed tuple-like ordered sequence.
    Tuple(Vec<HostValue>),
    /// A key-value mapping in its native entry order; keys may be any host
    /// value, but only string keys can be encoded.
    Dict(Vec<(HostValue, HostValue)>),
    /// The process-wide "absent/undefined" marker.
    Sentinel,
}

/// The mathematical model of a host value.
#[verifier::ext_equal]
pub enum HostView {
    Null,
    Bool(bool),
    SignedInt(i64),
    UnsignedInt(u64),
    FloatBits(u64),
    Str(Seq<char>),
    List(Seq<HostView>),
    Tuple(Seq<HostView>),
    Dict(Seq<(HostView, HostView)>),
    Sentinel,
}

impl View for HostValue {
    type V = HostView;

    open spec fn view(&self) -> HostView
        decreases self,
    {
        match self {
            HostValue::Null => HostView::Null,
            HostValue::Bool(b) => HostView::Bool(*b),
            HostValue::SignedInt(i) => HostView::SignedInt(*i),
            HostValue::UnsignedInt(u) => HostView::UnsignedInt(*u),
            HostValue::FloatBits(bits) => HostView::FloatBits(*bits),
            HostValue::Str(s) => HostView::Str(s@),
            HostValue::List(items) => HostView::List(host_views(items@)),
            HostValue::Tuple(items) => HostView::Tuple(host_views(items@)),
            HostValue::Dict(pairs) => HostView::Dict(host_pair_views(pairs@)),
            HostValue::Sentinel => HostView::Sentinel,
        }
    }
}

/// The models of a sequence of host values.
pub open spec fn host_views(s: Seq<HostValue>) -> Seq<HostView>
    decreases s,
{
    if s.len() == 0 {
        Seq::empty()
    } else {
        host_views(s.drop_last()).push(s.last()@)
    }
}

/// The models of a sequence of mapping entries.
pub open spec fn host_pair_views(s: Seq<(HostValue, HostValue)>) -> Seq<(HostView, HostView)>
    decreases s,
{
    if s.len() == 0 {
        Seq::empty()
    } else {
        host_pair_views(s.drop_last()).push((s.last().0@, s.last().1@))
    }
}

/// `host_views` is the element-wise model of its argument.
pub proof fn lemma_host_views(s: Seq<HostValue>)
    ensures
        host_views(s).len() == s.len(),
        forall|i: int| 0 <= i < s.len() ==> host_views(s)[i] == #[trigger] s[i]@,
    decreases s.len(),
{
    if s.len() > 0 {
        lemma_host_views(s.drop_last());
        assert(host_views(s) == host_views(s.drop_last()).push(s.last()@));
        assert forall|i: int| 0 <= i < s.len() implies host_views(s)[i] == #[trigger] s[i]@ by {
            if i < s.len() - 1 {
                assert(s.drop_last()[i] == s[i]);
                assert(host_views(s.drop_last())[i] == s.drop_last()[i]@);
            }
        }
    }
}

/// `host_pair_views` is the entry-wise model of its argument.
pub proof fn lemma_host_pair_views(s: Seq<(HostValue, HostValue)>)
    ensures
        host_pair_views(s).len() == s.len(),
        forall|i: int|
            0 <= i < s.len() ==> host_pair_views(s)[i] == ((#[trigger] s[i]).0@, s[i].1@),
    decreases s.len(),
{
    if s.len() > 0 {
        lemma_host_pair_views(s.drop_last());
        assert(host_pair_views(s) == host_pair_views(s.drop_last()).push((s.last().0@, s.last().1@)));
        assert forall|i: int|
            0 <= i < s.len() implies host_pair_views(s)[i] == ((#[trigger] s[i]).0@, s[i].1@) by {
            if i < s.len() - 1 {
                assert(s.drop_last()[i] == s[i]);
                assert(host_pair_views(s.drop_last())[i] == (
                    s.drop_last()[i].0@,
                    s.drop_last()[i].1@,
                ));
            }
        }
    }
}

/// Structural equivalence of host values: equality everywhere, except that
/// list-like and tuple-like sequences with equivalent elements are treated
/// alike, since both encode to the same canonical array.
pub open spec fn similar(a: HostView, b: HostView) -> bool
    decreases a,
{
    match (a, b) {
        (HostView::Null, HostView::Null) => true,
        (HostView::Bool(x), HostView::Bool(y)) => x == y,
        (HostView::SignedInt(x), HostView::SignedInt(y)) => x == y,
        (HostView::UnsignedInt(x), HostView::UnsignedInt(y)) => x == y,
        (HostView::FloatBits(x), HostView::FloatBits(y)) => x == y,
        (HostView::Str(x), HostView::Str(y)) => x == y,
        (HostView::List(x), HostView::List(y)) => similar_seqs(x, y),
        (HostView::List(x), HostView::Tuple(y)) => similar_seqs(x, y),
        (HostView::Tuple(x), HostView::List(y)) => similar_seqs(x, y),
        (HostView::Tuple(x), HostView::Tuple(y)) => similar_seqs(x, y),
        (HostView::Dict(x), HostView::Dict(y)) => similar_pairs(x, y),
        (HostView::Sentinel, HostView::Sentinel) => true,
        _ => false,
    }
}

/// Element-wise structural equivalence of two sequences of host values.
pub open spec fn similar_seqs(x: Seq<HostView>, y: Seq<HostView>) -> bool
    decreases x,
{
    x.len() == y.len() && forall|i: int|
        0 <= i < x.len() ==> similar(#[trigger] x[i], y[i])
}

/// Entry-wise structural equivalence of two sequences of mapping entries.
pub open spec fn similar_pairs(x: Seq<(HostView, HostView)>, y: Seq<(HostView, HostView)>) -> bool
    decreases x,
{
    x.len() == y.len() && forall|i: int|
        0 <= i < x.len() ==> similar((#[trigger] x[i]).0, y[i].0) && similar(x[i].1, y[i].1)
}

} // verus!
