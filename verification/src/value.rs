use vstd::prelude::*;

verus! {

/// Mathematical model of a wire value: what a [`Value`] denotes, with byte
/// strings as `Seq<u8>` and arrays as `Seq<ValueView>`.
pub enum ValueView {
    Nil,
    Bool(bool),
    /// A non-negative integer. Canonical values never put a non-negative
    /// integer in `Int`.
    Uint(u64),
    /// A strictly negative integer.
    Int(i64),
    /// The UTF-8 bytes of a string.
    Str(Seq<u8>),
    /// Raw binary data.
    Bin(Seq<u8>),
    Array(Seq<ValueView>),
}

/// A value of the self-describing wire encoding used for frames: nil,
/// booleans, integers, strings (as their UTF-8 bytes), binary data, and
/// arrays of values.
///
/// Non-negative integers are always represented as `Uint`; `Int` holds the
/// strictly negative ones. [`Value::wf`] captures this together with the
/// length limits of the encoding.
#[derive(Debug, PartialEq, Eq)]
pub enum Value {
    Nil,
    Bool(bool),
    Uint(u64),
    Int(i64),
    Str(Vec<u8>),
    Bin(Vec<u8>),
    Array(Vec<Value>),
}

impl View for Value {
    type V = ValueView;

    open spec fn view(&self) -> ValueView {
        value_view(*self)
    }
}

/// What a [`Value`] denotes.
pub open spec fn value_view(v: Value) -> ValueView
    decreases v, 0int,
{
    match v {
        Value::Nil => ValueView::Nil,
        Value::Bool(b) => ValueView::Bool(b),
        Value::Uint(n) => ValueView::Uint(n),
        Value::Int(i) => ValueView::Int(i),
        Value::Str(s) => ValueView::Str(s@),
        Value::Bin(b) => ValueView::Bin(b@),
        Value::Array(a) => ValueView::Array(elems_view(a@)),
    }
}

/// The views of a sequence of values, element by element.
pub open spec fn elems_view(s: Seq<Value>) -> Seq<ValueView>
    decreases s, 1int,
{
    if s.len() == 0 {
        Seq::empty()
    } else {
        elems_view(s.drop_last()).push(value_view(s.last()))
    }
}

/// `elems_view` is the pointwise view: same length, and the element at
/// each position is the view of the value there.
pub proof fn lemma_elems_view(s: Seq<Value>)
    ensures
        elems_view(s).len() == s.len(),
        forall|k: int| 0 <= k < s.len() ==> elems_view(s)[k] == s[k]@,
    decreases s.len(),
{
    if s.len() > 0 {
        lemma_elems_view(s.drop_last());
        assert forall|k: int| 0 <= k < s.len() implies elems_view(s)[k] == s[k]@ by {
            if k < s.len() - 1 {
                assert(elems_view(s)[k] == elems_view(s.drop_last())[k]);
                assert(s.drop_last()[k] == s[k]);
            }
        }
    }
}

/// Exclusive upper bound on string, binary and array lengths: the encoding
/// stores a length in at most four bytes.
pub open spec fn len_limit() -> int {
    0x1_0000_0000
}

/// A well-formed wire value: negative integers only in `Int`, and every
/// length small enough for the encoding's four-byte length fields.
pub open spec fn wf_value(v: ValueView) -> bool
    decreases v,
{
    match v {
        ValueView::Nil => true,
        ValueView::Bool(_) => true,
        ValueView::Uint(_) => true,
        ValueView::Int(i) => i < 0,
        ValueView::Str(s) => s.len() < len_limit(),
        ValueView::Bin(b) => b.len() < len_limit(),
        ValueView::Array(a) => a.len() < len_limit() && (forall|k: int|
            0 <= k < a.len() ==> wf_value(#[trigger] a[k])),
    }
}

} // verus!
