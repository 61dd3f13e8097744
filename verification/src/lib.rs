//! A transport-agnostic session layer for a bidirectional, multiplexed
//! remote-call protocol over one duplex byte stream: a self-describing
//! binary codec for call, response and event frames; a correlation table
//! that matches responses to concurrently pending calls by identifier
//! alone; the dispatch step that routes every inbound frame; and the
//! session state behind `call` and `notify`. The embedding application
//! supplies the stream, runs the dispatch loop, and implements the
//! handler for traffic the remote side initiates.

use vstd::prelude::*;

pub mod codec;
pub mod dispatch;
pub mod frame;
pub mod session;
pub mod table;
pub mod value;

verus! {

use crate::value::Value;

/// Conversion from a wire [`Value`] into a native type. Generated per-method
/// wrappers use it to turn a call's raw result into the type they promise.
pub trait FromVal<V>: Sized {
    /// What the conversion yields for a given input.
    spec fn from_val_spec(v: V) -> Self;

    fn from_val(v: V) -> (r: Self)
        ensures
            r == Self::from_val_spec(v),
    ;
}

impl FromVal<Value> for Value {
    open spec fn from_val_spec(v: Value) -> Value {
        v
    }

    fn from_val(v: Value) -> (r: Value) {
        v
    }
}

/// Converts a raw call result to the native type a typed wrapper promises.
pub fn map_result<T: FromVal<Value>>(val: Value) -> (r: T)
    ensures
        r == T::from_val_spec(val),
{
    T::from_val(val)
}

} // verus!
