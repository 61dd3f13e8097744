use vstd::prelude::*;

verus! {

use crate::codec::DecodeError;
use crate::dispatch::Inbound;
use crate::dispatch::Step;
use crate::dispatch::response_outcome;
use crate::frame::Frame;
use crate::frame::FrameView;
use crate::frame::enc_frame;
use crate::frame::encode_frame;
use crate::table::CallOutcome;
use crate::table::CloseReason;
use crate::table::CorrelationTable;
use crate::table::Delivery;
use crate::value::Value;
use crate::value::elems_view;
use crate::value::len_limit;
use crate::value::wf_value;

/// The caller-facing state of one session: the correlation table with its
/// identifier generator. The embedding application shares one `Session`
/// between all call sites and the dispatch loop, guarded by a
/// mutual-exclusion discipline; the write half of the stream stays with
/// the application, which sends the frame bytes this type prepares.
pub struct Session {
    pub(crate) table: CorrelationTable,
}

impl Session {
    /// The identifiers of the calls awaiting a response.
    pub closed spec fn pending(self) -> Set<u64> {
        self.table@
    }

    /// The pending identifiers in registration order.
    pub closed spec fn ids(self) -> Seq<u64> {
        self.table.ids()
    }

    /// Well-formed session: no two pending calls share an identifier.
    pub closed spec fn wf(self) -> bool {
        self.table.wf()
    }

    /// A fresh session with nothing pending.
    pub fn new() -> (s: Self)
        ensures
            s.wf(),
            s.pending() == Set::<u64>::empty(),
            s.ids() == Seq::<u64>::empty(),
    {
        Session { table: CorrelationTable::new() }
    }

    /// Whether a call with this identifier is still awaiting its response.
    pub fn is_pending(&self, id: u64) -> (r: bool)
        ensures
            r == self.pending().contains(id),
    {
        self.table.is_pending(id)
    }

    /// Prepares an outbound call: allocates a fresh identifier, registers
    /// it as pending, and encodes the `Call` frame. The caller writes the
    /// returned bytes to the stream in one piece — frames are never
    /// interleaved — and then awaits the identifier's resolution.
    pub fn prepare_call(&mut self, method: Vec<u8>, params: Vec<Value>) -> (r: (u64, Vec<u8>))
        requires
            old(self).wf(),
            old(self).ids().len() < u64::MAX,
            method@.len() < len_limit(),
            params@.len() < len_limit(),
            forall|k: int| 0 <= k < params@.len() ==> wf_value(#[trigger] params@[k]@),
        ensures
            final(self).wf(),
            !old(self).pending().contains(r.0),
            final(self).pending() == old(self).pending().insert(r.0),
            final(self).ids() == old(self).ids().push(r.0),
            r.1@ == enc_frame(
                (FrameView::Call { id: r.0, method: method@, params: elems_view(params@) }),
            ),
    {
        let id = self.table.allocate();
        self.table.register(id);
        let ghost m = method@;
        let ghost ps = params@;
        let f = Frame::Call { id, method, params };
        proof {
            crate::value::lemma_elems_view(ps);
        }
        let bytes = encode_frame(f);
        (id, bytes)
    }

    /// Prepares a notification: encodes an `Event` frame.
    ///
    /// An `Event` carries no identifier, so nothing is registered as
    /// pending, no response is ever awaited for it, and the session state
    /// is untouched — only writing the returned bytes can fail, and that
    /// failure is the application's to report.
    pub fn prepare_notify(&self, method: Vec<u8>, params: Vec<Value>) -> (r: Vec<u8>)
        requires
            method@.len() < len_limit(),
            params@.len() < len_limit(),
            forall|k: int| 0 <= k < params@.len() ==> wf_value(#[trigger] params@[k]@),
        ensures
            r@ == enc_frame((FrameView::Event { method: method@, params: elems_view(params@) })),
    {
        let ghost ps = params@;
        let f = Frame::Event { method, params };
        proof {
            crate::value::lemma_elems_view(ps);
        }
        encode_frame(f)
    }

    /// One step of the dispatch loop: routes one inbound item.
    ///
    /// A `Response` goes to the correlation table: the pending caller with its
    /// identifier receives exactly its payload, and an unmatched response is
    /// discarded without touching the session. A `Call` or `Event` from the
    /// remote side goes to the handler and leaves the table alone. End of
    /// input, a decode failure and a shutdown request all end the loop after
    /// fulfilling every still-pending call with a session-closed outcome, and
    /// only the decode failure is reported as the loop's own failure.
    pub fn dispatch(&mut self, inbound: Inbound) -> (step: Step)
        requires
            old(self).wf(),
        ensures
            final(self).wf(),
            match inbound {
                Inbound::Frame(f) => match f {
                    Frame::Response { id, error, result } => {
                        &&& old(self).pending().contains(id) ==> step == Step::Deliver(
                            (Delivery { id, outcome: response_outcome(error, result) }),
                        ) && final(self).pending() == old(self).pending().remove(id)
                        &&& !old(self).pending().contains(id) ==> step == Step::Orphan(id)
                            && *final(self) == *old(self)
                    },
                    Frame::Call { id, method, params } => step == (Step::HandleCall {
                        id,
                        method,
                        params,
                    }) && *final(self) == *old(self),
                    Frame::Event { method, params } => step == (Step::HandleEvent { method, params })
                        && *final(self) == *old(self),
                },
                Inbound::Eof => step matches Step::Stop { failure, abandoned } && failure is None
                    && abandoned@ == old(self).ids().map_values(
                    |i: u64| (Delivery { id: i, outcome: CallOutcome::SessionClosed(CloseReason::Eof) }),
                ) && final(self).pending() == Set::<u64>::empty(),
                Inbound::Malformed => step matches Step::Stop { failure, abandoned } && failure
                    == Some(DecodeError) && abandoned@ == old(self).ids().map_values(
                    |i: u64| (Delivery {
                        id: i,
                        outcome: CallOutcome::SessionClosed(CloseReason::Malformed),
                    }),
                ) && final(self).pending() == Set::<u64>::empty(),
                Inbound::Shutdown => step matches Step::Stop { failure, abandoned } && failure is None
                    && abandoned@ == old(self).ids().map_values(
                    |i: u64| (Delivery {
                        id: i,
                        outcome: CallOutcome::SessionClosed(CloseReason::Shutdown),
                    }),
                ) && final(self).pending() == Set::<u64>::empty(),
            },
    {
        match inbound {
            Inbound::Frame(f) => match f {
                Frame::Response { id, error, result } => {
                    let outcome = match error {
                        Value::Nil => CallOutcome::Success(result),
                        e => CallOutcome::RemoteError(e),
                    };
                    match self.table.resolve(id, outcome) {
                        Some(d) => Step::Deliver(d),
                        None => Step::Orphan(id),
                    }
                },
                Frame::Call { id, method, params } => Step::HandleCall { id, method, params },
                Frame::Event { method, params } => Step::HandleEvent { method, params },
            },
            Inbound::Eof => Step::Stop {
                failure: None,
                abandoned: self.table.abandon_all(CloseReason::Eof),
            },
            Inbound::Malformed => Step::Stop {
                failure: Some(DecodeError),
                abandoned: self.table.abandon_all(CloseReason::Malformed),
            },
            Inbound::Shutdown => Step::Stop {
                failure: None,
                abandoned: self.table.abandon_all(CloseReason::Shutdown),
            },
        }
    }
}

} // verus!
