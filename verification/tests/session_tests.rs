use nvim_rs::codec::DecodeError;
use nvim_rs::dispatch::{Inbound, Step};
use nvim_rs::frame::{decode_frame, encode_frame, response_frame, Frame};
use nvim_rs::map_result;
use nvim_rs::session::Session;
use nvim_rs::table::{CallOutcome, CloseReason, CorrelationTable, Delivery};
use nvim_rs::value::Value;

#[test]
fn call_frame_bytes() {
    let f = Frame::Call {
        id: 1,
        method: b"ping".to_vec(),
        params: Vec::new(),
    };
    assert_eq!(
        encode_frame(f),
        vec![0x94, 0x00, 0x01, 0xa4, b'p', b'i', b'n', b'g', 0x90]
    );
}

#[test]
fn event_frame_bytes() {
    let f = Frame::Event {
        method: b"log".to_vec(),
        params: vec![Value::Str(b"hello".to_vec())],
    };
    let bytes = encode_frame(f);
    assert_eq!(bytes[0], 0x93);
    assert_eq!(bytes[1], 0x02);
    let (back, end) = decode_frame(&bytes, 0).unwrap();
    assert_eq!(end, bytes.len());
    assert_eq!(
        back,
        Frame::Event {
            method: b"log".to_vec(),
            params: vec![Value::Str(b"hello".to_vec())],
        }
    );
}

#[test]
fn frame_decode_rejects_wrong_shapes() {
    // An array of two elements is no frame.
    let bytes = vec![0x92, 0x00, 0x01];
    assert_eq!(decode_frame(&bytes, 0), Err(DecodeError));
    // Kind 9 names no frame shape.
    let bytes = vec![0x94, 0x09, 0x01, 0xc0, 0xc0];
    assert_eq!(decode_frame(&bytes, 0), Err(DecodeError));
    // A bare integer is no frame.
    let bytes = vec![0x05];
    assert_eq!(decode_frame(&bytes, 0), Err(DecodeError));
}

#[test]
fn ping_call_receives_pong() {
    let mut s = Session::new();
    let (id, bytes) = s.prepare_call(b"ping".to_vec(), Vec::new());
    // The wire bytes are exactly the Call frame for this identifier.
    let (sent, _) = decode_frame(&bytes, 0).unwrap();
    assert_eq!(
        sent,
        Frame::Call {
            id,
            method: b"ping".to_vec(),
            params: Vec::new(),
        }
    );
    assert!(s.is_pending(id));
    // The remote answers [1, <same-id>, nil, "pong"].
    let step = s.dispatch(Inbound::Frame(Frame::Response {
        id,
        error: Value::Nil,
        result: Value::Str(b"pong".to_vec()),
    }));
    assert_eq!(
        step,
        Step::Deliver(Delivery {
            id,
            outcome: CallOutcome::Success(Value::Str(b"pong".to_vec())),
        })
    );
    assert!(!s.is_pending(id));
}

#[test]
fn remote_error_payload_reaches_only_its_caller() {
    let mut s = Session::new();
    let (id, _) = s.prepare_call(b"eval".to_vec(), vec![Value::Uint(1)]);
    let (other, _) = s.prepare_call(b"eval".to_vec(), vec![Value::Uint(2)]);
    let step = s.dispatch(Inbound::Frame(Frame::Response {
        id,
        error: Value::Str(b"boom".to_vec()),
        result: Value::Nil,
    }));
    assert_eq!(
        step,
        Step::Deliver(Delivery {
            id,
            outcome: CallOutcome::RemoteError(Value::Str(b"boom".to_vec())),
        })
    );
    assert!(s.is_pending(other));
}

#[test]
fn responses_correlate_out_of_order() {
    let mut s = Session::new();
    let (id1, _) = s.prepare_call(b"a".to_vec(), Vec::new());
    let (id2, _) = s.prepare_call(b"b".to_vec(), Vec::new());
    let (id3, _) = s.prepare_call(b"c".to_vec(), Vec::new());
    assert!(id1 != id2 && id2 != id3 && id1 != id3);
    // Responses arrive in reverse order; each caller still gets its own.
    for id in [id3, id1, id2] {
        let step = s.dispatch(Inbound::Frame(Frame::Response {
            id,
            error: Value::Nil,
            result: Value::Uint(id),
        }));
        assert_eq!(
            step,
            Step::Deliver(Delivery {
                id,
                outcome: CallOutcome::Success(Value::Uint(id)),
            })
        );
    }
}

#[test]
fn notify_produces_event_and_registers_nothing() {
    let mut s = Session::new();
    let (id, _) = s.prepare_call(b"x".to_vec(), Vec::new());
    let bytes = s.prepare_notify(b"log".to_vec(), vec![Value::Str(b"hello".to_vec())]);
    let (f, _) = decode_frame(&bytes, 0).unwrap();
    assert_eq!(
        f,
        Frame::Event {
            method: b"log".to_vec(),
            params: vec![Value::Str(b"hello".to_vec())],
        }
    );
    // Notifying left the pending set alone.
    assert!(s.is_pending(id));
}

#[test]
fn reverse_call_goes_to_handler_and_answers_with_same_id() {
    let mut s = Session::new();
    let step = s.dispatch(Inbound::Frame(Frame::Call {
        id: 7,
        method: b"ask".to_vec(),
        params: vec![Value::Uint(1), Value::Uint(2)],
    }));
    let (id, method, params) = match step {
        Step::HandleCall { id, method, params } => (id, method, params),
        other => panic!("expected a reverse call, got {:?}", other),
    };
    assert_eq!(id, 7);
    assert_eq!(method, b"ask".to_vec());
    assert_eq!(params, vec![Value::Uint(1), Value::Uint(2)]);
    // The handler's outcome goes back as [1, 7, <error-or-nil>, <result>].
    let reply = response_frame(id, Ok(Value::Uint(3)));
    let bytes = encode_frame(reply);
    let (back, _) = decode_frame(&bytes, 0).unwrap();
    assert_eq!(
        back,
        Frame::Response {
            id: 7,
            error: Value::Nil,
            result: Value::Uint(3),
        }
    );
    let reply = response_frame(9, Err(Value::Str(b"no".to_vec())));
    assert_eq!(
        reply,
        Frame::Response {
            id: 9,
            error: Value::Str(b"no".to_vec()),
            result: Value::Nil,
        }
    );
}

#[test]
fn inbound_event_goes_to_handler() {
    let mut s = Session::new();
    let step = s.dispatch(Inbound::Frame(Frame::Event {
        method: b"changed".to_vec(),
        params: Vec::new(),
    }));
    assert_eq!(
        step,
        Step::HandleEvent {
            method: b"changed".to_vec(),
            params: Vec::new(),
        }
    );
}

#[test]
fn orphan_response_is_discarded_without_harm() {
    let mut s = Session::new();
    let (id, _) = s.prepare_call(b"x".to_vec(), Vec::new());
    let step = s.dispatch(Inbound::Frame(Frame::Response {
        id: id + 1,
        error: Value::Nil,
        result: Value::Nil,
    }));
    assert_eq!(step, Step::Orphan(id + 1));
    assert!(s.is_pending(id));
}

#[test]
fn eof_abandons_every_pending_call_exactly_once() {
    let mut s = Session::new();
    let (id1, _) = s.prepare_call(b"a".to_vec(), Vec::new());
    let (id2, _) = s.prepare_call(b"b".to_vec(), Vec::new());
    let (id3, _) = s.prepare_call(b"c".to_vec(), Vec::new());
    let step = s.dispatch(Inbound::Eof);
    let (failure, abandoned) = match step {
        Step::Stop { failure, abandoned } => (failure, abandoned),
        other => panic!("expected the loop to stop, got {:?}", other),
    };
    assert_eq!(failure, None);
    let mut ids: Vec<u64> = abandoned.iter().map(|d| d.id).collect();
    ids.sort();
    let mut expected = vec![id1, id2, id3];
    expected.sort();
    assert_eq!(ids, expected);
    for d in &abandoned {
        assert_eq!(d.outcome, CallOutcome::SessionClosed(CloseReason::Eof));
    }
    // Nothing is pending afterwards: no success after closure.
    assert!(!s.is_pending(id1) && !s.is_pending(id2) && !s.is_pending(id3));
    let step = s.dispatch(Inbound::Frame(Frame::Response {
        id: id1,
        error: Value::Nil,
        result: Value::Uint(1),
    }));
    assert_eq!(step, Step::Orphan(id1));
}

#[test]
fn decode_failure_stops_the_loop_with_its_own_outcome() {
    let mut s = Session::new();
    let (id, _) = s.prepare_call(b"a".to_vec(), Vec::new());
    let step = s.dispatch(Inbound::Malformed);
    let (failure, abandoned) = match step {
        Step::Stop { failure, abandoned } => (failure, abandoned),
        other => panic!("expected the loop to stop, got {:?}", other),
    };
    assert_eq!(failure, Some(DecodeError));
    assert_eq!(abandoned.len(), 1);
    assert_eq!(abandoned[0].id, id);
    assert_eq!(
        abandoned[0].outcome,
        CallOutcome::SessionClosed(CloseReason::Malformed)
    );
}

#[test]
fn shutdown_stops_cleanly() {
    let mut s = Session::new();
    let (id, _) = s.prepare_call(b"a".to_vec(), Vec::new());
    let step = s.dispatch(Inbound::Shutdown);
    match step {
        Step::Stop { failure, abandoned } => {
            assert_eq!(failure, None);
            assert_eq!(abandoned.len(), 1);
            assert_eq!(
                abandoned[0],
                Delivery {
                    id,
                    outcome: CallOutcome::SessionClosed(CloseReason::Shutdown),
                }
            );
        }
        other => panic!("expected the loop to stop, got {:?}", other),
    }
}

#[test]
fn table_identifiers_stay_distinct() {
    let mut t = CorrelationTable::new();
    let mut seen: Vec<u64> = Vec::new();
    for _ in 0..100 {
        let id = t.allocate();
        assert!(!seen.contains(&id));
        t.register(id);
        seen.push(id);
    }
    // Resolving one identifier leaves the other ninety-nine pending.
    let victim = seen[42];
    let d = t.resolve(victim, CallOutcome::Success(Value::Nil));
    assert_eq!(
        d,
        Some(Delivery {
            id: victim,
            outcome: CallOutcome::Success(Value::Nil),
        })
    );
    assert_eq!(t.resolve(victim, CallOutcome::Success(Value::Nil)), None);
    for (k, id) in seen.iter().enumerate() {
        assert_eq!(t.is_pending(*id), k != 42);
    }
}

#[test]
fn map_result_is_the_identity_on_values() {
    let v: Value = map_result(Value::Str(b"ok".to_vec()));
    assert_eq!(v, Value::Str(b"ok".to_vec()));
}
