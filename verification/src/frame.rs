use vstd::prelude::*;

verus! {

use crate::codec::DecodeError;
use crate::codec::dec_val;
use crate::codec::decode_value;
use crate::codec::enc_val;
use crate::codec::encode_value;
use crate::value::Value;
use crate::value::ValueView;
use crate::value::elems_view;
use crate::value::lemma_elems_view;
use crate::value::len_limit;
use crate::value::wf_value;

/// One unit of wire communication.
///
/// A `Call` expects exactly one `Response` correlated by identifier; an
/// `Event` is one-way and expects nothing. Method names are carried as
/// their UTF-8 bytes.
#[derive(Debug, PartialEq, Eq)]
pub enum Frame {
    Call { id: u64, method: Vec<u8>, params: Vec<Value> },
    Response { id: u64, error: Value, result: Value },
    Event { method: Vec<u8>, params: Vec<Value> },
}

/// Mathematical model of a [`Frame`].
pub enum FrameView {
    Call { id: u64, method: Seq<u8>, params: Seq<ValueView> },
    Response { id: u64, error: ValueView, result: ValueView },
    Event { method: Seq<u8>, params: Seq<ValueView> },
}

impl View for Frame {
    type V = FrameView;

    open spec fn view(&self) -> FrameView {
        match self {
            Frame::Call { id, method, params } => FrameView::Call {
                id: *id,
                method: method@,
                params: elems_view(params@),
            },
            Frame::Response { id, error, result } => FrameView::Response {
                id: *id,
                error: error@,
                result: result@,
            },
            Frame::Event { method, params } => FrameView::Event {
                method: method@,
                params: elems_view(params@),
            },
        }
    }
}

/// A well-formed frame: its parts are well-formed values and its method
/// name and parameter list fit the encoding's length fields.
pub open spec fn wf_frame(f: FrameView) -> bool {
    match f {
        FrameView::Call { id, method, params } => method.len() < len_limit() && params.len()
            < len_limit() && (forall|k: int| 0 <= k < params.len() ==> wf_value(#[trigger] params[k])),
        FrameView::Response { id, error, result } => wf_value(error) && wf_value(result),
        FrameView::Event { method, params } => method.len() < len_limit() && params.len()
            < len_limit() && (forall|k: int| 0 <= k < params.len() ==> wf_value(#[trigger] params[k])),
    }
}

/// The wire value a frame is carried as: a `Call` as
/// `[0, id, method, params]`, a `Response` as `[1, id, error, result]`,
/// an `Event` as `[2, method, params]`.
pub open spec fn frame_value(f: FrameView) -> ValueView {
    match f {
        FrameView::Call { id, method, params } => ValueView::Array(
            seq![
                ValueView::Uint(0),
                ValueView::Uint(id),
                ValueView::Str(method),
                ValueView::Array(params),
            ],
        ),
        FrameView::Response { id, error, result } => ValueView::Array(
            seq![ValueView::Uint(1), ValueView::Uint(id), error, result],
        ),
        FrameView::Event { method, params } => ValueView::Array(
            seq![ValueView::Uint(2), ValueView::Str(method), ValueView::Array(params)],
        ),
    }
}

/// The byte encoding of a frame.
pub open spec fn enc_frame(f: FrameView) -> Seq<u8> {
    enc_val(frame_value(f))
}

/// The frame a wire value denotes, when its shape is one of the three
/// frame shapes.
pub open spec fn value_frame(v: ValueView) -> Option<FrameView> {
    match v {
        ValueView::Array(a) => if a.len() == 4 && a[0] == ValueView::Uint(0) && a[1] is Uint
            && a[2] is Str && a[3] is Array {
            Some(
                (FrameView::Call { id: a[1]->Uint_0, method: a[2]->Str_0, params: a[3]->Array_0 }),
            )
        } else if a.len() == 4 && a[0] == ValueView::Uint(1) && a[1] is Uint {
            Some((FrameView::Response { id: a[1]->Uint_0, error: a[2], result: a[3] }))
        } else if a.len() == 3 && a[0] == ValueView::Uint(2) && a[1] is Str && a[2] is Array {
            Some((FrameView::Event { method: a[1]->Str_0, params: a[2]->Array_0 }))
        } else {
            None
        },
        _ => None,
    }
}

/// Decoding one frame from position `i`: the value there, read as a frame.
pub open spec fn dec_frame(s: Seq<u8>, i: int) -> Option<(FrameView, int)> {
    match dec_val(s, i) {
        None => None,
        Some((v, j)) => match value_frame(v) {
            None => None,
            Some(f) => Some((f, j)),
        },
    }
}

/// Law: reading back the wire value of a well-formed frame yields exactly
/// that frame — the three frame shapes are unambiguous.
pub proof fn lemma_frame_value_unambiguous(f: FrameView)
    ensures
        value_frame(frame_value(f)) == Some(f),
{
}

/// A well-formed frame is carried as a well-formed wire value.
pub proof fn lemma_wf_frame_value(f: FrameView)
    requires
        wf_frame(f),
    ensures
        wf_value(frame_value(f)),
{
    let a = frame_value(f)->Array_0;
    assert forall|k: int| 0 <= k < a.len() implies wf_value(#[trigger] a[k]) by {
        match f {
            FrameView::Call { id, method, params } => {
                assert(a[0] == ValueView::Uint(0));
                assert(a[1] == ValueView::Uint(id));
                assert(a[2] == ValueView::Str(method));
                assert(a[3] == ValueView::Array(params));
            },
            FrameView::Response { id, error, result } => {
                assert(a[0] == ValueView::Uint(1));
                assert(a[1] == ValueView::Uint(id));
                assert(a[2] == error);
                assert(a[3] == result);
            },
            FrameView::Event { method, params } => {
                assert(a[0] == ValueView::Uint(2));
                assert(a[1] == ValueView::Str(method));
                assert(a[2] == ValueView::Array(params));
            },
        }
    }
}

/// Law: a well-formed frame written to the stream, followed by whatever
/// later traffic, is decoded back as exactly that frame, the decoder
/// stopping exactly where the next frame begins. Frame boundaries need no
/// length prefix: the encoding itself determines them.
pub proof fn lemma_frame_round_trip(f: FrameView, rest: Seq<u8>)
    requires
        wf_frame(f),
    ensures
        dec_frame(enc_frame(f) + rest, 0) == Some((f, enc_frame(f).len() as int)),
{
    lemma_wf_frame_value(f);
    crate::codec::lemma_round_trip(frame_value(f), rest);
    lemma_frame_value_unambiguous(f);
}

/// Encodes a frame for the wire.
pub fn encode_frame(f: Frame) -> (r: Vec<u8>)
    requires
        wf_frame(f@),
    ensures
        r@ == enc_frame(f@),
{
    let ghost fv = f@;
    let v = match f {
        Frame::Call { id, method, params } => Value::Array(
            vec![Value::Uint(0), Value::Uint(id), Value::Str(method), Value::Array(params)],
        ),
        Frame::Response { id, error, result } => Value::Array(
            vec![Value::Uint(1), Value::Uint(id), error, result],
        ),
        Frame::Event { method, params } => Value::Array(
            vec![Value::Uint(2), Value::Str(method), Value::Array(params)],
        ),
    };
    proof {
        let items = v->Array_0;
        lemma_elems_view(items@);
        assert(elems_view(items@) =~= frame_value(fv)->Array_0);
        assert(v@ == frame_value(fv));
        lemma_wf_frame_value(fv);
    }
    let mut out: Vec<u8> = Vec::new();
    encode_value(&v, &mut out);
    out
}

/// Decodes the frame starting at `pos`. Fails exactly where the bytes do
/// not hold a well-formed value of one of the three frame shapes.
pub fn decode_frame(buf: &Vec<u8>, pos: usize) -> (r: Result<(Frame, usize), DecodeError>)
    ensures
        match r {
            Ok(p) => dec_frame(buf@, pos as int) == Some((p.0@, p.1 as int)) && pos < p.1
                <= buf@.len() && wf_frame(p.0@),
            Err(_) => dec_frame(buf@, pos as int) is None,
        },
{
    let (v, end) = match decode_value(buf, pos) {
        Err(e) => {
            return Err(e);
        },
        Ok(p) => p,
    };
    let ghost vv = v@;
    match v {
        Value::Array(mut items) => {
            let ghost orig = items@;
            proof {
                lemma_elems_view(orig);
            }
            if items.len() == 4 {
                let a0 = items.remove(0);
                let a1 = items.remove(0);
                let a2 = items.remove(0);
                let a3 = items.remove(0);
                proof {
                    assert(a0 == orig[0]);
                    assert(a1 == orig[1]);
                    assert(a2 == orig[2]);
                    assert(a3 == orig[3]);
                }
                match (a0, a1) {
                    (Value::Uint(kind), Value::Uint(id)) => {
                        if kind == 0 {
                            match (a2, a3) {
                                (Value::Str(method), Value::Array(params)) => {
                                    proof {
                                        lemma_elems_view(params@);
                                        let es = elems_view(orig);
                                        assert(es[0] == ValueView::Uint(0));
                                        assert(es[1] == ValueView::Uint(id));
                                        assert(es[2] == ValueView::Str(method@));
                                        assert(es[3] == ValueView::Array(elems_view(params@)));
                                        assert(wf_value(es[2]));
                                        assert(wf_value(es[3]));
                                        assert(value_frame(vv) == Some(
                                            (FrameView::Call {
                                                id,
                                                method: method@,
                                                params: elems_view(params@),
                                            }),
                                        ));
                                    }
                                    Ok((Frame::Call { id, method, params }, end))
                                },
                                _ => Err(DecodeError),
                            }
                        } else if kind == 1 {
                            proof {
                                let es = elems_view(orig);
                                assert(es[0] == ValueView::Uint(1));
                                assert(es[1] == ValueView::Uint(id));
                                assert(es[2] == a2@);
                                assert(es[3] == a3@);
                                assert(wf_value(es[2]));
                                assert(wf_value(es[3]));
                                assert(value_frame(vv) == Some(
                                    (FrameView::Response { id, error: a2@, result: a3@ }),
                                ));
                            }
                            Ok((Frame::Response { id, error: a2, result: a3 }, end))
                        } else {
                            Err(DecodeError)
                        }
                    },
                    _ => Err(DecodeError),
                }
            } else if items.len() == 3 {
                let a0 = items.remove(0);
                let a1 = items.remove(0);
                let a2 = items.remove(0);
                proof {
                    assert(a0 == orig[0]);
                    assert(a1 == orig[1]);
                    assert(a2 == orig[2]);
                }
                match (a0, a1, a2) {
                    (Value::Uint(kind), Value::Str(method), Value::Array(params)) => {
                        if kind == 2 {
                            proof {
                                lemma_elems_view(params@);
                                let es = elems_view(orig);
                                assert(es[0] == ValueView::Uint(2));
                                assert(es[1] == ValueView::Str(method@));
                                assert(es[2] == ValueView::Array(elems_view(params@)));
                                assert(wf_value(es[1]));
                                assert(wf_value(es[2]));
                                assert(value_frame(vv) == Some(
                                    (FrameView::Event { method: method@, params: elems_view(params@) }),
                                ));
                            }
                            Ok((Frame::Event { method, params }, end))
                        } else {
                            Err(DecodeError)
                        }
                    },
                    _ => Err(DecodeError),
                }
            } else {
                Err(DecodeError)
            }
        },
        _ => Err(DecodeError),
    }
}

/// Builds the `Response` frame for a reverse call handled by the
/// application: it carries the original identifier, and either the
/// handler's result with a nil error, or the handler's error payload with
/// a nil result.
pub fn response_frame(id: u64, outcome: Result<Value, Value>) -> (f: Frame)
    ensures
        f@ == (match outcome {
            Ok(v) => FrameView::Response { id, error: ValueView::Nil, result: v@ },
            Err(e) => FrameView::Response { id, error: e@, result: ValueView::Nil },
        }),
{
    match outcome {
        Ok(v) => Frame::Response { id, error: Value::Nil, result: v },
        Err(e) => Frame::Response { id, error: e, result: Value::Nil },
    }
}

} // verus!
