use vstd::prelude::*;

verus! {

use crate::value::Value;
use crate::value::ValueView;
use crate::value::wf_value;

/// Malformed input: the byte stream does not hold a well-formed value at
/// the given position. Framing cannot recover once misaligned, so a decode
/// error is fatal to the whole session, never to a single message.
#[derive(Debug, PartialEq, Eq, Structural, Clone, Copy)]
pub struct DecodeError;

/// `256^k`: the number of values a `k`-byte big-endian field can hold.
pub open spec fn pow256(k: nat) -> int
    decreases k,
{
    if k == 0 {
        1
    } else {
        256 * pow256((k - 1) as nat)
    }
}

/// The `k`-byte big-endian encoding of `n` (the low `k` bytes of `n`,
/// most significant first).
pub open spec fn be_bytes(n: int, k: nat) -> Seq<u8>
    decreases k,
{
    if k == 0 {
        Seq::empty()
    } else {
        be_bytes(n / 256, (k - 1) as nat).push((n % 256) as u8)
    }
}

/// The number a big-endian byte sequence denotes.
pub open spec fn from_be(s: Seq<u8>) -> int
    decreases s.len(),
{
    if s.len() == 0 {
        0
    } else {
        from_be(s.drop_last()) * 256 + s.last()
    }
}

/// Encoding of a non-negative integer: the shortest of the fixed-positive,
/// one-, two-, four- or eight-byte unsigned forms.
pub open spec fn enc_uint(n: u64) -> Seq<u8> {
    if n < 0x80 {
        seq![n as u8]
    } else if n < 0x100 {
        seq![0xccu8] + be_bytes(n as int, 1)
    } else if n < 0x10000 {
        seq![0xcdu8] + be_bytes(n as int, 2)
    } else if n < 0x1_0000_0000 {
        seq![0xceu8] + be_bytes(n as int, 4)
    } else {
        seq![0xcfu8] + be_bytes(n as int, 8)
    }
}

/// Encoding of a negative integer: the shortest of the fixed-negative,
/// one-, two-, four- or eight-byte signed forms, as the two's complement
/// of the value.
pub open spec fn enc_int(i: i64) -> Seq<u8> {
    if i >= -32 {
        seq![(i + 256) as u8]
    } else if i >= -0x80 {
        seq![0xd0u8] + be_bytes(i + 0x100, 1)
    } else if i >= -0x8000 {
        seq![0xd1u8] + be_bytes(i + 0x10000, 2)
    } else if i >= -0x8000_0000 {
        seq![0xd2u8] + be_bytes(i + 0x1_0000_0000, 4)
    } else {
        seq![0xd3u8] + be_bytes(i + 0x1_0000_0000_0000_0000, 8)
    }
}

/// Header announcing a string of `len` bytes.
pub open spec fn enc_str_header(len: int) -> Seq<u8> {
    if len < 32 {
        seq![(0xa0 + len) as u8]
    } else if len < 0x100 {
        seq![0xd9u8] + be_bytes(len, 1)
    } else if len < 0x10000 {
        seq![0xdau8] + be_bytes(len, 2)
    } else {
        seq![0xdbu8] + be_bytes(len, 4)
    }
}

/// Header announcing `len` bytes of raw binary data.
pub open spec fn enc_bin_header(len: int) -> Seq<u8> {
    if len < 0x100 {
        seq![0xc4u8] + be_bytes(len, 1)
    } else if len < 0x10000 {
        seq![0xc5u8] + be_bytes(len, 2)
    } else {
        seq![0xc6u8] + be_bytes(len, 4)
    }
}

/// Header announcing an array of `len` elements.
pub open spec fn enc_array_header(len: int) -> Seq<u8> {
    if len < 16 {
        seq![(0x90 + len) as u8]
    } else if len < 0x10000 {
        seq![0xdcu8] + be_bytes(len, 2)
    } else {
        seq![0xddu8] + be_bytes(len, 4)
    }
}

/// The encoding of a value. The encoding is self-describing: where a value
/// ends is determined by its own bytes, so frames need no length prefix.
pub open spec fn enc_val(v: ValueView) -> Seq<u8>
    decreases v, 0int,
{
    match v {
        ValueView::Nil => seq![0xc0u8],
        ValueView::Bool(b) => if b {
            seq![0xc3u8]
        } else {
            seq![0xc2u8]
        },
        ValueView::Uint(n) => enc_uint(n),
        ValueView::Int(i) => enc_int(i),
        ValueView::Str(s) => enc_str_header(s.len() as int) + s,
        ValueView::Bin(b) => enc_bin_header(b.len() as int) + b,
        ValueView::Array(a) => enc_array_header(a.len() as int) + enc_elems(a, 0),
    }
}

/// The concatenated encodings of the elements of `a` from index `k` on.
pub open spec fn enc_elems(a: Seq<ValueView>, k: int) -> Seq<u8>
    decreases a, a.len() - k,
{
    if k < 0 || k >= a.len() {
        Seq::empty()
    } else {
        enc_val(a[k]) + enc_elems(a, k + 1)
    }
}

/// Classification of a `k`-byte two's-complement number: non-negative
/// values are `Uint`, negative ones `Int`.
pub open spec fn sint_value(m: int, k: nat) -> ValueView {
    if m < pow256(k) / 2 {
        ValueView::Uint(m as u64)
    } else {
        ValueView::Int((m - pow256(k)) as i64)
    }
}

/// Decodes the value starting at position `i` of `s`: the value and the
/// position just past it, or nothing when the bytes there are not a
/// well-formed value of this encoding.
pub open spec fn dec_val(s: Seq<u8>, i: int) -> Option<(ValueView, int)>
    decreases s.len() - i, 0int,
{
    if i < 0 || i >= s.len() {
        None
    } else {
        let b = s[i];
        if b < 0x80 {
            Some((ValueView::Uint(b as u64), i + 1))
        } else if b < 0x90 {
            None
        } else if b < 0xa0 {
            dec_array_body(s, i + 1, b - 0x90)
        } else if b < 0xc0 {
            dec_payload(s, i + 1, b - 0xa0, true)
        } else if b == 0xc0 {
            Some((ValueView::Nil, i + 1))
        } else if b == 0xc2 {
            Some((ValueView::Bool(false), i + 1))
        } else if b == 0xc3 {
            Some((ValueView::Bool(true), i + 1))
        } else if b == 0xc4 || b == 0xc5 || b == 0xc6 {
            let k = if b == 0xc4 {
                1int
            } else if b == 0xc5 {
                2int
            } else {
                4int
            };
            if i + 1 + k <= s.len() {
                dec_payload(s, i + 1 + k, from_be(s.subrange(i + 1, i + 1 + k)), false)
            } else {
                None
            }
        } else if b == 0xcc || b == 0xcd || b == 0xce || b == 0xcf {
            let k = if b == 0xcc {
                1int
            } else if b == 0xcd {
                2int
            } else if b == 0xce {
                4int
            } else {
                8int
            };
            if i + 1 + k <= s.len() {
                Some((ValueView::Uint(from_be(s.subrange(i + 1, i + 1 + k)) as u64), i + 1 + k))
            } else {
                None
            }
        } else if b == 0xd0 || b == 0xd1 || b == 0xd2 || b == 0xd3 {
            let k = if b == 0xd0 {
                1int
            } else if b == 0xd1 {
                2int
            } else if b == 0xd2 {
                4int
            } else {
                8int
            };
            if i + 1 + k <= s.len() {
                Some((sint_value(from_be(s.subrange(i + 1, i + 1 + k)), k as nat), i + 1 + k))
            } else {
                None
            }
        } else if b == 0xd9 || b == 0xda || b == 0xdb {
            let k = if b == 0xd9 {
                1int
            } else if b == 0xda {
                2int
            } else {
                4int
            };
            if i + 1 + k <= s.len() {
                dec_payload(s, i + 1 + k, from_be(s.subrange(i + 1, i + 1 + k)), true)
            } else {
                None
            }
        } else if b == 0xdc || b == 0xdd {
            let k = if b == 0xdc {
                2int
            } else {
                4int
            };
            if i + 1 + k <= s.len() {
                dec_array_body(s, i + 1 + k, from_be(s.subrange(i + 1, i + 1 + k)))
            } else {
                None
            }
        } else if b >= 0xe0 {
            Some((ValueView::Int((b - 0x100) as i64), i + 1))
        } else {
            None
        }
    }
}

/// Decodes a string or binary payload of `len` bytes starting at `i`.
pub open spec fn dec_payload(s: Seq<u8>, i: int, len: int, is_str: bool) -> Option<
    (ValueView, int),
> {
    if 0 <= i && 0 <= len && i + len <= s.len() {
        if is_str {
            Some((ValueView::Str(s.subrange(i, i + len)), i + len))
        } else {
            Some((ValueView::Bin(s.subrange(i, i + len)), i + len))
        }
    } else {
        None
    }
}

/// Decodes `n` consecutive values starting at `i` and wraps them as an
/// array value ending where the last element ends.
pub open spec fn dec_array_body(s: Seq<u8>, i: int, n: int) -> Option<(ValueView, int)>
    decreases s.len() - i, 2int + n,
{
    if n < 0 {
        None
    } else {
        match dec_elems(s, i, n) {
            Some((vs, end)) => Some((ValueView::Array(vs), end)),
            None => None,
        }
    }
}

/// Decodes `n` consecutive values starting at `i`.
pub open spec fn dec_elems(s: Seq<u8>, i: int, n: int) -> Option<(Seq<ValueView>, int)>
    decreases s.len() - i, 1int + n,
{
    if i < 0 || i > s.len() {
        None
    } else if n <= 0 {
        Some((Seq::empty(), i))
    } else {
        match dec_val(s, i) {
            None => None,
            Some((v, j)) => if i < j <= s.len() {
                match dec_elems(s, j, n - 1) {
                    None => None,
                    Some((rest, end)) => Some((seq![v] + rest, end)),
                }
            } else {
                None
            },
        }
    }
}

/// The values of `pow256` the codec works with.
proof fn lemma_pow256_vals()
    ensures
        pow256(0) == 1,
        pow256(1) == 0x100,
        pow256(2) == 0x1_0000,
        pow256(3) == 0x100_0000,
        pow256(4) == 0x1_0000_0000,
        pow256(5) == 0x100_0000_0000,
        pow256(6) == 0x1_0000_0000_0000,
        pow256(7) == 0x100_0000_0000_0000,
        pow256(8) == 0x1_0000_0000_0000_0000,
{
    assert(pow256(0) == 1);
    assert(pow256(1) == 0x100);
    assert(pow256(2) == 0x1_0000);
    assert(pow256(3) == 0x100_0000);
    assert(pow256(4) == 0x1_0000_0000);
    assert(pow256(5) == 0x100_0000_0000);
    assert(pow256(6) == 0x1_0000_0000_0000);
    assert(pow256(7) == 0x100_0000_0000_0000);
    assert(pow256(8) == 0x1_0000_0000_0000_0000);
}

/// A big-endian field of `k` bytes holds a number below `256^k`.
proof fn lemma_from_be_bounds(s: Seq<u8>)
    ensures
        0 <= from_be(s) < pow256(s.len()),
    decreases s.len(),
{
    if s.len() > 0 {
        lemma_from_be_bounds(s.drop_last());
        let p = pow256((s.len() - 1) as nat);
        let fb = from_be(s.drop_last());
        assert(fb * 256 <= (p - 1) * 256) by (nonlinear_arith)
            requires
                fb <= p - 1,
        ;
    }
}

/// Reading back a `k`-byte big-endian field yields the number it was
/// written from, for numbers that fit the field.
proof fn lemma_from_be_of_be_bytes(n: int, k: nat)
    requires
        0 <= n < pow256(k),
    ensures
        be_bytes(n, k).len() == k,
        from_be(be_bytes(n, k)) == n,
    decreases k,
{
    if k > 0 {
        assert(n / 256 < pow256((k - 1) as nat)) by (nonlinear_arith)
            requires
                0 <= n < 256 * pow256((k - 1) as nat),
        ;
        lemma_from_be_of_be_bytes(n / 256, (k - 1) as nat);
        let b = be_bytes(n, k);
        assert(b.drop_last() =~= be_bytes(n / 256, (k - 1) as nat));
        assert(b.last() == (n % 256) as u8);
    }
}

/// A concatenation sitting inside a larger sequence splits into its two
/// halves sitting there in order.
proof fn lemma_subrange_split(s: Seq<u8>, i: int, x: Seq<u8>, y: Seq<u8>)
    requires
        0 <= i,
        i + x.len() + y.len() <= s.len(),
        s.subrange(i, i + x.len() + y.len()) == x + y,
    ensures
        s.subrange(i, i + x.len() as int) == x,
        s.subrange(i + x.len() as int, i + x.len() + y.len()) == y,
{
    let whole = s.subrange(i, i + x.len() + y.len());
    assert(s.subrange(i, i + x.len() as int) =~= x) by {
        assert forall|j: int| 0 <= j < x.len() implies s.subrange(i, i + x.len() as int)[j] == x[j] by {
            assert(whole[j] == (x + y)[j]);
        }
    }
    assert(s.subrange(i + x.len() as int, i + x.len() + y.len()) =~= y) by {
        assert forall|j: int|
            0 <= j < y.len() implies s.subrange(i + x.len() as int, i + x.len() + y.len())[j]
            == y[j] by {
            assert(whole[j + x.len()] == (x + y)[j + x.len()]);
        }
    }
}

/// Appends the `k`-byte big-endian encoding of `n`.
fn push_be(out: &mut Vec<u8>, n: u64, k: usize)
    requires
        k <= 8,
    ensures
        final(out)@ == old(out)@ + be_bytes(n as int, k as nat),
    decreases k,
{
    if k == 0 {
        proof {
            assert(out@ =~= old(out)@ + be_bytes(n as int, 0));
        }
    } else {
        push_be(out, n / 256, k - 1);
        out.push((n % 256) as u8);
        proof {
            assert(out@ =~= old(out)@ + be_bytes(n as int, k as nat));
        }
    }
}

/// Appends a copy of `data`.
fn push_bytes(out: &mut Vec<u8>, data: &Vec<u8>)
    ensures
        final(out)@ == old(out)@ + data@,
{
    let mut k: usize = 0;
    while k < data.len()
        invariant
            k <= data.len(),
            out@ == old(out)@ + data@.subrange(0, k as int),
        decreases data.len() - k,
    {
        out.push(data[k]);
        proof {
            assert(out@ =~= old(out)@ + data@.subrange(0, k as int + 1));
        }
        k += 1;
    }
    proof {
        assert(data@.subrange(0, data@.len() as int) =~= data@);
    }
}

/// Appends the encoding of `v` to `out`.
///
/// The value must be well-formed: every string, binary and array length
/// below the encoding's four-byte limit, and negative integers only in
/// `Int`.
pub fn encode_value(v: &Value, out: &mut Vec<u8>)
    requires
        wf_value(v@),
    ensures
        final(out)@ == old(out)@ + enc_val(v@),
    decreases v@,
{
    match v {
        Value::Nil => {
            out.push(0xc0);
            proof {
                assert(out@ =~= old(out)@ + enc_val(v@));
            }
        },
        Value::Bool(b) => {
            if *b {
                out.push(0xc3);
            } else {
                out.push(0xc2);
            }
            proof {
                assert(out@ =~= old(out)@ + enc_val(v@));
            }
        },
        Value::Uint(n) => {
            if *n < 0x80 {
                out.push(*n as u8);
            } else if *n < 0x100 {
                out.push(0xcc);
                push_be(out, *n, 1);
            } else if *n < 0x10000 {
                out.push(0xcd);
                push_be(out, *n, 2);
            } else if *n < 0x1_0000_0000 {
                out.push(0xce);
                push_be(out, *n, 4);
            } else {
                out.push(0xcf);
                push_be(out, *n, 8);
            }
            proof {
                assert(out@ =~= old(out)@ + enc_val(v@));
            }
        },
        Value::Int(i) => {
            if *i >= -32 {
                out.push((*i + 256) as u8);
            } else if *i >= -0x80 {
                out.push(0xd0);
                push_be(out, (*i + 0x100) as u64, 1);
            } else if *i >= -0x8000 {
                out.push(0xd1);
                push_be(out, (*i + 0x10000) as u64, 2);
            } else if *i >= -0x8000_0000 {
                out.push(0xd2);
                push_be(out, (*i + 0x1_0000_0000) as u64, 4);
            } else {
                out.push(0xd3);
                let w = *i as u64;
                proof {
                    assert(w as int == *i as int + 0x1_0000_0000_0000_0000) by (bit_vector)
                        requires w == *i as u64 && *i < -0x8000_0000;
                }
                push_be(out, w, 8);
            }
            proof {
                assert(out@ =~= old(out)@ + enc_val(v@));
            }
        },
        Value::Str(s) => {
            let len = s.len();
            if len < 32 {
                out.push(0xa0 + len as u8);
            } else if len < 0x100 {
                out.push(0xd9);
                push_be(out, len as u64, 1);
            } else if len < 0x10000 {
                out.push(0xda);
                push_be(out, len as u64, 2);
            } else {
                out.push(0xdb);
                push_be(out, len as u64, 4);
            }
            push_bytes(out, s);
            proof {
                assert(out@ =~= old(out)@ + enc_val(v@));
            }
        },
        Value::Bin(b) => {
            let len = b.len();
            if len < 0x100 {
                out.push(0xc4);
                push_be(out, len as u64, 1);
            } else if len < 0x10000 {
                out.push(0xc5);
                push_be(out, len as u64, 2);
            } else {
                out.push(0xc6);
                push_be(out, len as u64, 4);
            }
            push_bytes(out, b);
            proof {
                assert(out@ =~= old(out)@ + enc_val(v@));
            }
        },
        Value::Array(a) => {
            let len = a.len();
            if len < 16 {
                out.push(0x90 + len as u8);
            } else if len < 0x10000 {
                out.push(0xdc);
                push_be(out, len as u64, 2);
            } else {
                out.push(0xdd);
                push_be(out, len as u64, 4);
            }
            let ghost vs = v@->Array_0;
            proof {
                crate::value::lemma_elems_view(a@);
                assert(out@ =~= old(out)@ + enc_array_header(vs.len() as int));
            }
            let mut k: usize = 0;
            while k < a.len()
                invariant
                    v@ == ValueView::Array(vs),
                    k <= a.len(),
                    vs.len() == a@.len(),
                    forall|j: int| 0 <= j < a@.len() ==> vs[j] == a@[j]@,
                    forall|j: int| 0 <= j < vs.len() ==> wf_value(#[trigger] vs[j]),
                    out@ + enc_elems(vs, k as int) == old(out)@ + enc_val(
                        ValueView::Array(vs),
                    ),
                decreases a.len() - k,
            {
                let ghost pre = out@;
                proof {
                    assert(vs[k as int] == a@[k as int]@);
                    assert(v@ == ValueView::Array(vs));
                    assert(decreases_to!(ValueView::Array(vs) => vs));
                    assert(decreases_to!(vs => vs[k as int]));
                }
                encode_value(&a[k], out);
                proof {
                    assert(pre + (enc_val(vs[k as int]) + enc_elems(vs, k as int + 1)) =~= (pre
                        + enc_val(vs[k as int])) + enc_elems(vs, k as int + 1));
                }
                k += 1;
            }
            proof {
                assert(out@ + enc_elems(vs, vs.len() as int) =~= out@);
            }
        },
    }
}

/// Every encoding starts with at least its header byte.
proof fn lemma_enc_val_nonempty(v: ValueView)
    ensures
        enc_val(v).len() >= 1,
{
    match v {
        ValueView::Nil => {},
        ValueView::Bool(_) => {},
        ValueView::Uint(n) => {
            assert(enc_val(v) == enc_uint(n));
        },
        ValueView::Int(i) => {
            assert(enc_val(v) == enc_int(i));
        },
        ValueView::Str(s) => {},
        ValueView::Bin(b) => {},
        ValueView::Array(a) => {},
    }
}

/// Law: the encoding is decoded back to exactly the value it came from.
/// Wherever the encoding of a well-formed value sits in a byte stream,
/// decoding from its first byte yields that value and stops exactly at
/// its last — the reader re-frames the stream precisely as the writer
/// framed it.
pub proof fn lemma_dec_of_enc(s: Seq<u8>, i: int, v: ValueView)
    requires
        wf_value(v),
        0 <= i,
        i + enc_val(v).len() <= s.len(),
        s.subrange(i, i + enc_val(v).len() as int) == enc_val(v),
    ensures
        dec_val(s, i) == Some((v, i + enc_val(v).len() as int)),
    decreases v, 0int,
{
    let e = enc_val(v);
    lemma_enc_val_nonempty(v);
    assert(s[i] == e[0]) by {
        assert(s.subrange(i, i + e.len() as int)[0] == e[0]);
    }
    lemma_pow256_vals();
    match v {
        ValueView::Nil => {},
        ValueView::Bool(b) => {},
        ValueView::Uint(n) => {
            if n < 0x80 {
                assert(s[i] == n as u8);
            } else if n < 0x100 {
                lemma_from_be_of_be_bytes(n as int, 1);
                lemma_subrange_split(s, i, seq![0xccu8], be_bytes(n as int, 1));
            } else if n < 0x10000 {
                lemma_from_be_of_be_bytes(n as int, 2);
                lemma_subrange_split(s, i, seq![0xcdu8], be_bytes(n as int, 2));
            } else if n < 0x1_0000_0000 {
                lemma_from_be_of_be_bytes(n as int, 4);
                lemma_subrange_split(s, i, seq![0xceu8], be_bytes(n as int, 4));
            } else {
                lemma_from_be_of_be_bytes(n as int, 8);
                lemma_subrange_split(s, i, seq![0xcfu8], be_bytes(n as int, 8));
            }
        },
        ValueView::Int(iv) => {
            if iv >= -32 {
                assert(s[i] == (iv + 256) as u8);
                assert(s[i] >= 0xe0);
            } else if iv >= -0x80 {
                lemma_from_be_of_be_bytes(iv + 0x100, 1);
                lemma_subrange_split(s, i, seq![0xd0u8], be_bytes(iv + 0x100, 1));
            } else if iv >= -0x8000 {
                lemma_from_be_of_be_bytes(iv + 0x10000, 2);
                lemma_subrange_split(s, i, seq![0xd1u8], be_bytes(iv + 0x10000, 2));
            } else if iv >= -0x8000_0000 {
                lemma_from_be_of_be_bytes(iv + 0x1_0000_0000, 4);
                lemma_subrange_split(s, i, seq![0xd2u8], be_bytes(iv + 0x1_0000_0000, 4));
            } else {
                lemma_from_be_of_be_bytes(iv + 0x1_0000_0000_0000_0000, 8);
                lemma_subrange_split(
                    s,
                    i,
                    seq![0xd3u8],
                    be_bytes(iv + 0x1_0000_0000_0000_0000, 8),
                );
            }
        },
        ValueView::Str(content) => {
            let len = content.len() as int;
            lemma_subrange_split(s, i, enc_str_header(len), content);
            if len < 32 {
                assert(s[i] == (0xa0 + len) as u8);
            } else if len < 0x100 {
                lemma_from_be_of_be_bytes(len, 1);
                lemma_subrange_split(s, i, seq![0xd9u8], be_bytes(len, 1));
            } else if len < 0x10000 {
                lemma_from_be_of_be_bytes(len, 2);
                lemma_subrange_split(s, i, seq![0xdau8], be_bytes(len, 2));
            } else {
                lemma_from_be_of_be_bytes(len, 4);
                lemma_subrange_split(s, i, seq![0xdbu8], be_bytes(len, 4));
            }
        },
        ValueView::Bin(content) => {
            let len = content.len() as int;
            lemma_subrange_split(s, i, enc_bin_header(len), content);
            if len < 0x100 {
                lemma_from_be_of_be_bytes(len, 1);
                lemma_subrange_split(s, i, seq![0xc4u8], be_bytes(len, 1));
            } else if len < 0x10000 {
                lemma_from_be_of_be_bytes(len, 2);
                lemma_subrange_split(s, i, seq![0xc5u8], be_bytes(len, 2));
            } else {
                lemma_from_be_of_be_bytes(len, 4);
                lemma_subrange_split(s, i, seq![0xc6u8], be_bytes(len, 4));
            }
        },
        ValueView::Array(a) => {
            let n = a.len() as int;
            lemma_subrange_split(s, i, enc_array_header(n), enc_elems(a, 0));
            let h = enc_array_header(n).len() as int;
            if n < 16 {
                assert(s[i] == (0x90 + n) as u8);
            } else if n < 0x10000 {
                lemma_from_be_of_be_bytes(n, 2);
                lemma_subrange_split(s, i, seq![0xdcu8], be_bytes(n, 2));
            } else {
                lemma_from_be_of_be_bytes(n, 4);
                lemma_subrange_split(s, i, seq![0xddu8], be_bytes(n, 4));
            }
            lemma_dec_of_enc_elems(s, i + h, a, 0);
            assert(a.skip(0) =~= a);
        },
    }
}

/// The elements encoded from index `k` on are decoded back to exactly
/// those elements.
proof fn lemma_dec_of_enc_elems(s: Seq<u8>, i: int, a: Seq<ValueView>, k: int)
    requires
        forall|j: int| 0 <= j < a.len() ==> wf_value(#[trigger] a[j]),
        0 <= k <= a.len(),
        0 <= i,
        i + enc_elems(a, k).len() <= s.len(),
        s.subrange(i, i + enc_elems(a, k).len() as int) == enc_elems(a, k),
    ensures
        dec_elems(s, i, a.len() - k) == Some((a.skip(k), i + enc_elems(a, k).len() as int)),
    decreases a, 1int + a.len() - k,
{
    if k == a.len() {
        assert(a.skip(k) =~= Seq::<ValueView>::empty());
    } else {
        lemma_subrange_split(s, i, enc_val(a[k]), enc_elems(a, k + 1));
        lemma_dec_of_enc(s, i, a[k]);
        lemma_enc_val_nonempty(a[k]);
        let j = i + enc_val(a[k]).len() as int;
        lemma_dec_of_enc_elems(s, j, a, k + 1);
        assert(seq![a[k]] + a.skip(k + 1) =~= a.skip(k));
    }
}

/// Law: a well-formed value written to a stream and followed by anything
/// at all is read back as exactly that value, the read ending exactly
/// where the following bytes begin.
pub proof fn lemma_round_trip(v: ValueView, rest: Seq<u8>)
    requires
        wf_value(v),
    ensures
        dec_val(enc_val(v) + rest, 0) == Some((v, enc_val(v).len() as int)),
{
    let s = enc_val(v) + rest;
    assert(s.subrange(0, enc_val(v).len() as int) =~= enc_val(v));
    lemma_dec_of_enc(s, 0, v);
}

/// Reads the `k`-byte big-endian number at `pos`.
fn read_be(buf: &Vec<u8>, pos: usize, k: usize) -> (n: u64)
    requires
        k <= 8,
        pos + k <= buf@.len(),
    ensures
        n as int == from_be(buf@.subrange(pos as int, pos as int + k as int)),
    decreases k,
{
    if k == 0 {
        proof {
            assert(buf@.subrange(pos as int, pos as int) =~= Seq::<u8>::empty());
        }
        0
    } else {
        let bound_check = buf.len();
        let hi = read_be(buf, pos, k - 1);
        proof {
            assert(bound_check == buf@.len());
            let whole = buf@.subrange(pos as int, pos as int + k as int);
            let head = buf@.subrange(pos as int, pos as int + k as int - 1);
            assert(whole.drop_last() =~= head);
            lemma_from_be_bounds(head);
            lemma_pow256_vals();
            if k as int - 1 < 8 {
                lemma_pow256_mono((k - 1) as nat, 7);
            }
        }
        hi * 256 + buf[pos + k - 1] as u64
    }
}

/// `pow256` grows with its exponent.
proof fn lemma_pow256_mono(j: nat, k: nat)
    requires
        j <= k,
    ensures
        pow256(j) <= pow256(k),
    decreases k,
{
    if j < k {
        lemma_pow256_mono(j, (k - 1) as nat);
        assert(pow256((k - 1) as nat) >= 1) by {
            lemma_pow256_pos((k - 1) as nat);
        }
    }
}

/// `pow256` is positive.
proof fn lemma_pow256_pos(k: nat)
    ensures
        pow256(k) >= 1,
    decreases k,
{
    if k > 0 {
        lemma_pow256_pos((k - 1) as nat);
    }
}

/// Copies `len` bytes of `buf` starting at `start`.
fn copy_range(buf: &Vec<u8>, start: usize, len: usize) -> (r: Vec<u8>)
    requires
        start + len <= buf@.len(),
    ensures
        r@ == buf@.subrange(start as int, start as int + len as int),
{
    let bound_check = buf.len();
    let mut r: Vec<u8> = Vec::new();
    let mut j: usize = 0;
    while j < len
        invariant
            j <= len,
            start + len <= buf@.len(),
            buf@.len() <= usize::MAX,
            r@ == buf@.subrange(start as int, start as int + j as int),
        decreases len - j,
    {
        r.push(buf[start + j]);
        proof {
            assert(r@ =~= buf@.subrange(start as int, start as int + j as int + 1));
        }
        j += 1;
    }
    r
}

/// Decodes the value starting at `pos`: the value and the position just
/// past it. Fails exactly where the bytes there are not a well-formed
/// value of this encoding; such a failure is fatal to the session, since
/// a misaligned byte stream cannot recover.
pub fn decode_value(buf: &Vec<u8>, pos: usize) -> (r: Result<(Value, usize), DecodeError>)
    ensures
        match r {
            Ok(p) => dec_val(buf@, pos as int) == Some((p.0@, p.1 as int)) && pos < p.1 <= buf@.len()
                && wf_value(p.0@),
            Err(_) => dec_val(buf@, pos as int) is None,
        },
    decreases buf@.len() - pos, 0int,
{
    proof {
        lemma_pow256_vals();
    }
    if pos >= buf.len() {
        return Err(DecodeError);
    }
    let b = buf[pos];
    let avail = buf.len() - pos - 1;
    if b < 0x80 {
        Ok((Value::Uint(b as u64), pos + 1))
    } else if b < 0x90 {
        Err(DecodeError)
    } else if b < 0xa0 {
        let n = (b - 0x90) as u64;
        match decode_elems(buf, pos + 1, n) {
            Err(e) => Err(e),
            Ok((items, end)) => {
                proof {
                    crate::value::lemma_elems_view(items@);
                }
                Ok((Value::Array(items), end))
            },
        }
    } else if b < 0xc0 {
        let len = (b - 0xa0) as usize;
        if len > avail {
            return Err(DecodeError);
        }
        let payload = copy_range(buf, pos + 1, len);
        Ok((Value::Str(payload), pos + 1 + len))
    } else if b == 0xc0 {
        Ok((Value::Nil, pos + 1))
    } else if b == 0xc2 {
        Ok((Value::Bool(false), pos + 1))
    } else if b == 0xc3 {
        Ok((Value::Bool(true), pos + 1))
    } else if b == 0xc4 || b == 0xc5 || b == 0xc6 {
        let k: usize = if b == 0xc4 {
            1
        } else if b == 0xc5 {
            2
        } else {
            4
        };
        if avail < k {
            return Err(DecodeError);
        }
        let len64 = read_be(buf, pos + 1, k);
        proof {
            lemma_from_be_bounds(buf@.subrange(pos as int + 1, pos as int + 1 + k as int));
        }
        let rest = buf.len() - (pos + 1 + k);
        if len64 > rest as u64 {
            return Err(DecodeError);
        }
        let len = len64 as usize;
        let payload = copy_range(buf, pos + 1 + k, len);
        Ok((Value::Bin(payload), pos + 1 + k + len))
    } else if b == 0xcc || b == 0xcd || b == 0xce || b == 0xcf {
        let k: usize = if b == 0xcc {
            1
        } else if b == 0xcd {
            2
        } else if b == 0xce {
            4
        } else {
            8
        };
        if avail < k {
            return Err(DecodeError);
        }
        let n = read_be(buf, pos + 1, k);
        proof {
            lemma_from_be_bounds(buf@.subrange(pos as int + 1, pos as int + 1 + k as int));
            lemma_pow256_mono(k as nat, 8);
        }
        Ok((Value::Uint(n), pos + 1 + k))
    } else if b == 0xd0 || b == 0xd1 || b == 0xd2 || b == 0xd3 {
        let k: usize = if b == 0xd0 {
            1
        } else if b == 0xd1 {
            2
        } else if b == 0xd2 {
            4
        } else {
            8
        };
        if avail < k {
            return Err(DecodeError);
        }
        let m = read_be(buf, pos + 1, k);
        proof {
            lemma_from_be_bounds(buf@.subrange(pos as int + 1, pos as int + 1 + k as int));
        }
        let half: u64 = if k == 1 {
            0x80
        } else if k == 2 {
            0x8000
        } else if k == 4 {
            0x8000_0000
        } else {
            0x8000_0000_0000_0000
        };
        if m < half {
            Ok((Value::Uint(m), pos + 1 + k))
        } else {
            let v: i64 = if k == 1 {
                m as i64 - 0x100
            } else if k == 2 {
                m as i64 - 0x1_0000
            } else if k == 4 {
                m as i64 - 0x1_0000_0000
            } else {
                let w = m as i64;
                proof {
                    assert(w as int == m as int - 0x1_0000_0000_0000_0000) by (bit_vector)
                        requires
                            w == m as i64 && m >= 0x8000_0000_0000_0000,
                    ;
                }
                w
            };
            Ok((Value::Int(v), pos + 1 + k))
        }
    } else if b == 0xd9 || b == 0xda || b == 0xdb {
        let k: usize = if b == 0xd9 {
            1
        } else if b == 0xda {
            2
        } else {
            4
        };
        if avail < k {
            return Err(DecodeError);
        }
        let len64 = read_be(buf, pos + 1, k);
        proof {
            lemma_from_be_bounds(buf@.subrange(pos as int + 1, pos as int + 1 + k as int));
            lemma_pow256_mono(k as nat, 4);
        }
        let rest = buf.len() - (pos + 1 + k);
        if len64 > rest as u64 {
            return Err(DecodeError);
        }
        let len = len64 as usize;
        let payload = copy_range(buf, pos + 1 + k, len);
        Ok((Value::Str(payload), pos + 1 + k + len))
    } else if b == 0xdc || b == 0xdd {
        let k: usize = if b == 0xdc {
            2
        } else {
            4
        };
        if avail < k {
            return Err(DecodeError);
        }
        let n = read_be(buf, pos + 1, k);
        proof {
            lemma_from_be_bounds(buf@.subrange(pos as int + 1, pos as int + 1 + k as int));
            lemma_pow256_mono(k as nat, 4);
        }
        match decode_elems(buf, pos + 1 + k, n) {
            Err(e) => Err(e),
            Ok((items, end)) => {
                proof {
                    crate::value::lemma_elems_view(items@);
                }
                Ok((Value::Array(items), end))
            },
        }
    } else if b >= 0xe0 {
        Ok((Value::Int(b as i64 - 0x100), pos + 1))
    } else {
        Err(DecodeError)
    }
}

/// Decodes `n` consecutive values starting at `start`.
fn decode_elems(buf: &Vec<u8>, start: usize, n: u64) -> (r: Result<(Vec<Value>, usize), DecodeError>)
    requires
        start <= buf@.len(),
    ensures
        match r {
            Ok(p) => dec_elems(buf@, start as int, n as int) == Some(
                (crate::value::elems_view(p.0@), p.1 as int),
            ) && start <= p.1 <= buf@.len() && p.0@.len() == n as int && (forall|j: int|
                0 <= j < p.0@.len() ==> wf_value(#[trigger] p.0@[j]@)),
            Err(_) => dec_elems(buf@, start as int, n as int) is None,
        },
    decreases buf@.len() - start, 1int + n,
{
    let mut items: Vec<Value> = Vec::new();
    let mut p: usize = start;
    let mut cnt: u64 = 0;
    while cnt < n
        invariant
            start <= p <= buf@.len(),
            cnt <= n,
            items@.len() == cnt as int,
            forall|j: int| 0 <= j < items@.len() ==> wf_value(#[trigger] items@[j]@),
            (match dec_elems(buf@, p as int, (n - cnt) as int) {
                None => dec_elems(buf@, start as int, n as int) is None,
                Some(rest) => dec_elems(buf@, start as int, n as int) == Some(
                    (crate::value::elems_view(items@) + rest.0, rest.1),
                ),
            }),
        decreases n - cnt,
    {
        let ghost pre_items = items@;
        match decode_value(buf, p) {
            Err(e) => {
                return Err(e);
            },
            Ok((v, np)) => {
                proof {
                    crate::value::lemma_elems_view(pre_items);
                    crate::value::lemma_elems_view(pre_items.push(v));
                    assert(crate::value::elems_view(pre_items.push(v)) =~= crate::value::elems_view(
                        pre_items,
                    ).push(v@));
                }
                items.push(v);
                let ghost rest_n = (n - cnt) as int;
                proof {
                    assert(dec_elems(buf@, p as int, rest_n) == (match dec_elems(
                        buf@,
                        np as int,
                        rest_n - 1,
                    ) {
                        None => None::<(Seq<ValueView>, int)>,
                        Some(rr) => Some((seq![v@] + rr.0, rr.1)),
                    }));
                    if dec_elems(buf@, np as int, rest_n - 1) is Some {
                        let rr = dec_elems(buf@, np as int, rest_n - 1)->Some_0;
                        assert(crate::value::elems_view(pre_items) + (seq![v@] + rr.0)
                            =~= crate::value::elems_view(pre_items.push(v)) + rr.0);
                    }
                }
                p = np;
                cnt = cnt + 1;
            },
        }
    }
    proof {
        assert(dec_elems(buf@, p as int, 0) == Some((Seq::<ValueView>::empty(), p as int)));
        assert(crate::value::elems_view(items@) + Seq::<ValueView>::empty()
            =~= crate::value::elems_view(items@));
        crate::value::lemma_elems_view(items@);
    }
    Ok((items, p))
}

} // verus!

