use crate::bytes_mut::{
    bytes_mut_contents, bytes_mut_extend, bytes_mut_extend_from_slice, bytes_mut_len,
    bytes_mut_reserve, bytes_mut_resize, bytes_mut_with_capacity,
};
use crate::signature::{ascii_slice, str_eq};
use crate::value::{basic_value_type, signature_of, signatures_of, Value};
use bytes::BytesMut;
use vstd::prelude::*;
use vstd::string::*;
use vstd::utf8::*;

verus! {

/// An enum representing all errors, which can occur during the encoding of a value.
#[derive(Debug, PartialEq, Eq)]
pub enum EncodeError {
    /// An array's element signature is empty, or does not start with a
    /// character of its own.
    NullSignature,
    /// An array's element signature starts with a code that gives no alignment.
    UnknownSignature(String),
    /// An array's element signature, and the signature of one of its elements.
    ArraySignatureMismatch(String, String),
    /// A signature to encode is longer than a signature may be.
    SignatureTooBig(usize),
}

/// An [`EncodeError`], with each of its strings as its UTF-8 bytes.
pub enum EncodeErrorView {
    NullSignature,
    UnknownSignature(Seq<u8>),
    ArraySignatureMismatch(Seq<u8>, Seq<u8>),
    SignatureTooBig(usize),
}

impl View for EncodeError {
    type V = EncodeErrorView;

    open spec fn view(&self) -> EncodeErrorView {
        match self {
            EncodeError::NullSignature => EncodeErrorView::NullSignature,
            EncodeError::UnknownSignature(s) => EncodeErrorView::UnknownSignature(encode_utf8(s@)),
            EncodeError::ArraySignatureMismatch(a, b) => EncodeErrorView::ArraySignatureMismatch(
                encode_utf8(a@),
                encode_utf8(b@),
            ),
            EncodeError::SignatureTooBig(n) => EncodeErrorView::SignatureTooBig(*n),
        }
    }
}

pub type EncodeResult = Result<(), EncodeError>;

/// The outcome of an encoding, with its error seen through its view.
pub open spec fn outcome_view(r: EncodeResult) -> Result<(), EncodeErrorView> {
    match r {
        Ok(()) => Ok(()),
        Err(e) => Err(e@),
    }
}

/// What an encoder holds: the bytes written, and the file descriptors that
/// the encoded values refer to by index.
pub struct EncState {
    pub buf: Seq<u8>,
    pub fds: Seq<i32>,
}

/// The number of zero bytes that bring a length of `len` to a multiple of `a`.
pub open spec fn pad_len(len: nat, a: nat) -> nat {
    if len % a == 0 {
        0
    } else {
        (a - len % a) as nat
    }
}

/// `buf` followed by the zero bytes that bring its length to a multiple of `a`.
pub open spec fn padded(buf: Seq<u8>, a: nat) -> Seq<u8> {
    buf + Seq::new(pad_len(buf.len(), a), |i: int| 0u8)
}

/// The state after aligning to `a` bytes and writing `bytes`.
pub open spec fn put(st: EncState, a: nat, bytes: Seq<u8>) -> EncState {
    EncState { buf: padded(st.buf, a) + bytes, fds: st.fds }
}

/// The two bytes of `x`, least significant first when `le` holds.
pub open spec fn u16_bytes(x: u16, le: bool) -> Seq<u8> {
    let b0 = x as u8;
    let b1 = (x >> 8u16) as u8;
    if le {
        seq![b0, b1]
    } else {
        seq![b1, b0]
    }
}

/// The four bytes of `x`, least significant first when `le` holds.
pub open spec fn u32_bytes(x: u32, le: bool) -> Seq<u8> {
    let b0 = x as u8;
    let b1 = (x >> 8u32) as u8;
    let b2 = (x >> 16u32) as u8;
    let b3 = (x >> 24u32) as u8;
    if le {
        seq![b0, b1, b2, b3]
    } else {
        seq![b3, b2, b1, b0]
    }
}

/// The eight bytes of `x`, least significant first when `le` holds.
pub open spec fn u64_bytes(x: u64, le: bool) -> Seq<u8> {
    let b0 = x as u8;
    let b1 = (x >> 8u64) as u8;
    let b2 = (x >> 16u64) as u8;
    let b3 = (x >> 24u64) as u8;
    let b4 = (x >> 32u64) as u8;
    let b5 = (x >> 40u64) as u8;
    let b6 = (x >> 48u64) as u8;
    let b7 = (x >> 56u64) as u8;
    if le {
        seq![b0, b1, b2, b3, b4, b5, b6, b7]
    } else {
        seq![b7, b6, b5, b4, b3, b2, b1, b0]
    }
}

/// A string: its byte length as a 32-bit integer (cut to 32 bits), its
/// bytes, and a zero byte.
pub open spec fn string_bytes(s: Seq<u8>, le: bool) -> Seq<u8> {
    u32_bytes(s.len() as u32, le) + s + seq![0u8]
}

/// Encoding a signature of bytes `s`: its length as one byte, its bytes and
/// a zero byte; one longer than a byte can count is refused.
pub open spec fn encode_signature(st: EncState, s: Seq<u8>) -> (EncState, Result<
    (),
    EncodeErrorView,
>) {
    if 255 < s.len() {
        (st, Err(EncodeErrorView::SignatureTooBig(s.len() as usize)))
    } else {
        (put(st, 1, seq![s.len() as u8] + s + seq![0u8]), Ok(()))
    }
}

/// The alignment of the elements of an array whose element signature has
/// the bytes `sig`. Arrays of Unix file descriptors (`h`) are encoded, as
/// arrays of any other type are, aligned to 4 like the 32-bit index that
/// each element is written as.
pub open spec fn array_alignment(sig: Seq<u8>) -> Result<nat, EncodeErrorView> {
    if sig.len() == 0 || 0x80 <= sig[0] {
        Err(EncodeErrorView::NullSignature)
    } else {
        let c = sig[0] as char;
        if c == 'v' || c == 'y' || c == 'g' {
            Ok(1)
        } else if c == 'n' || c == 'q' {
            Ok(2)
        } else if c == 'b' || c == 'i' || c == 'u' || c == 'a' || c == 's' || c == 'o' || c == 'h' {
            Ok(4)
        } else if c == 'x' || c == 't' || c == 'd' || c == '(' || c == '{' {
            Ok(8)
        } else {
            Err(EncodeErrorView::UnknownSignature(seq![sig[0]]))
        }
    }
}

/// The state after encoding the value `v`, and whether that succeeded; a
/// failed encoding leaves what was written before the failure.
pub open spec fn encode_value(st: EncState, v: Value, le: bool) -> (EncState, Result<
    (),
    EncodeErrorView,
>)
    decreases v, 2int,
{
    match v {
        Value::Byte(x) => (put(st, 1, seq![x]), Ok(())),
        Value::Boolean(x) => (put(st, 4, u32_bytes(if x { 1u32 } else { 0u32 }, le)), Ok(())),
        Value::Int16(x) => (put(st, 2, u16_bytes(x as u16, le)), Ok(())),
        Value::Uint16(x) => (put(st, 2, u16_bytes(x, le)), Ok(())),
        Value::Int32(x) => (put(st, 4, u32_bytes(x as u32, le)), Ok(())),
        Value::Uint32(x) => (put(st, 4, u32_bytes(x, le)), Ok(())),
        Value::Int64(x) => (put(st, 8, u64_bytes(x as u64, le)), Ok(())),
        Value::Uint64(x) => (put(st, 8, u64_bytes(x, le)), Ok(())),
        Value::Double(x) => (put(st, 8, u64_bytes(x, le)), Ok(())),
        Value::String(s) => (put(st, 4, string_bytes(encode_utf8(s@), le)), Ok(())),
        Value::ObjectPath(s) => (put(st, 4, string_bytes(encode_utf8(s@), le)), Ok(())),
        Value::Signature(sig) => encode_signature(st, sig.bytes()),
        Value::UnixFD(fd) => (
            put(
                EncState { buf: st.buf, fds: st.fds.push(fd) },
                4,
                u32_bytes(st.fds.len() as u32, le),
            ),
            Ok(()),
        ),
        Value::Array(values, sig) => encode_array(st, values@, sig@, le),
        Value::Struct(values) => encode_values(put(st, 8, seq![]), values@, le),
        Value::DictEntry(b) => encode_dict_entry(put(st, 8, seq![]), *b, le),
        Value::Variant(values) => encode_variant(st, values@, le),
    }
}

/// Encoding `values` one after the other, up to the first failure.
pub open spec fn encode_values(st: EncState, values: Seq<Value>, le: bool) -> (EncState, Result<
    (),
    EncodeErrorView,
>)
    decreases values, 0int,
{
    if values.len() == 0 {
        (st, Ok(()))
    } else {
        let (st1, r1) = encode_value(st, values[0], le);
        if r1 is Err {
            (st1, r1)
        } else {
            encode_values(st1, values.subrange(1, values.len() as int), le)
        }
    }
}

/// Encoding the key and then the value of a dict entry.
pub open spec fn encode_dict_entry(st: EncState, entry: (Value, Value), le: bool) -> (
    EncState,
    Result<(), EncodeErrorView>,
)
    decreases entry, 1int,
{
    let (st1, r1) = encode_value(st, entry.0, le);
    if r1 is Err {
        (st1, r1)
    } else {
        encode_value(st1, entry.1, le)
    }
}

/// Encoding a variant: the signature of its values, then the values.
pub open spec fn encode_variant(st: EncState, values: Seq<Value>, le: bool) -> (
    EncState,
    Result<(), EncodeErrorView>,
)
    decreases values, 1int,
{
    let (st1, r1) = encode_signature(st, encode_utf8(signatures_of(values)));
    if r1 is Err {
        (st1, r1)
    } else {
        encode_values(st1, values, le)
    }
}

/// Encoding the elements of an array, each after checking that its
/// signature is `sig`, up to the first failure.
pub open spec fn encode_array_elements(
    st: EncState,
    values: Seq<Value>,
    sig: Seq<char>,
    le: bool,
) -> (EncState, Result<(), EncodeErrorView>)
    decreases values, 0int,
{
    if values.len() == 0 {
        (st, Ok(()))
    } else if signature_of(values[0]) != sig {
        (
            st,
            Err(
                EncodeErrorView::ArraySignatureMismatch(
                    encode_utf8(sig),
                    encode_utf8(signature_of(values[0])),
                ),
            ),
        )
    } else {
        let (st1, r1) = encode_value(st, values[0], le);
        if r1 is Err {
            (st1, r1)
        } else {
            encode_array_elements(st1, values.subrange(1, values.len() as int), sig, le)
        }
    }
}

/// Encoding an array: its elements go to a buffer of their own (sharing the
/// file descriptors); then come the byte length of that buffer, the padding
/// to the elements' alignment, and that buffer.
pub open spec fn encode_array(st: EncState, values: Seq<Value>, sig: Seq<char>, le: bool) -> (
    EncState,
    Result<(), EncodeErrorView>,
)
    decreases values, 1int,
{
    let (sub, r) = encode_array_elements(EncState { buf: seq![], fds: st.fds }, values, sig, le);
    let st1 = EncState { buf: st.buf, fds: sub.fds };
    if r is Err {
        (st1, r)
    } else {
        let st2 = put(st1, 4, u32_bytes(sub.buf.len() as u32, le));
        match array_alignment(encode_utf8(sig)) {
            Err(e) => (st2, Err(e)),
            Ok(a) => (put(st2, a, sub.buf), Ok(())),
        }
    }
}


/// The most bytes that encoding `v` can write, in its own buffer and in the
/// buffers of the arrays within it.
pub open spec fn max_len(v: Value) -> nat
    decreases v, 1int,
{
    match v {
        Value::Byte(_) => 1,
        Value::Int16(_) => 3,
        Value::Uint16(_) => 3,
        Value::Boolean(_) => 7,
        Value::Int32(_) => 7,
        Value::Uint32(_) => 7,
        Value::UnixFD(_) => 7,
        Value::Int64(_) => 15,
        Value::Uint64(_) => 15,
        Value::Double(_) => 15,
        Value::String(s) => 8 + encode_utf8(s@).len(),
        Value::ObjectPath(s) => 8 + encode_utf8(s@).len(),
        Value::Signature(sig) => 2 + sig.bytes().len(),
        Value::Array(values, _) => 14 + max_len_all(values@),
        Value::Struct(values) => 7 + max_len_all(values@),
        Value::DictEntry(b) => 7 + max_len(b.0) + max_len(b.1),
        Value::Variant(values) => 2 + encode_utf8(signatures_of(values@)).len() + max_len_all(
            values@,
        ),
    }
}

/// The most bytes that encoding `values` one after the other can write.
pub open spec fn max_len_all(values: Seq<Value>) -> nat
    decreases values, 0int,
{
    if values.len() == 0 {
        0
    } else {
        max_len(values[0]) + max_len_all(values.subrange(1, values.len() as int))
    }
}


/// Padding brings the length of a buffer to a multiple of the alignment, so
/// what is written next starts at an aligned offset.
pub proof fn lemma_padded_aligned(buf: Seq<u8>, a: nat)
    requires
        1 <= a,
    ensures
        padded(buf, a).len() % a == 0,
        padded(buf, a).len() < buf.len() + a,
{
    let len = buf.len();
    let r = len % a;
    assert(padded(buf, a).len() == len + pad_len(len, a));
    if r != 0 {
        vstd::arithmetic::div_mod::lemma_fundamental_div_mod(len as int, a as int);
        assert((len + (a - r)) as int == a * (len as int / a as int + 1)) by (nonlinear_arith)
            requires
                len as int == a * (len as int / a as int) + r,
        ;
        vstd::arithmetic::div_mod::lemma_mod_multiples_basic(len as int / a as int + 1, a as int);
    }
}


/// The UTF-8 bytes of characters that start with an ASCII character start
/// with that character's byte.
proof fn lemma_encode_utf8_head(c: char, rest: Seq<char>)
    requires
        c <= '\u{7f}',
    ensures
        encode_utf8(seq![c] + rest).len() > 0,
        encode_utf8(seq![c] + rest)[0] == c as u8,
{
    let one = seq![c];
    is_ascii_chars_encode_utf8(one);
    assert(one.drop_first() =~= Seq::<char>::empty());
    assert((seq![c] + rest).drop_first() =~= rest);
    assert((seq![c] + rest)[0] == c);
}

/// The alignment that an array gives its elements is the one at which the
/// encoding of every value of the element signature starts. Aligning to it
/// first changes nothing in an encoding that succeeds; and a value that is
/// not a container, encoded where the buffer is so aligned, is written as
/// its own bytes, the same wherever that is.
pub proof fn lemma_array_alignment_is_value_alignment(st: EncState, v: Value, le: bool)
    ensures
        array_alignment(encode_utf8(signature_of(v))) matches Ok(a) ==> {
            &&& 1 <= a <= 8
            &&& (encode_value(st, v, le).1 is Ok ==> encode_value(put(st, a, seq![]), v, le)
                == encode_value(st, v, le))
            &&& (basic_value_type(v) is Some && !(v is Variant) && st.buf.len() % a == 0
                ==> encode_value(st, v, le).0.buf == st.buf + encode_value(
                EncState { buf: seq![], fds: st.fds },
                v,
                le,
            ).0.buf)
        },
{
    let sig = signature_of(v);
    let c = sig[0];
    let rest = sig.subrange(1, sig.len() as int);
    match v {
        Value::Array(_, s2) => {
            assert(sig == seq!['a'] + s2@);
            assert(rest == s2@);
        },
        Value::Struct(values) => {
            assert(sig == seq!['('] + (signatures_of(values@) + seq![')']));
            assert(rest == signatures_of(values@) + seq![')']);
        },
        Value::DictEntry(b) => {
            assert(sig == seq!['{'] + (signature_of(b.0) + signature_of(b.1) + seq!['}']));
            assert(rest == signature_of(b.0) + signature_of(b.1) + seq!['}']);
        },
        _ => {
            assert(rest =~= Seq::<char>::empty());
        },
    }
    assert(sig == seq![c] + rest);
    lemma_encode_utf8_head(c, rest);
    if let Ok(a) = array_alignment(encode_utf8(sig)) {
        let st0 = put(st, a, seq![]);
        lemma_padded_aligned(st.buf, a);
        assert(padded(st0.buf, a) =~= st0.buf);
        assert(st0.buf =~= padded(st.buf, a));
        assert(padded(st.buf, 1) =~= st.buf);
        assert(padded(seq![], a) =~= Seq::<u8>::empty());
        if st.buf.len() % a == 0 {
            assert(padded(st.buf, a) =~= st.buf);
        }
        match v {
            Value::Array(values, s2) => {
                let sub = encode_array_elements(
                    EncState { buf: seq![], fds: st.fds },
                    values@,
                    s2@,
                    le,
                ).0;
                let u = u32_bytes(sub.buf.len() as u32, le);
                assert(padded(st0.buf, 4) + u == padded(st.buf, 4) + u);
            },
            Value::Signature(_) => {
                assert(st0 == st);
            },
            Value::Variant(_) => {
                assert(st0 == st);
            },
            _ => {},
        }
    }
}

/// A dict entry's key and value are encoded as the two fields of a struct
/// are: the key, then the value, in the same byte order, up to the first
/// failure.
pub proof fn lemma_dict_entry_as_fields(st: EncState, k: Value, v: Value, le: bool)
    ensures
        encode_dict_entry(st, (k, v), le) == encode_values(st, seq![k, v], le),
{
    let fields = seq![k, v];
    assert(fields.subrange(1, 2) =~= seq![v]);
    assert(seq![v].subrange(1, 1) =~= Seq::<Value>::empty());
    let (st2, r2) = encode_value(st, k, le);
    if r2 is Ok {
        assert(encode_values(st, fields, le) == encode_values(st2, seq![v], le));
        let (st3, r3) = encode_value(st2, v, le);
        assert(encode_values(st3, Seq::<Value>::empty(), le) == (st3, Ok::<(), EncodeErrorView>(())));
        if let Ok(u) = r3 {
            let unit: () = ();
            assert(u == unit);
        }
        assert(encode_values(st2, seq![v], le) == (st3, r3));
    }
    assert(fields[0] == k);
}

/// A dict entry value is encoded as the struct value of its key and its
/// value: aligned to 8, then the key, then the value, in the same byte order.
pub proof fn lemma_dict_entry_as_struct(st: EncState, d: Value, s: Value, le: bool)
    requires
        d matches Value::DictEntry(b) && s matches Value::Struct(fields) && fields@ == seq![
            b.0,
            b.1,
        ],
    ensures
        encode_value(st, d, le) == encode_value(st, s, le),
{
    let b = d->DictEntry_0;
    let st1 = put(st, 8, seq![]);
    assert(encode_value(st, d, le) == encode_dict_entry(st1, *b, le));
    assert(encode_value(st, s, le) == encode_values(st1, seq![b.0, b.1], le));
    lemma_dict_entry_as_fields(st1, b.0, b.1, le);
}

/// The bytes of a fixed-size integer: least significant first in little
/// endian order, so that they add up to its value, and the other way round
/// in big endian order.
pub proof fn lemma_integer_bytes(x16: u16, x32: u32, x64: u64)
    ensures
        x16 == u16_bytes(x16, true)[0] + 256 * u16_bytes(x16, true)[1],
        u16_bytes(x16, false) == u16_bytes(x16, true).reverse(),
        x32 == u32_bytes(x32, true)[0] + 256 * u32_bytes(x32, true)[1] + 65536 * u32_bytes(
            x32,
            true,
        )[2] + 16777216 * u32_bytes(x32, true)[3],
        u32_bytes(x32, false) == u32_bytes(x32, true).reverse(),
        u64_bytes(x64, false) == u64_bytes(x64, true).reverse(),
        x64 == u64_bytes(x64, true)[0] + 0x100 * u64_bytes(x64, true)[1] + 0x1_0000 * u64_bytes(
            x64,
            true,
        )[2] + 0x100_0000 * u64_bytes(x64, true)[3] + 0x1_0000_0000 * u64_bytes(x64, true)[4]
            + 0x100_0000_0000 * u64_bytes(x64, true)[5] + 0x1_0000_0000_0000 * u64_bytes(
            x64,
            true,
        )[6] + 0x100_0000_0000_0000 * u64_bytes(x64, true)[7],
{
    assert(x16 == (x16 as u8) + 256 * ((x16 >> 8u16) as u8)) by (bit_vector);
    assert(x32 == (x32 as u8) + 256 * ((x32 >> 8u32) as u8) + 65536 * ((x32 >> 16u32) as u8)
        + 16777216 * ((x32 >> 24u32) as u8)) by (bit_vector);
    assert(x64 == (x64 as u8) + 0x100 * ((x64 >> 8u64) as u8) + 0x1_0000 * ((x64 >> 16u64) as u8)
        + 0x100_0000 * ((x64 >> 24u64) as u8) + 0x1_0000_0000 * ((x64 >> 32u64) as u8)
        + 0x100_0000_0000 * ((x64 >> 40u64) as u8) + 0x1_0000_0000_0000 * ((x64 >> 48u64) as u8)
        + 0x100_0000_0000_0000 * ((x64 >> 56u64) as u8)) by (bit_vector);
    assert(u16_bytes(x16, false) =~= u16_bytes(x16, true).reverse());
    assert(u32_bytes(x32, false) =~= u32_bytes(x32, true).reverse());
    assert(u64_bytes(x64, false) =~= u64_bytes(x64, true).reverse());
}

/// `a` starts with `b`.
pub open spec fn extends(a: Seq<u8>, b: Seq<u8>) -> bool {
    b.len() <= a.len() && a.subrange(0, b.len() as int) == b
}

/// `after` keeps the bytes of `before` and has at most `n` more.
pub open spec fn grows_by_at_most(before: EncState, after: EncState, n: nat) -> bool {
    extends(after.buf, before.buf) && after.buf.len() <= before.buf.len() + n
}

proof fn lemma_put_grows(st: EncState, a: nat, bytes: Seq<u8>)
    requires
        1 <= a <= 8,
    ensures
        grows_by_at_most(st, put(st, a, bytes), (a - 1 + bytes.len()) as nat),
        put(st, a, bytes).fds == st.fds,
{
    let p = put(st, a, bytes).buf;
    assert(p.subrange(0, st.buf.len() as int) =~= st.buf);
}

proof fn lemma_grows_trans(a: EncState, b: EncState, c: EncState, n: nat, m: nat)
    requires
        grows_by_at_most(a, b, n),
        grows_by_at_most(b, c, m),
    ensures
        grows_by_at_most(a, c, n + m),
{
    assert(c.buf.subrange(0, a.buf.len() as int) =~= c.buf.subrange(0, b.buf.len() as int).subrange(
        0,
        a.buf.len() as int,
    ));
}

/// Encoding a value appends to what was written, and at most `max_len` bytes.
pub proof fn lemma_encode_value_grows(st: EncState, v: Value, le: bool)
    ensures
        grows_by_at_most(st, encode_value(st, v, le).0, max_len(v)),
    decreases v, 2int,
{
    match v {
        Value::Byte(x) => {
            lemma_put_grows(st, 1, seq![x]);
        },
        Value::Boolean(x) => {
            lemma_put_grows(st, 4, u32_bytes(if x { 1u32 } else { 0u32 }, le));
        },
        Value::Int16(x) => {
            lemma_put_grows(st, 2, u16_bytes(x as u16, le));
        },
        Value::Uint16(x) => {
            lemma_put_grows(st, 2, u16_bytes(x, le));
        },
        Value::Int32(x) => {
            lemma_put_grows(st, 4, u32_bytes(x as u32, le));
        },
        Value::Uint32(x) => {
            lemma_put_grows(st, 4, u32_bytes(x, le));
        },
        Value::Int64(x) => {
            lemma_put_grows(st, 8, u64_bytes(x as u64, le));
        },
        Value::Uint64(x) => {
            lemma_put_grows(st, 8, u64_bytes(x, le));
        },
        Value::Double(x) => {
            lemma_put_grows(st, 8, u64_bytes(x, le));
        },
        Value::String(s) => {
            lemma_put_grows(st, 4, string_bytes(encode_utf8(s@), le));
        },
        Value::ObjectPath(s) => {
            lemma_put_grows(st, 4, string_bytes(encode_utf8(s@), le));
        },
        Value::Signature(sig) => {
            let b = sig.bytes();
            lemma_put_grows(st, 1, seq![b.len() as u8] + b + seq![0u8]);
            assert(st.buf.subrange(0, st.buf.len() as int) =~= st.buf);
        },
        Value::UnixFD(fd) => {
            lemma_put_grows(
                EncState { buf: st.buf, fds: st.fds.push(fd) },
                4,
                u32_bytes(st.fds.len() as u32, le),
            );
        },
        Value::Array(values, sig) => {
            lemma_encode_array_grows(st, values@, sig@, le);
        },
        Value::Struct(values) => {
            let st1 = put(st, 8, seq![]);
            lemma_put_grows(st, 8, seq![]);
            lemma_encode_values_grows(st1, values@, le);
            lemma_grows_trans(st, st1, encode_values(st1, values@, le).0, 7, max_len_all(values@));
        },
        Value::DictEntry(b) => {
            let st1 = put(st, 8, seq![]);
            lemma_put_grows(st, 8, seq![]);
            lemma_encode_dict_entry_grows(st1, *b, le);
            lemma_grows_trans(
                st,
                st1,
                encode_dict_entry(st1, *b, le).0,
                7,
                max_len(b.0) + max_len(b.1),
            );
        },
        Value::Variant(values) => {
            lemma_encode_variant_grows(st, values@, le);
        },
    }
}

/// Encoding values one after the other appends to what was written, and at
/// most `max_len_all` bytes.
pub proof fn lemma_encode_values_grows(st: EncState, values: Seq<Value>, le: bool)
    ensures
        grows_by_at_most(st, encode_values(st, values, le).0, max_len_all(values)),
    decreases values, 0int,
{
    if values.len() == 0 {
        assert(st.buf.subrange(0, st.buf.len() as int) =~= st.buf);
    } else {
        let (st1, r1) = encode_value(st, values[0], le);
        lemma_encode_value_grows(st, values[0], le);
        if r1 is Ok {
            let rest = values.subrange(1, values.len() as int);
            lemma_encode_values_grows(st1, rest, le);
            lemma_grows_trans(
                st,
                st1,
                encode_values(st1, rest, le).0,
                max_len(values[0]),
                max_len_all(rest),
            );
        }
    }
}

proof fn lemma_encode_dict_entry_grows(st: EncState, entry: (Value, Value), le: bool)
    ensures
        grows_by_at_most(
            st,
            encode_dict_entry(st, entry, le).0,
            max_len(entry.0) + max_len(entry.1),
        ),
    decreases entry, 1int,
{
    let (st1, r1) = encode_value(st, entry.0, le);
    lemma_encode_value_grows(st, entry.0, le);
    if r1 is Ok {
        lemma_encode_value_grows(st1, entry.1, le);
        lemma_grows_trans(
            st,
            st1,
            encode_value(st1, entry.1, le).0,
            max_len(entry.0),
            max_len(entry.1),
        );
    }
}

proof fn lemma_encode_variant_grows(st: EncState, values: Seq<Value>, le: bool)
    ensures
        grows_by_at_most(
            st,
            encode_variant(st, values, le).0,
            2 + encode_utf8(signatures_of(values)).len() + max_len_all(values),
        ),
    decreases values, 1int,
{
    let sig = encode_utf8(signatures_of(values));
    let (st1, r1) = encode_signature(st, sig);
    if r1 is Ok {
        lemma_put_grows(st, 1, seq![sig.len() as u8] + sig + seq![0u8]);
        lemma_encode_values_grows(st1, values, le);
        lemma_grows_trans(
            st,
            st1,
            encode_values(st1, values, le).0,
            (2 + sig.len()) as nat,
            max_len_all(values),
        );
    } else {
        assert(st.buf.subrange(0, st.buf.len() as int) =~= st.buf);
    }
}

proof fn lemma_encode_array_elements_grows(
    st: EncState,
    values: Seq<Value>,
    sig: Seq<char>,
    le: bool,
)
    ensures
        grows_by_at_most(st, encode_array_elements(st, values, sig, le).0, max_len_all(values)),
    decreases values, 0int,
{
    if values.len() == 0 || signature_of(values[0]) != sig {
        assert(st.buf.subrange(0, st.buf.len() as int) =~= st.buf);
    } else {
        let (st1, r1) = encode_value(st, values[0], le);
        lemma_encode_value_grows(st, values[0], le);
        if r1 is Ok {
            let rest = values.subrange(1, values.len() as int);
            lemma_encode_array_elements_grows(st1, rest, sig, le);
            lemma_grows_trans(
                st,
                st1,
                encode_array_elements(st1, rest, sig, le).0,
                max_len(values[0]),
                max_len_all(rest),
            );
        }
    }
}

proof fn lemma_encode_array_grows(st: EncState, values: Seq<Value>, sig: Seq<char>, le: bool)
    ensures
        grows_by_at_most(st, encode_array(st, values, sig, le).0, 14 + max_len_all(values)),
    decreases values, 1int,
{
    let st0 = EncState { buf: seq![], fds: st.fds };
    let (sub, r) = encode_array_elements(st0, values, sig, le);
    lemma_encode_array_elements_grows(st0, values, sig, le);
    let st1 = EncState { buf: st.buf, fds: sub.fds };
    assert(st.buf.subrange(0, st.buf.len() as int) =~= st.buf);
    if r is Ok {
        let st2 = put(st1, 4, u32_bytes(sub.buf.len() as u32, le));
        lemma_put_grows(st1, 4, u32_bytes(sub.buf.len() as u32, le));
        if let Ok(a) = array_alignment(encode_utf8(sig)) {
            lemma_put_grows(st2, a, sub.buf);
            lemma_grows_trans(st1, st2, put(st2, a, sub.buf), 7, (a - 1 + sub.buf.len()) as nat);
        }
    }
}


fn u16_to_bytes(x: u16, le: bool) -> (r: Vec<u8>)
    ensures
        r@ == u16_bytes(x, le),
{
    let b0 = x as u8;
    let b1 = (x >> 8u16) as u8;
    if le {
        vec![b0, b1]
    } else {
        vec![b1, b0]
    }
}

fn u32_to_bytes(x: u32, le: bool) -> (r: Vec<u8>)
    ensures
        r@ == u32_bytes(x, le),
{
    let b0 = x as u8;
    let b1 = (x >> 8u32) as u8;
    let b2 = (x >> 16u32) as u8;
    let b3 = (x >> 24u32) as u8;
    if le {
        vec![b0, b1, b2, b3]
    } else {
        vec![b3, b2, b1, b0]
    }
}

fn u64_to_bytes(x: u64, le: bool) -> (r: Vec<u8>)
    ensures
        r@ == u64_bytes(x, le),
{
    let b0 = x as u8;
    let b1 = (x >> 8u64) as u8;
    let b2 = (x >> 16u64) as u8;
    let b3 = (x >> 24u64) as u8;
    let b4 = (x >> 32u64) as u8;
    let b5 = (x >> 40u64) as u8;
    let b6 = (x >> 48u64) as u8;
    let b7 = (x >> 56u64) as u8;
    if le {
        vec![b0, b1, b2, b3, b4, b5, b6, b7]
    } else {
        vec![b7, b6, b5, b4, b3, b2, b1, b0]
    }
}

/// Writes D-Bus values into a byte buffer, and collects the file descriptors
/// that they hold.
pub struct Encoder {
    buf: BytesMut,
    fds: Vec<i32>,
}

impl Encoder {
    /// The bytes written so far, and the file descriptors collected so far.
    pub closed spec fn state(&self) -> EncState {
        EncState { buf: bytes_mut_contents(self.buf), fds: self.fds@ }
    }

    /// An encoder that writes after the bytes of `buf`, and adds to `fds`.
    pub fn new(buf: BytesMut, fds: Vec<i32>) -> (r: Encoder)
        ensures
            r.state() == (EncState { buf: bytes_mut_contents(buf), fds: fds@ }),
    {
        Encoder { buf, fds }
    }

    /// The bytes written and the file descriptors collected.
    pub fn into_parts(self) -> (r: (BytesMut, Vec<i32>))
        ensures
            bytes_mut_contents(r.0) == self.state().buf,
            r.1@ == self.state().fds,
    {
        (self.buf, self.fds)
    }

    /// Pad with zero bytes up to a multiple of `a` bytes.
    fn algin(&mut self, a: usize)
        requires
            1 <= a <= 8,
            old(self).state().buf.len() + a - 1 <= isize::MAX,
        ensures
            final(self).state() == put(old(self).state(), a as nat, seq![]),
    {
        let ghost st = self.state();
        let len = bytes_mut_len(&self.buf);
        let p = len % a;
        if p != 0 {
            bytes_mut_resize(&mut self.buf, len + (a - p), 0);
        }
        assert(self.state().buf =~= put(st, a as nat, seq![]).buf);
    }

    /// Pad up to a multiple of `a` bytes, then write `bytes`.
    fn put_bytes(&mut self, a: usize, bytes: &[u8])
        requires
            1 <= a <= 8,
            old(self).state().buf.len() + a - 1 + bytes@.len() <= isize::MAX,
        ensures
            final(self).state() == put(old(self).state(), a as nat, bytes@),
    {
        let ghost st = self.state();
        self.algin(a);
        bytes_mut_extend_from_slice(&mut self.buf, bytes);
        assert(self.state().buf =~= put(st, a as nat, bytes@).buf);
    }

    fn uint_32(&mut self, x: u32, is_le: bool)
        requires
            old(self).state().buf.len() + 7 <= isize::MAX,
        ensures
            final(self).state() == put(old(self).state(), 4, u32_bytes(x, is_le)),
    {
        let bytes = u32_to_bytes(x, is_le);
        self.put_bytes(4, bytes.as_slice());
    }

    /// Encode a string: its byte length, its bytes and a zero byte.
    fn string(&mut self, s: &str, is_le: bool)
        requires
            old(self).state().buf.len() + 8 + s.spec_bytes().len() <= isize::MAX,
        ensures
            final(self).state() == put(old(self).state(), 4, string_bytes(s.spec_bytes(), is_le)),
    {
        let ghost st = self.state();
        let bytes = s.as_bytes();
        self.uint_32(bytes.len() as u32, is_le);
        bytes_mut_extend_from_slice(&mut self.buf, bytes);
        let zero = vec![0u8];
        bytes_mut_extend_from_slice(&mut self.buf, zero.as_slice());
        assert(self.state().buf =~= put(st, 4, string_bytes(s.spec_bytes(), is_le)).buf);
    }

    /// Encode a signature: its byte length as one byte, its bytes and a zero
    /// byte. A signature longer than a byte can count is refused.
    pub fn signature(&mut self, sig: &str) -> (r: EncodeResult)
        requires
            old(self).state().buf.len() + 2 + sig.spec_bytes().len() <= isize::MAX,
        ensures
            (final(self).state(), outcome_view(r)) == encode_signature(
                old(self).state(),
                sig.spec_bytes(),
            ),
    {
        let ghost st = self.state();
        let bytes = sig.as_bytes();
        let len = bytes.len();
        if 255 < len {
            return Err(EncodeError::SignatureTooBig(len));
        }
        let head = vec![len as u8];
        bytes_mut_extend_from_slice(&mut self.buf, head.as_slice());
        bytes_mut_extend_from_slice(&mut self.buf, bytes);
        let zero = vec![0u8];
        bytes_mut_extend_from_slice(&mut self.buf, zero.as_slice());
        assert(self.state().buf =~= put(st, 1, seq![len as u8] + bytes@ + seq![0u8]).buf);
        Ok(())
    }
}


impl Encoder {
    /// Encode a value into the buffer.
    pub fn value(&mut self, value: &Value, is_le: bool) -> (r: EncodeResult)
        requires
            old(self).state().buf.len() + max_len(*value) <= isize::MAX,
        ensures
            (final(self).state(), outcome_view(r)) == encode_value(old(self).state(), *value, is_le),
        decreases value,
    {
        match value {
            Value::Byte(x) => {
                let bytes = vec![*x];
                assert(bytes@ =~= seq![*x]);
                self.put_bytes(1, bytes.as_slice());
                Ok(())
            },
            Value::Boolean(x) => {
                self.uint_32(if *x { 1u32 } else { 0u32 }, is_le);
                Ok(())
            },
            Value::Int16(x) => {
                let bytes = u16_to_bytes(*x as u16, is_le);
                self.put_bytes(2, bytes.as_slice());
                Ok(())
            },
            Value::Uint16(x) => {
                let bytes = u16_to_bytes(*x, is_le);
                self.put_bytes(2, bytes.as_slice());
                Ok(())
            },
            Value::Int32(x) => {
                self.uint_32(*x as u32, is_le);
                Ok(())
            },
            Value::Uint32(x) => {
                self.uint_32(*x, is_le);
                Ok(())
            },
            Value::Int64(x) => {
                let bytes = u64_to_bytes(*x as u64, is_le);
                self.put_bytes(8, bytes.as_slice());
                Ok(())
            },
            Value::Uint64(x) => {
                let bytes = u64_to_bytes(*x, is_le);
                self.put_bytes(8, bytes.as_slice());
                Ok(())
            },
            Value::Double(x) => {
                let bytes = u64_to_bytes(*x, is_le);
                self.put_bytes(8, bytes.as_slice());
                Ok(())
            },
            Value::String(s) => {
                self.string(s.as_str(), is_le);
                Ok(())
            },
            Value::ObjectPath(s) => {
                self.string(s.as_str(), is_le);
                Ok(())
            },
            Value::Signature(sig) => self.signature(sig.as_str()),
            Value::UnixFD(fd) => {
                let index = self.fds.len() as u32;
                self.fds.push(*fd);
                self.uint_32(index, is_le);
                Ok(())
            },
            Value::Array(values, sig) => {
                proof {
                    let vs = (*value)->Array_0;
                    assert(decreases_to!(*value => vs));
                    assert(decreases_to!(vs => vs@));
                }
                self.array(values, sig.as_str(), is_le)
            },
            Value::Struct(values) => {
                proof {
                    let vs = (*value)->Struct_0;
                    assert(decreases_to!(*value => vs));
                    assert(decreases_to!(vs => vs@));
                    lemma_put_grows(self.state(), 8, seq![]);
                }
                self.algin(8);
                self.encode_struct(values.as_slice(), is_le)
            },
            Value::DictEntry(b) => {
                proof {
                    lemma_put_grows(self.state(), 8, seq![]);
                }
                self.algin(8);
                self.dict_entry(&**b, is_le)
            },
            Value::Variant(values) => {
                proof {
                    let vs = (*value)->Variant_0;
                    assert(decreases_to!(*value => vs));
                    assert(decreases_to!(vs => vs@));
                }
                self.variant(values.as_slice(), is_le)
            },
        }
    }


    /// Encode a `&Vec<Value>` as an array into the buffer.
    pub fn array(&mut self, vec: &Vec<Value>, sig: &str, is_le: bool) -> (r: EncodeResult)
        requires
            old(self).state().buf.len() + 14 + max_len_all(vec@) <= isize::MAX,
        ensures
            (final(self).state(), outcome_view(r)) == encode_array(
                old(self).state(),
                vec@,
                sig@,
                is_le,
            ),
        decreases vec@,
    {
        let ghost st0 = self.state();
        let ghost n = vec@.len();
        let mut fds: Vec<i32> = Vec::new();
        std::mem::swap(&mut fds, &mut self.fds);
        let mut encoder = Encoder::new(bytes_mut_with_capacity(128), fds);
        let ghost sub0 = encoder.state();
        assert(sub0 == (EncState { buf: seq![], fds: st0.fds }));
        let mut element_sig = String::new();
        let mut i: usize = 0;
        assert(vec@.subrange(0, n as int) == vec@);
        while i < vec.len()
            invariant
                i <= n == vec@.len(),
                st0 == old(self).state(),
                sub0 == (EncState { buf: seq![], fds: st0.fds }),
                element_sig@ == Seq::<char>::empty(),
                encode_array_elements(encoder.state(), vec@.subrange(i as int, n as int), sig@, is_le)
                    == encode_array_elements(sub0, vec@, sig@, is_le),
                encoder.state().buf.len() + max_len_all(vec@.subrange(i as int, n as int))
                    <= max_len_all(vec@),
                st0.buf.len() + 14 + max_len_all(vec@) <= isize::MAX,
                bytes_mut_contents(self.buf) == st0.buf,
            decreases n - i,
        {
            let ghost rest = vec@.subrange(i as int, n as int);
            assert(rest[0] == vec@[i as int]);
            assert(rest.subrange(1, rest.len() as int) == vec@.subrange(i + 1, n as int));
            vec[i].get_signature(&mut element_sig);
            assert(element_sig@ =~= signature_of(vec@[i as int]));
            if str_eq(sig, element_sig.as_str()) {
                element_sig = String::new();
            } else {
                let (_, fds) = encoder.into_parts();
                self.fds = fds;
                return Err(EncodeError::ArraySignatureMismatch(sig.to_owned(), element_sig));
            }
            proof {
                lemma_encode_value_grows(encoder.state(), vec@[i as int], is_le);
            }
            assert(decreases_to!(vec@ => vec@[i as int]));
            match encoder.value(&vec[i], is_le) {
                Ok(()) => {},
                Err(e) => {
                    let (_, fds) = encoder.into_parts();
                    self.fds = fds;
                    return Err(e);
                },
            }
            i += 1;
        }
        let (array_buf, fds) = encoder.into_parts();
        self.fds = fds;

        let array_len = bytes_mut_len(&array_buf);
        self.uint_32(array_len as u32, is_le);
        let ghost st2 = self.state();

        let bytes = sig.as_bytes();
        if bytes.len() == 0 || 0x80 <= bytes[0] {
            return Err(EncodeError::NullSignature);
        }
        let c = bytes[0] as char;
        if c == 'v' || c == 'y' || c == 'g' {
        } else if c == 'n' || c == 'q' {
            self.algin(2);
        } else if c == 'b' || c == 'i' || c == 'u' || c == 'a' || c == 's' || c == 'o' || c == 'h' {
            // A Unix file descriptor is written as a 32-bit index, aligned to 4.
            self.algin(4);
        } else if c == 'x' || c == 't' || c == 'd' || c == '(' || c == '{' {
            self.algin(8);
        } else {
            let first = ascii_slice(sig, 0, 1);
            assert(first.spec_bytes() =~= seq![bytes@[0]]);
            return Err(EncodeError::UnknownSignature(first.to_owned()));
        }
        let ghost a = array_alignment(sig.spec_bytes())->Ok_0;
        assert(self.state().buf =~= padded(st2.buf, a));

        bytes_mut_reserve(&mut self.buf, array_len);
        bytes_mut_extend(&mut self.buf, array_buf);
        assert(self.state().buf =~= put(st2, a, bytes_mut_contents(array_buf)).buf);
        Ok(())
    }

    /// Encode a `&[Value]` as a struct into the buffer.
    pub fn encode_struct(&mut self, values: &[Value], is_le: bool) -> (r: EncodeResult)
        requires
            old(self).state().buf.len() + max_len_all(values@) <= isize::MAX,
        ensures
            (final(self).state(), outcome_view(r)) == encode_values(
                old(self).state(),
                values@,
                is_le,
            ),
        decreases values@,
    {
        let ghost st0 = self.state();
        let ghost n = values@.len();
        let mut i: usize = 0;
        assert(values@.subrange(0, n as int) == values@);
        while i < values.len()
            invariant
                i <= n == values@.len(),
                st0 == old(self).state(),
                encode_values(self.state(), values@.subrange(i as int, n as int), is_le)
                    == encode_values(st0, values@, is_le),
                self.state().buf.len() + max_len_all(values@.subrange(i as int, n as int))
                    <= isize::MAX,
            decreases n - i,
        {
            let ghost rest = values@.subrange(i as int, n as int);
            assert(rest[0] == values@[i as int]);
            assert(rest.subrange(1, rest.len() as int) == values@.subrange(i + 1, n as int));
            proof {
                lemma_encode_value_grows(self.state(), values@[i as int], is_le);
            }
            assert(decreases_to!(values@ => values@[i as int]));
            match self.value(&values[i], is_le) {
                Ok(()) => {},
                Err(e) => return Err(e),
            }
            i += 1;
        }
        Ok(())
    }

    /// Encode a `&(Value, Value)` as a dict entry into the buffer.
    pub fn dict_entry(&mut self, b: &(Value, Value), is_le: bool) -> (r: EncodeResult)
        requires
            old(self).state().buf.len() + max_len(b.0) + max_len(b.1) <= isize::MAX,
        ensures
            (final(self).state(), outcome_view(r)) == encode_dict_entry(
                old(self).state(),
                *b,
                is_le,
            ),
        decreases *b,
    {
        let (key, value) = b;
        proof {
            lemma_encode_value_grows(self.state(), *key, is_le);
        }
        match self.value(key, is_le) {
            Ok(()) => {},
            Err(e) => return Err(e),
        }
        self.value(value, is_le)
    }

    /// Encode a `&[Value]` as a variant into the buffer.
    pub fn variant(&mut self, values: &[Value], is_le: bool) -> (r: EncodeResult)
        requires
            old(self).state().buf.len() + 2 + encode_utf8(signatures_of(values@)).len()
                + max_len_all(values@) <= isize::MAX,
        ensures
            (final(self).state(), outcome_view(r)) == encode_variant(
                old(self).state(),
                values@,
                is_le,
            ),
        decreases values@,
    {
        let ghost st0 = self.state();
        let ghost n = values@.len();
        let mut sig = String::new();
        let mut i: usize = 0;
        while i < values.len()
            invariant
                i <= n == values@.len(),
                st0 == old(self).state(),
                sig@ == signatures_of(values@.subrange(0, i as int)),
            decreases n - i,
        {
            assert(values@.subrange(0, i + 1).subrange(0, i as int) == values@.subrange(
                0,
                i as int,
            ));
            values[i].get_signature(&mut sig);
            i += 1;
        }
        assert(values@.subrange(0, n as int) == values@);

        match self.signature(sig.as_str()) {
            Ok(()) => {},
            Err(e) => return Err(e),
        }

        let ghost st1 = self.state();
        proof {
            lemma_put_grows(
                st0,
                1,
                seq![encode_utf8(sig@).len() as u8] + encode_utf8(sig@) + seq![0u8],
            );
        }
        let mut i: usize = 0;
        while i < values.len()
            invariant
                i <= n == values@.len(),
                st0 == old(self).state(),
                encode_signature(st0, encode_utf8(signatures_of(values@))) == (st1, Ok::<
                    (),
                    EncodeErrorView,
                >(())),
                encode_values(self.state(), values@.subrange(i as int, n as int), is_le)
                    == encode_values(st1, values@, is_le),
                self.state().buf.len() + max_len_all(values@.subrange(i as int, n as int))
                    <= isize::MAX,
            decreases n - i,
        {
            let ghost rest = values@.subrange(i as int, n as int);
            assert(rest[0] == values@[i as int]);
            assert(rest.subrange(1, rest.len() as int) == values@.subrange(i + 1, n as int));
            proof {
                lemma_encode_value_grows(self.state(), values@[i as int], is_le);
            }
            assert(decreases_to!(values@ => values@[i as int]));
            match self.value(&values[i], is_le) {
                Ok(()) => {},
                Err(e) => return Err(e),
            }
            i += 1;
        }
        Ok(())
    }
}

} // verus!
