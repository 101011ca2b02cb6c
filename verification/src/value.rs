use crate::signature::{
    complete_type_end, complete_types, is_first_type, is_valid_signature,
    lemma_basic_code_is_complete_type, parse_signature, Signature, SignatureError,
};
use vstd::utf8::*;
use vstd::prelude::*;
use vstd::string::*;

verus! {

/// The type of a D-Bus value.
#[derive(Debug, Clone, PartialEq, Eq)]
pub enum Type {
    Byte,
    Boolean,
    Int16,
    Uint16,
    Int32,
    Uint32,
    Int64,
    Uint64,
    Double,
    String,
    ObjectPath,
    Signature,
    UnixFD,
    /// An array, with the signature of its elements.
    Array(Signature),
    /// A struct, with the signatures of its fields, one after the other.
    Struct(Signature),
    /// A dict entry, with the signatures of its key and of its value.
    DictEntry(Signature, Signature),
    Variant,
}

/// A D-Bus value.
#[derive(Debug, PartialEq)]
pub enum Value {
    Byte(u8),
    Boolean(bool),
    Int16(i16),
    Uint16(u16),
    Int32(i32),
    Uint32(u32),
    Int64(i64),
    Uint64(u64),
    /// A double, held as the bits of its IEEE 754 binary64 form.
    Double(u64),
    String(String),
    ObjectPath(String),
    Signature(Signature),
    /// A Unix file descriptor (type code `h`, available on every target as on unix).
    UnixFD(i32),
    /// An array: its elements, and the signature that each of them has.
    Array(Vec<Value>, String),
    Struct(Vec<Value>),
    DictEntry(Box<(Value, Value)>),
    /// A variant: the values that it holds, each with its own signature.
    Variant(Vec<Value>),
}

/// The signature of a value.
pub open spec fn signature_of(v: Value) -> Seq<char>
    decreases v,
{
    match v {
        Value::Byte(_) => seq!['y'],
        Value::Boolean(_) => seq!['b'],
        Value::Int16(_) => seq!['n'],
        Value::Uint16(_) => seq!['q'],
        Value::Int32(_) => seq!['i'],
        Value::Uint32(_) => seq!['u'],
        Value::Int64(_) => seq!['x'],
        Value::Uint64(_) => seq!['t'],
        Value::Double(_) => seq!['d'],
        Value::String(_) => seq!['s'],
        Value::ObjectPath(_) => seq!['o'],
        Value::Signature(_) => seq!['g'],
        Value::UnixFD(_) => seq!['h'],
        Value::Array(_, sig) => seq!['a'] + sig@,
        Value::Struct(values) => seq!['('] + signatures_of(values@) + seq![')'],
        Value::DictEntry(b) => seq!['{'] + signature_of(b.0) + signature_of(b.1) + seq!['}'],
        Value::Variant(_) => seq!['v'],
    }
}

/// The signatures of values, one after the other.
pub open spec fn signatures_of(values: Seq<Value>) -> Seq<char>
    decreases values,
{
    if values.len() == 0 {
        seq![]
    } else {
        signatures_of(values.subrange(0, values.len() - 1)) + signature_of(values.last())
    }
}

/// The type of a value that is not a container, by its kind: a byte value has
/// the byte type, a 32-bit signed value the 32-bit signed type, and so on.
pub open spec fn basic_value_type(v: Value) -> Option<Type> {
    match v {
        Value::Byte(_) => Some(Type::Byte),
        Value::Boolean(_) => Some(Type::Boolean),
        Value::Int16(_) => Some(Type::Int16),
        Value::Uint16(_) => Some(Type::Uint16),
        Value::Int32(_) => Some(Type::Int32),
        Value::Uint32(_) => Some(Type::Uint32),
        Value::Int64(_) => Some(Type::Int64),
        Value::Uint64(_) => Some(Type::Uint64),
        Value::Double(_) => Some(Type::Double),
        Value::String(_) => Some(Type::String),
        Value::ObjectPath(_) => Some(Type::ObjectPath),
        Value::Signature(_) => Some(Type::Signature),
        Value::UnixFD(_) => Some(Type::UnixFD),
        Value::Variant(_) => Some(Type::Variant),
        _ => None,
    }
}

/// The signature of a value that is not a container is a valid signature
/// of one complete type, and the type that it names (the one `get_type`
/// reports) is the value's own type.
pub proof fn lemma_signature_names_value_type(v: Value)
    ensures
        basic_value_type(v) matches Some(t) ==> ({
            let s = encode_utf8(signature_of(v));
            &&& is_valid_signature(s)
            &&& parse_signature(s) == Ok::<Seq<Seq<u8>>, SignatureError>(seq![s])
            &&& is_first_type(s, t)
        }),
{
    if basic_value_type(v) is Some {
        let cs = signature_of(v);
        let c = cs[0];
        assert(cs == seq![c]);
        is_ascii_chars_encode_utf8(cs);
        let s = encode_utf8(cs);
        assert(s =~= seq![c as u8]);
        lemma_basic_code_is_complete_type(seq![], c, seq![], 0, 0, 0);
        assert(seq![] + seq![c as u8] + seq![] == s);
        assert(complete_type_end(s, 0, 0, 0, 0) == Ok::<int, SignatureError>(1));
        assert(complete_types(s, 1) == Ok::<Seq<Seq<u8>>, SignatureError>(seq![]));
        assert(s.subrange(0, 1) == s);
        assert(seq![s] + seq![] == seq![s]);
    }
}

impl Value {
    /// Append the signature of the value to `signature`.
    pub fn get_signature(&self, signature: &mut String)
        ensures
            final(signature)@ == old(signature)@ + signature_of(*self),
        decreases self,
    {
        proof {
            reveal_strlit("y");
            reveal_strlit("b");
            reveal_strlit("n");
            reveal_strlit("q");
            reveal_strlit("i");
            reveal_strlit("u");
            reveal_strlit("x");
            reveal_strlit("t");
            reveal_strlit("d");
            reveal_strlit("s");
            reveal_strlit("o");
            reveal_strlit("g");
            reveal_strlit("h");
            reveal_strlit("a");
            reveal_strlit("(");
            reveal_strlit(")");
            reveal_strlit("{");
            reveal_strlit("}");
            reveal_strlit("v");
        }
        match self {
            Value::Byte(_) => signature.append("y"),
            Value::Boolean(_) => signature.append("b"),
            Value::Int16(_) => signature.append("n"),
            Value::Uint16(_) => signature.append("q"),
            Value::Int32(_) => signature.append("i"),
            Value::Uint32(_) => signature.append("u"),
            Value::Int64(_) => signature.append("x"),
            Value::Uint64(_) => signature.append("t"),
            Value::Double(_) => signature.append("d"),
            Value::String(_) => signature.append("s"),
            Value::ObjectPath(_) => signature.append("o"),
            Value::Signature(_) => signature.append("g"),
            Value::UnixFD(_) => signature.append("h"),
            Value::Array(_, sig) => {
                signature.append("a");
                signature.append(sig.as_str());
            },
            Value::Struct(values) => {
                signature.append("(");
                let ghost start = signature@;
                let mut i: usize = 0;
                while i < values.len()
                    invariant
                        i <= values.len(),
                        *self == Value::Struct(*values),
                        signature@ == start + signatures_of(values@.subrange(0, i as int)),
                    decreases values.len() - i,
                {
                    assert(values@.subrange(0, i + 1).subrange(0, i as int) == values@.subrange(
                        0,
                        i as int,
                    ));
                    assert(decreases_to!(*self => values@[i as int])) by {
                        let vs = (*self)->Struct_0;
                        assert(decreases_to!(*self => vs));
                        assert(decreases_to!(vs => vs@));
                        assert(decreases_to!(values@ => values@[i as int]));
                    }
                    values[i].get_signature(signature);
                    i += 1;
                }
                assert(values@.subrange(0, values.len() as int) == values@);
                signature.append(")");
            },
            Value::DictEntry(b) => {
                signature.append("{");
                b.0.get_signature(signature);
                b.1.get_signature(signature);
                signature.append("}");
            },
            Value::Variant(_) => signature.append("v"),
        }
    }
}

} // verus!
