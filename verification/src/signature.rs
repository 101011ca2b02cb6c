use crate::value::{signatures_of, Type, Value};
use vstd::prelude::*;
use vstd::string::*;
use vstd::utf8::*;

verus! {

/// The greatest number of bytes that a signature may hold.
pub const MAXIMUM_SIGNATURE_LENGTH: usize = 255;

/// The greatest nesting depth of arrays in a signature.
pub const MAXIMUM_ARRAY_DEPTH: u8 = 32;

/// The greatest nesting depth of structs in a signature.
pub const MAXIMUM_STRUCT_DEPTH: u8 = 32;

/// The greatest nesting depth of dict entries in a signature.
pub const MAXIMUM_DICT_DEPTH: u8 = 32;

/// An enum representing all errors, which can occur during the handling of a [`Signature`].
#[derive(Debug, PartialEq, Eq, Clone)]
pub enum SignatureError {
    InvalidChar(char),
    ArrayDepth(u8),
    StructDepth(u8),
    DictDepth(u8),
    TooBig(usize),
    TooShort(usize, usize),
    ClosingCurlyBracket(usize, char),
}

/// The character at byte `i` of the UTF-8 bytes `s`: only a byte that is a
/// character on its own (an ASCII byte) is one; any other position is reported
/// as too short.
pub open spec fn char_at(s: Seq<u8>, i: int) -> Result<char, SignatureError> {
    if 0 <= i < s.len() && s[i] < 0x80 {
        Ok(s[i] as char)
    } else {
        Err(SignatureError::TooShort(s.len() as usize, i as usize))
    }
}


/// The codes of the basic types, each a complete type on its own. `h`, the
/// Unix file descriptor, is accepted on every target: this is the behaviour
/// on unix targets, and no other target's behaviour is modelled.
pub open spec fn is_basic_code(c: char) -> bool {
    c == 'y' || c == 'b' || c == 'n' || c == 'q' || c == 'i' || c == 'u' || c == 'x' || c == 't'
        || c == 'd' || c == 's' || c == 'o' || c == 'g' || c == 'v' || c == 'h'
}

/// Whether `e` lies after `off` and within `s`. A parse that succeeds always
/// ends there; the definitions below continue only in that case, which keeps
/// them well-founded.
pub open spec fn advances(s: Seq<u8>, off: int, e: int) -> bool {
    off < e <= s.len()
}

/// Where the single complete type that starts at byte `off` of `s` ends, when
/// it is entered at the given array, struct and dict-entry nesting depths; or
/// the first error met in reading it.
pub open spec fn complete_type_end(s: Seq<u8>, off: int, a: u8, st: u8, d: u8) -> Result<
    int,
    SignatureError,
>
    decreases s.len() - off, 0int,
{
    if MAXIMUM_ARRAY_DEPTH < a {
        Err(SignatureError::ArrayDepth(a))
    } else if MAXIMUM_STRUCT_DEPTH < st {
        Err(SignatureError::StructDepth(st))
    } else if MAXIMUM_DICT_DEPTH < d {
        Err(SignatureError::DictDepth(d))
    } else {
        match char_at(s, off) {
            Err(e) => Err(e),
            Ok(c) => {
                if is_basic_code(c) {
                    Ok(off + 1)
                } else if c == 'a' {
                    complete_type_end(s, off + 1, (a + 1) as u8, st, d)
                } else if c == '(' {
                    match complete_type_end(s, off + 1, a, (st + 1) as u8, d) {
                        Err(e) => Err(e),
                        Ok(e1) => if advances(s, off, e1) {
                            struct_fields_end(s, e1, a, (st + 1) as u8, d)
                        } else {
                            Err(SignatureError::TooShort(s.len() as usize, e1 as usize))
                        },
                    }
                } else if c == '{' {
                    match complete_type_end(s, off + 1, a, st, (d + 1) as u8) {
                        Err(e) => Err(e),
                        Ok(e1) => if advances(s, off, e1) {
                            match complete_type_end(s, e1, a, st, (d + 1) as u8) {
                                Err(e) => Err(e),
                                Ok(e2) => if advances(s, e1, e2) {
                                    match char_at(s, e2) {
                                        Err(e) => Err(e),
                                        Ok(c2) => if c2 == '}' {
                                            Ok(e2 + 1)
                                        } else {
                                            Err(SignatureError::ClosingCurlyBracket(e2 as usize, c2))
                                        },
                                    }
                                } else {
                                    Err(SignatureError::TooShort(s.len() as usize, e2 as usize))
                                },
                            }
                        } else {
                            Err(SignatureError::TooShort(s.len() as usize, e1 as usize))
                        },
                    }
                } else {
                    Err(SignatureError::InvalidChar(c))
                }
            },
        }
    }
}

/// Where the fields of a struct, from byte `off` of `s` up to and including
/// the closing `)`, end; or the first error met in reading them.
pub open spec fn struct_fields_end(s: Seq<u8>, off: int, a: u8, st: u8, d: u8) -> Result<
    int,
    SignatureError,
>
    decreases s.len() - off, 1int,
{
    match char_at(s, off) {
        Err(e) => Err(e),
        Ok(c) => if c == ')' {
            Ok(off + 1)
        } else {
            match complete_type_end(s, off, a, st, d) {
                Err(e) => Err(e),
                Ok(e1) => if advances(s, off, e1) {
                    struct_fields_end(s, e1, a, st, d)
                } else {
                    Err(SignatureError::TooShort(s.len() as usize, e1 as usize))
                },
            }
        },
    }
}


/// Where reading stops when reading the complete type at byte `off` of `s`
/// fails: the byte after the one read last, or the place where a closing
/// `}` was looked for, or `off` itself when a depth is already too great.
pub open spec fn complete_type_error_offset(s: Seq<u8>, off: int, a: u8, st: u8, d: u8) -> int
    decreases s.len() - off, 0int,
{
    if MAXIMUM_ARRAY_DEPTH < a || MAXIMUM_STRUCT_DEPTH < st || MAXIMUM_DICT_DEPTH < d {
        off
    } else {
        match char_at(s, off) {
            Err(_) => off + 1,
            Ok(c) => {
                if c == 'a' {
                    complete_type_error_offset(s, off + 1, (a + 1) as u8, st, d)
                } else if c == '(' {
                    match complete_type_end(s, off + 1, a, (st + 1) as u8, d) {
                        Err(_) => complete_type_error_offset(s, off + 1, a, (st + 1) as u8, d),
                        Ok(e1) => if advances(s, off, e1) {
                            struct_fields_error_offset(s, e1, a, (st + 1) as u8, d)
                        } else {
                            e1
                        },
                    }
                } else if c == '{' {
                    match complete_type_end(s, off + 1, a, st, (d + 1) as u8) {
                        Err(_) => complete_type_error_offset(s, off + 1, a, st, (d + 1) as u8),
                        Ok(e1) => if advances(s, off, e1) {
                            match complete_type_end(s, e1, a, st, (d + 1) as u8) {
                                Err(_) => complete_type_error_offset(s, e1, a, st, (d + 1) as u8),
                                Ok(e2) => e2,
                            }
                        } else {
                            e1
                        },
                    }
                } else {
                    off + 1
                }
            },
        }
    }
}

/// Where reading stops when reading the fields of a struct from byte `off`
/// of `s` fails.
pub open spec fn struct_fields_error_offset(s: Seq<u8>, off: int, a: u8, st: u8, d: u8) -> int
    decreases s.len() - off, 1int,
{
    match char_at(s, off) {
        Err(_) => off,
        Ok(c) => if c == ')' {
            off + 1
        } else {
            match complete_type_end(s, off, a, st, d) {
                Err(_) => complete_type_error_offset(s, off, a, st, d),
                Ok(e1) => if advances(s, off, e1) {
                    struct_fields_error_offset(s, e1, a, st, d)
                } else {
                    e1
                },
            }
        },
    }
}

/// The single complete types that follow one another in `s` from byte `off`
/// to the end, each as its bytes; or the first error met in reading them.
pub open spec fn complete_types(s: Seq<u8>, off: int) -> Result<Seq<Seq<u8>>, SignatureError>
    decreases s.len() - off,
{
    if s.len() <= off {
        Ok(seq![])
    } else {
        match complete_type_end(s, off, 0, 0, 0) {
            Err(e) => Err(e),
            Ok(e) => if advances(s, off, e) {
                match complete_types(s, e) {
                    Ok(rest) => Ok(seq![s.subrange(off, e)] + rest),
                    Err(x) => Err(x),
                }
            } else {
                Err(SignatureError::TooShort(s.len() as usize, e as usize))
            },
        }
    }
}

/// What reading the bytes `s` as a signature gives: the list of its single
/// complete types, or the error that makes it invalid.
pub open spec fn parse_signature(s: Seq<u8>) -> Result<Seq<Seq<u8>>, SignatureError> {
    if MAXIMUM_SIGNATURE_LENGTH < s.len() {
        Err(SignatureError::TooBig(s.len() as usize))
    } else {
        complete_types(s, 0)
    }
}

/// The bytes `s` form a valid signature.
pub open spec fn is_valid_signature(s: Seq<u8>) -> bool {
    parse_signature(s) is Ok
}

/// A result with its success value dropped.
pub open spec fn outcome<T>(r: Result<T, SignatureError>) -> Result<(), SignatureError> {
    match r {
        Ok(_) => Ok(()),
        Err(e) => Err(e),
    }
}


/// Where the complete type that starts at byte `i` of `s` ends, read at depth zero.
pub open spec fn type_end(s: Seq<u8>, i: int) -> int {
    match complete_type_end(s, i, 0, 0, 0) {
        Ok(e) => e,
        Err(_) => i,
    }
}

/// `t` is the type of the first complete type of the signature bytes `s`.
pub open spec fn is_first_type(s: Seq<u8>, t: Type) -> bool {
    let c = s[0] as char;
    if c == 'y' {
        t == Type::Byte
    } else if c == 'b' {
        t == Type::Boolean
    } else if c == 'n' {
        t == Type::Int16
    } else if c == 'q' {
        t == Type::Uint16
    } else if c == 'i' {
        t == Type::Int32
    } else if c == 'u' {
        t == Type::Uint32
    } else if c == 'x' {
        t == Type::Int64
    } else if c == 't' {
        t == Type::Uint64
    } else if c == 'd' {
        t == Type::Double
    } else if c == 's' {
        t == Type::String
    } else if c == 'o' {
        t == Type::ObjectPath
    } else if c == 'g' {
        t == Type::Signature
    } else if c == 'h' {
        t == Type::UnixFD
    } else if c == 'a' {
        t matches Type::Array(el) && el.bytes() == s.subrange(1, type_end(s, 1))
    } else if c == '(' {
        t matches Type::Struct(fields) && fields.bytes() == s.subrange(1, type_end(s, 0) - 1)
    } else if c == '{' {
        &&& t matches Type::DictEntry(k, v)
        &&& k.bytes() == s.subrange(1, type_end(s, 1))
        &&& v.bytes() == s.subrange(type_end(s, 1), type_end(s, type_end(s, 1)))
    } else if c == 'v' {
        t == Type::Variant
    } else {
        false
    }
}

/// The bytes of `s` from `i` up to `j` are all ASCII.
pub open spec fn ascii_range(s: Seq<u8>, i: int, j: int) -> bool {
    forall|k: int| i <= k < j ==> #[trigger] s[k] < 0x80
}

/// A complete type that parses ends after its start, within the input, and
/// consists of ASCII bytes.
proof fn lemma_complete_type_bounds(s: Seq<u8>, off: int, a: u8, st: u8, d: u8)
    ensures
        complete_type_end(s, off, a, st, d) matches Ok(e) ==> advances(s, off, e) && ascii_range(
            s,
            off,
            e,
        ),
    decreases s.len() - off, 0int,
{
    if a <= MAXIMUM_ARRAY_DEPTH && st <= MAXIMUM_STRUCT_DEPTH && d <= MAXIMUM_DICT_DEPTH {
        if let Ok(c) = char_at(s, off) {
            if c == 'a' {
                lemma_complete_type_bounds(s, off + 1, (a + 1) as u8, st, d);
            } else if c == '(' {
                lemma_complete_type_bounds(s, off + 1, a, (st + 1) as u8, d);
                if let Ok(e1) = complete_type_end(s, off + 1, a, (st + 1) as u8, d) {
                    lemma_struct_fields_bounds(s, e1, a, (st + 1) as u8, d);
                }
            } else if c == '{' {
                lemma_complete_type_bounds(s, off + 1, a, st, (d + 1) as u8);
                if let Ok(e1) = complete_type_end(s, off + 1, a, st, (d + 1) as u8) {
                    lemma_complete_type_bounds(s, e1, a, st, (d + 1) as u8);
                }
            }
        }
    }
}

proof fn lemma_struct_fields_bounds(s: Seq<u8>, off: int, a: u8, st: u8, d: u8)
    ensures
        struct_fields_end(s, off, a, st, d) matches Ok(e) ==> advances(s, off, e) && ascii_range(
            s,
            off,
            e,
        ),
    decreases s.len() - off, 1int,
{
    if let Ok(c) = char_at(s, off) {
        if c != ')' {
            lemma_complete_type_bounds(s, off, a, st, d);
            if let Ok(e1) = complete_type_end(s, off, a, st, d) {
                lemma_struct_fields_bounds(s, e1, a, st, d);
            }
        }
    }
}



/// A complete type that parses at some nesting depths parses, to the same
/// end, at depths that are no greater.
pub proof fn lemma_complete_type_shallower(
    s: Seq<u8>,
    off: int,
    a: u8,
    st: u8,
    d: u8,
    a2: u8,
    st2: u8,
    d2: u8,
)
    requires
        complete_type_end(s, off, a, st, d) is Ok,
        a2 <= a,
        st2 <= st,
        d2 <= d,
    ensures
        complete_type_end(s, off, a2, st2, d2) == complete_type_end(s, off, a, st, d),
    decreases s.len() - off, 0int,
{
    let c = char_at(s, off)->Ok_0;
    if c == 'a' {
        lemma_complete_type_shallower(s, off + 1, (a + 1) as u8, st, d, (a2 + 1) as u8, st2, d2);
    } else if c == '(' {
        lemma_complete_type_bounds(s, off + 1, a, (st + 1) as u8, d);
        lemma_complete_type_shallower(s, off + 1, a, (st + 1) as u8, d, a2, (st2 + 1) as u8, d2);
        let e1 = complete_type_end(s, off + 1, a, (st + 1) as u8, d)->Ok_0;
        lemma_struct_fields_shallower(s, e1, a, (st + 1) as u8, d, a2, (st2 + 1) as u8, d2);
    } else if c == '{' {
        lemma_complete_type_bounds(s, off + 1, a, st, (d + 1) as u8);
        lemma_complete_type_shallower(s, off + 1, a, st, (d + 1) as u8, a2, st2, (d2 + 1) as u8);
        let e1 = complete_type_end(s, off + 1, a, st, (d + 1) as u8)->Ok_0;
        lemma_complete_type_bounds(s, e1, a, st, (d + 1) as u8);
        lemma_complete_type_shallower(s, e1, a, st, (d + 1) as u8, a2, st2, (d2 + 1) as u8);
    }
}

/// The fields of a struct that parse at some nesting depths parse, to the
/// same end, at depths that are no greater.
pub proof fn lemma_struct_fields_shallower(
    s: Seq<u8>,
    off: int,
    a: u8,
    st: u8,
    d: u8,
    a2: u8,
    st2: u8,
    d2: u8,
)
    requires
        struct_fields_end(s, off, a, st, d) is Ok,
        a2 <= a,
        st2 <= st,
        d2 <= d,
    ensures
        struct_fields_end(s, off, a2, st2, d2) == struct_fields_end(s, off, a, st, d),
    decreases s.len() - off, 1int,
{
    let c = char_at(s, off)->Ok_0;
    if c != ')' {
        lemma_complete_type_bounds(s, off, a, st, d);
        lemma_complete_type_shallower(s, off, a, st, d, a2, st2, d2);
        let e1 = complete_type_end(s, off, a, st, d)->Ok_0;
        lemma_struct_fields_shallower(s, e1, a, st, d, a2, st2, d2);
    }
}

/// A complete type that parses within `s` parses the same way within any
/// window of `s` that holds it.
proof fn lemma_complete_type_window(
    s: Seq<u8>,
    off: int,
    a: u8,
    st: u8,
    d: u8,
    lo: int,
    hi: int,
)
    requires
        complete_type_end(s, off, a, st, d) matches Ok(e) && e <= hi,
        0 <= lo <= off,
        hi <= s.len(),
    ensures
        complete_type_end(s.subrange(lo, hi), off - lo, a, st, d) == Ok::<int, SignatureError>(
            complete_type_end(s, off, a, st, d)->Ok_0 - lo,
        ),
    decreases s.len() - off, 0int,
{
    let t = s.subrange(lo, hi);
    lemma_complete_type_bounds(s, off, a, st, d);
    assert(char_at(t, off - lo) == char_at(s, off));
    let c = char_at(s, off)->Ok_0;
    if c == 'a' {
        lemma_complete_type_window(s, off + 1, (a + 1) as u8, st, d, lo, hi);
    } else if c == '(' {
        lemma_complete_type_bounds(s, off + 1, a, (st + 1) as u8, d);
        let e1 = complete_type_end(s, off + 1, a, (st + 1) as u8, d)->Ok_0;
        lemma_struct_fields_bounds(s, e1, a, (st + 1) as u8, d);
        lemma_complete_type_window(s, off + 1, a, (st + 1) as u8, d, lo, hi);
        lemma_struct_fields_window(s, e1, a, (st + 1) as u8, d, lo, hi);
    } else if c == '{' {
        lemma_complete_type_bounds(s, off + 1, a, st, (d + 1) as u8);
        let e1 = complete_type_end(s, off + 1, a, st, (d + 1) as u8)->Ok_0;
        lemma_complete_type_bounds(s, e1, a, st, (d + 1) as u8);
        let e2 = complete_type_end(s, e1, a, st, (d + 1) as u8)->Ok_0;
        lemma_complete_type_window(s, off + 1, a, st, (d + 1) as u8, lo, hi);
        lemma_complete_type_window(s, e1, a, st, (d + 1) as u8, lo, hi);
        assert(char_at(t, e2 - lo) == char_at(s, e2));
    }
}

proof fn lemma_struct_fields_window(
    s: Seq<u8>,
    off: int,
    a: u8,
    st: u8,
    d: u8,
    lo: int,
    hi: int,
)
    requires
        struct_fields_end(s, off, a, st, d) matches Ok(e) && e <= hi,
        0 <= lo <= off,
        hi <= s.len(),
    ensures
        struct_fields_end(s.subrange(lo, hi), off - lo, a, st, d) == Ok::<int, SignatureError>(
            struct_fields_end(s, off, a, st, d)->Ok_0 - lo,
        ),
    decreases s.len() - off, 1int,
{
    let t = s.subrange(lo, hi);
    lemma_struct_fields_bounds(s, off, a, st, d);
    assert(char_at(t, off - lo) == char_at(s, off));
    let c = char_at(s, off)->Ok_0;
    if c != ')' {
        lemma_complete_type_bounds(s, off, a, st, d);
        let e1 = complete_type_end(s, off, a, st, d)->Ok_0;
        lemma_struct_fields_bounds(s, e1, a, st, d);
        lemma_complete_type_window(s, off, a, st, d, lo, hi);
        lemma_struct_fields_window(s, e1, a, st, d, lo, hi);
    }
}

/// The bytes of a complete type that parses at any depths form, on their
/// own, a list of exactly one complete type.
proof fn lemma_single_complete_type(s: Seq<u8>, off: int, a: u8, st: u8, d: u8)
    requires
        complete_type_end(s, off, a, st, d) is Ok,
        0 <= off,
    ensures
        ({
            let t = s.subrange(off, complete_type_end(s, off, a, st, d)->Ok_0);
            complete_types(t, 0) == Ok::<Seq<Seq<u8>>, SignatureError>(seq![t])
        }),
{
    let e = complete_type_end(s, off, a, st, d)->Ok_0;
    lemma_complete_type_bounds(s, off, a, st, d);
    lemma_complete_type_shallower(s, off, a, st, d, 0, 0, 0);
    lemma_complete_type_window(s, off, 0, 0, 0, off, e);
    let t = s.subrange(off, e);
    assert(complete_types(t, t.len() as int) == Ok::<Seq<Seq<u8>>, SignatureError>(seq![]));
    assert(t.subrange(0, t.len() as int) == t);
    assert(seq![t] + seq![] == seq![t]);
}

/// The fields of a struct that parse, read without the closing `)`, form a
/// list of complete types.
proof fn lemma_struct_fields_types(s: Seq<u8>, off: int, a: u8, st: u8, d: u8, lo: int)
    requires
        struct_fields_end(s, off, a, st, d) is Ok,
        0 <= lo <= off,
    ensures
        complete_types(s.subrange(lo, struct_fields_end(s, off, a, st, d)->Ok_0 - 1), off - lo) is Ok,
    decreases s.len() - off,
{
    let e = struct_fields_end(s, off, a, st, d)->Ok_0;
    lemma_struct_fields_bounds(s, off, a, st, d);
    let t = s.subrange(lo, e - 1);
    let c = char_at(s, off)->Ok_0;
    if c != ')' {
        lemma_complete_type_bounds(s, off, a, st, d);
        let e1 = complete_type_end(s, off, a, st, d)->Ok_0;
        lemma_struct_fields_bounds(s, e1, a, st, d);
        lemma_complete_type_shallower(s, off, a, st, d, 0, 0, 0);
        lemma_complete_type_window(s, off, 0, 0, 0, lo, e - 1);
        lemma_struct_fields_types(s, e1, a, st, d, lo);
    }
}


/// The fields of a struct that parses, read without the parentheses, form a
/// valid list of complete types.
proof fn lemma_struct_inner_types(s: Seq<u8>, off: int, a: u8, st: u8, d: u8)
    requires
        complete_type_end(s, off, a, st, d) is Ok,
        char_at(s, off) == Ok::<char, SignatureError>('('),
        0 <= off,
    ensures
        complete_types(s.subrange(off + 1, complete_type_end(s, off, a, st, d)->Ok_0 - 1), 0) is Ok,
{
    let e0 = complete_type_end(s, off, a, st, d)->Ok_0;
    lemma_complete_type_bounds(s, off + 1, a, (st + 1) as u8, d);
    let e1 = complete_type_end(s, off + 1, a, (st + 1) as u8, d)->Ok_0;
    lemma_struct_fields_bounds(s, e1, a, (st + 1) as u8, d);
    lemma_struct_fields_types(s, e1, a, (st + 1) as u8, d, off + 1);
    lemma_complete_type_shallower(s, off + 1, a, (st + 1) as u8, d, 0, 0, 0);
    lemma_complete_type_window(s, off + 1, 0, 0, 0, off + 1, e0 - 1);
}

/// Characters that encode to no bytes are no characters.
proof fn lemma_encode_utf8_empty(cs: Seq<char>)
    ensures
        encode_utf8(cs).len() == 0 <==> cs.len() == 0,
{
    if cs.len() > 0 {
        assert(encode_scalar(cs[0] as u32).len() > 0);
    }
}

proof fn lemma_complete_types_split(s: Seq<u8>, off: int)
    requires
        0 <= off <= s.len(),
        complete_types(s, off) is Ok,
    ensures
        ({
            let items = complete_types(s, off)->Ok_0;
            &&& items.flatten() == s.subrange(off, s.len() as int)
            &&& forall|i: int|
                0 <= i < items.len() ==> complete_types(#[trigger] items[i], 0) == Ok::<
                    Seq<Seq<u8>>,
                    SignatureError,
                >(seq![items[i]])
            &&& forall|i: int| 0 <= i < items.len() ==> (#[trigger] items[i]).len() <= s.len()
        }),
    decreases s.len() - off,
{
    let items = complete_types(s, off)->Ok_0;
    if off == s.len() {
        assert(s.subrange(off, s.len() as int) =~= Seq::<u8>::empty());
    } else {
        lemma_complete_type_bounds(s, off, 0, 0, 0);
        let e = complete_type_end(s, off, 0, 0, 0)->Ok_0;
        lemma_single_complete_type(s, off, 0, 0, 0);
        lemma_complete_types_split(s, e);
        let rest = complete_types(s, e)->Ok_0;
        assert(items.drop_first() =~= rest);
        assert(s.subrange(off, s.len() as int) =~= s.subrange(off, e) + s.subrange(
            e,
            s.len() as int,
        ));
        assert forall|i: int| 0 <= i < items.len() implies complete_types(
            #[trigger] items[i],
            0,
        ) == Ok::<Seq<Seq<u8>>, SignatureError>(seq![items[i]]) && items[i].len() <= s.len() by {
            if i > 0 {
                assert(items[i] == rest[i - 1]);
            }
        }
    }
}

/// A valid signature is its single complete types one after the other, and
/// each of them, on its own, is a valid signature whose only complete type
/// is itself.
pub proof fn lemma_signature_is_its_complete_types(s: Seq<u8>)
    requires
        is_valid_signature(s),
    ensures
        parse_signature(s)->Ok_0.flatten() == s,
        forall|i: int|
            0 <= i < parse_signature(s)->Ok_0.len() ==> parse_signature(
                #[trigger] parse_signature(s)->Ok_0[i],
            ) == Ok::<Seq<Seq<u8>>, SignatureError>(seq![parse_signature(s)->Ok_0[i]]),
{
    lemma_complete_types_split(s, 0);
    assert(s.subrange(0, s.len() as int) =~= s);
}

/// Turning a string into a signature and the signature back into a string
/// gives the same string.
pub proof fn lemma_string_round_trip(v: String)
    requires
        is_valid_signature(encode_utf8(v@)),
    ensures
        <Signature as vstd::std_specs::convert::TryFromSpec<String>>::try_from_spec(v) matches Ok(
            sig,
        ) && <String as vstd::std_specs::convert::FromSpec<Signature>>::from_spec(sig) == v,
{
}

/// The type that `get_type` reports is that of the first complete type that
/// `iter` gives: that type is the bytes up to `type_end(s, 0)`.
pub proof fn lemma_first_type_is_first_complete_type(s: Seq<u8>)
    requires
        is_valid_signature(s),
        s.len() > 0,
    ensures
        parse_signature(s)->Ok_0.len() > 0,
        parse_signature(s)->Ok_0[0] == s.subrange(0, type_end(s, 0)),
{
}

/// A complete type that parses within `s` parses the same way, shifted, with
/// any bytes put before `s` and any bytes put after it: reading a type looks
/// at nothing outside of it.
pub proof fn lemma_complete_type_embed(
    s: Seq<u8>,
    p: Seq<u8>,
    t: Seq<u8>,
    off: int,
    a: u8,
    st: u8,
    d: u8,
)
    requires
        complete_type_end(s, off, a, st, d) is Ok,
        0 <= off,
    ensures
        complete_type_end(p + s + t, off + p.len(), a, st, d) == Ok::<int, SignatureError>(
            complete_type_end(s, off, a, st, d)->Ok_0 + p.len(),
        ),
    decreases s.len() - off, 0int,
{
    let u = p + s + t;
    let n = p.len() as int;
    lemma_complete_type_bounds(s, off, a, st, d);
    assert(u[off + n] == s[off]);
    assert(char_at(u, off + n) == char_at(s, off));
    let c = char_at(s, off)->Ok_0;
    if c == 'a' {
        lemma_complete_type_embed(s, p, t, off + 1, (a + 1) as u8, st, d);
    } else if c == '(' {
        lemma_complete_type_bounds(s, off + 1, a, (st + 1) as u8, d);
        let e1 = complete_type_end(s, off + 1, a, (st + 1) as u8, d)->Ok_0;
        lemma_complete_type_embed(s, p, t, off + 1, a, (st + 1) as u8, d);
        lemma_struct_fields_embed(s, p, t, e1, a, (st + 1) as u8, d);
    } else if c == '{' {
        lemma_complete_type_bounds(s, off + 1, a, st, (d + 1) as u8);
        let e1 = complete_type_end(s, off + 1, a, st, (d + 1) as u8)->Ok_0;
        lemma_complete_type_bounds(s, e1, a, st, (d + 1) as u8);
        let e2 = complete_type_end(s, e1, a, st, (d + 1) as u8)->Ok_0;
        lemma_complete_type_embed(s, p, t, off + 1, a, st, (d + 1) as u8);
        lemma_complete_type_embed(s, p, t, e1, a, st, (d + 1) as u8);
        assert(u[e2 + n] == s[e2]);
        assert(char_at(u, e2 + n) == char_at(s, e2));
    }
}

/// The fields of a struct that parse within `s` parse the same way, shifted,
/// with any bytes put before and after `s`.
pub proof fn lemma_struct_fields_embed(
    s: Seq<u8>,
    p: Seq<u8>,
    t: Seq<u8>,
    off: int,
    a: u8,
    st: u8,
    d: u8,
)
    requires
        struct_fields_end(s, off, a, st, d) is Ok,
        0 <= off,
    ensures
        struct_fields_end(p + s + t, off + p.len(), a, st, d) == Ok::<int, SignatureError>(
            struct_fields_end(s, off, a, st, d)->Ok_0 + p.len(),
        ),
    decreases s.len() - off, 1int,
{
    let u = p + s + t;
    let n = p.len() as int;
    lemma_struct_fields_bounds(s, off, a, st, d);
    assert(u[off + n] == s[off]);
    assert(char_at(u, off + n) == char_at(s, off));
    let c = char_at(s, off)->Ok_0;
    if c != ')' {
        lemma_complete_type_bounds(s, off, a, st, d);
        let e1 = complete_type_end(s, off, a, st, d)->Ok_0;
        lemma_complete_type_embed(s, p, t, off, a, st, d);
        lemma_struct_fields_embed(s, p, t, e1, a, st, d);
    }
}

/// The complete types of `s` from `off` are those of `p + s` from the same
/// place, shifted.
proof fn lemma_complete_types_after(s: Seq<u8>, p: Seq<u8>, off: int)
    requires
        0 <= off <= s.len(),
        complete_types(s, off) is Ok,
    ensures
        complete_types(p + s, off + p.len()) == complete_types(s, off),
    decreases s.len() - off,
{
    if off < s.len() {
        let e = complete_type_end(s, off, 0, 0, 0)->Ok_0;
        lemma_complete_type_bounds(s, off, 0, 0, 0);
        lemma_complete_type_embed(s, p, seq![], off, 0, 0, 0);
        assert(p + s + seq![] == p + s);
        lemma_complete_types_after(s, p, e);
        assert((p + s).subrange(off + p.len(), e + p.len()) == s.subrange(off, e));
    }
}

/// The complete types of `a` from `off`, followed by those of `a + b` from
/// the end of `a`.
pub open spec fn then_types(
    items: Seq<Seq<u8>>,
    r: Result<Seq<Seq<u8>>, SignatureError>,
) -> Result<Seq<Seq<u8>>, SignatureError> {
    match r {
        Ok(rest) => Ok(items + rest),
        Err(e) => Err(e),
    }
}

proof fn lemma_complete_types_before(a: Seq<u8>, b: Seq<u8>, off: int)
    requires
        0 <= off <= a.len(),
        complete_types(a, off) is Ok,
    ensures
        complete_types(a + b, off) == then_types(
            complete_types(a, off)->Ok_0,
            complete_types(a + b, a.len() as int),
        ),
    decreases a.len() - off,
{
    if off == a.len() {
        if let Ok(rest) = complete_types(a + b, a.len() as int) {
            assert(Seq::<Seq<u8>>::empty() + rest == rest);
        }
    } else {
        let e = complete_type_end(a, off, 0, 0, 0)->Ok_0;
        lemma_complete_type_bounds(a, off, 0, 0, 0);
        lemma_complete_type_embed(a, seq![], b, off, 0, 0, 0);
        assert(seq![] + a + b == a + b);
        lemma_complete_types_before(a, b, e);
        assert((a + b).subrange(off, e) == a.subrange(off, e));
        let items = complete_types(a, e)->Ok_0;
        if let Ok(rest) = complete_types(a + b, a.len() as int) {
            assert(seq![a.subrange(off, e)] + (items + rest) == (seq![a.subrange(off, e)] + items)
                + rest);
        }
    }
}

/// The complete types of `s` from `off` are those of any tail of `s` that
/// holds `off`, from the same place, shifted.
proof fn lemma_complete_types_tail(s: Seq<u8>, lo: int, off: int)
    requires
        0 <= lo <= off <= s.len(),
        complete_types(s, off) is Ok,
    ensures
        complete_types(s.subrange(lo, s.len() as int), off - lo) == complete_types(s, off),
    decreases s.len() - off,
{
    let u = s.subrange(lo, s.len() as int);
    if off < s.len() {
        let e = complete_type_end(s, off, 0, 0, 0)->Ok_0;
        lemma_complete_type_bounds(s, off, 0, 0, 0);
        lemma_complete_type_window(s, off, 0, 0, 0, lo, s.len() as int);
        lemma_complete_types_tail(s, lo, e);
        assert(u.subrange(off - lo, e - lo) == s.subrange(off, e));
    }
}

/// Two valid signatures, one after the other, form a valid signature when
/// they fit in its length; its complete types are those of the first, then
/// those of the second.
pub proof fn lemma_signature_concat(a: Seq<u8>, b: Seq<u8>)
    requires
        is_valid_signature(a),
        is_valid_signature(b),
        a.len() + b.len() <= MAXIMUM_SIGNATURE_LENGTH,
    ensures
        is_valid_signature(a + b),
        parse_signature(a + b)->Ok_0 == parse_signature(a)->Ok_0 + parse_signature(b)->Ok_0,
{
    lemma_complete_types_before(a, b, 0);
    lemma_complete_types_after(b, a, 0);
}

/// When a signature and its start are both valid signatures, so is the rest,
/// and the complete types of the whole are those of the start, then those of
/// the rest.
pub proof fn lemma_signature_concat_rest(a: Seq<u8>, b: Seq<u8>)
    requires
        is_valid_signature(a + b),
        is_valid_signature(a),
    ensures
        is_valid_signature(b),
        parse_signature(a + b)->Ok_0 == parse_signature(a)->Ok_0 + parse_signature(b)->Ok_0,
{
    lemma_complete_types_before(a, b, 0);
    let ab = a + b;
    lemma_complete_types_tail(ab, a.len() as int, a.len() as int);
    assert(ab.subrange(a.len() as int, ab.len() as int) == b);
}

/// The fields of a struct that parse end with the closing `)`.
proof fn lemma_struct_fields_close(s: Seq<u8>, off: int, a: u8, st: u8, d: u8)
    requires
        struct_fields_end(s, off, a, st, d) is Ok,
    ensures
        s[struct_fields_end(s, off, a, st, d)->Ok_0 - 1] as char == ')',
    decreases s.len() - off,
{
    let c = char_at(s, off)->Ok_0;
    if c != ')' {
        lemma_complete_type_bounds(s, off, a, st, d);
        let e1 = complete_type_end(s, off, a, st, d)->Ok_0;
        lemma_struct_fields_close(s, e1, a, st, d);
    }
}

/// The pieces that `get_type` reports put back together give the first
/// complete type of the signature, the one that `iter` gives first: an
/// array is `a` and its element signature, a struct is its field signatures
/// in parentheses, and a dict entry is its key and value signatures, each a
/// single complete type, in curly brackets; any other type is one byte.
pub proof fn lemma_first_type_pieces(s: Seq<u8>, t: Type)
    requires
        is_valid_signature(s),
        s.len() > 0,
        is_first_type(s, t),
    ensures
        parse_signature(s)->Ok_0.len() > 0,
        ({
            let f = parse_signature(s)->Ok_0[0];
            &&& (t matches Type::Array(el) ==> f == seq![s[0]] + el.bytes() && s[0] as char == 'a'
                && parse_signature(el.bytes()) == Ok::<Seq<Seq<u8>>, SignatureError>(
                seq![el.bytes()],
            ))
            &&& (t matches Type::Struct(fields) ==> f == seq![s[0]] + fields.bytes() + seq![
                f.last(),
            ] && s[0] as char == '(' && f.last() as char == ')' && is_valid_signature(
                fields.bytes(),
            ))
            &&& (t matches Type::DictEntry(k, v) ==> f == seq![s[0]] + k.bytes() + v.bytes()
                + seq![f.last()] && s[0] as char == '{' && f.last() as char == '}'
                && parse_signature(k.bytes()) == Ok::<Seq<Seq<u8>>, SignatureError>(
                seq![k.bytes()],
            ) && parse_signature(v.bytes()) == Ok::<Seq<Seq<u8>>, SignatureError>(
                seq![v.bytes()],
            ))
            &&& (t is Array || t is Struct || t is DictEntry || f.len() == 1)
        }),
{
    let e0 = complete_type_end(s, 0, 0, 0, 0)->Ok_0;
    lemma_complete_type_bounds(s, 0, 0, 0, 0);
    let f = s.subrange(0, e0);
    assert(parse_signature(s)->Ok_0[0] == f);
    let c = s[0] as char;
    if c == 'a' {
        lemma_complete_type_shallower(s, 1, 1, 0, 0, 0, 0, 0);
        lemma_single_complete_type(s, 1, 0, 0, 0);
        assert(f == seq![s[0]] + s.subrange(1, e0));
    } else if c == '(' {
        lemma_struct_inner_types(s, 0, 0, 0, 0);
        lemma_complete_type_bounds(s, 1, 0, 1, 0);
        let e1 = complete_type_end(s, 1, 0, 1, 0)->Ok_0;
        lemma_struct_fields_close(s, e1, 0, 1, 0);
        lemma_struct_fields_bounds(s, e1, 0, 1, 0);
        assert(f == seq![s[0]] + s.subrange(1, e0 - 1) + seq![f.last()]);
    } else if c == '{' {
        lemma_complete_type_bounds(s, 1, 0, 0, 1);
        lemma_complete_type_shallower(s, 1, 0, 0, 1, 0, 0, 0);
        lemma_single_complete_type(s, 1, 0, 0, 0);
        let e1 = complete_type_end(s, 1, 0, 0, 1)->Ok_0;
        lemma_complete_type_bounds(s, e1, 0, 0, 1);
        lemma_complete_type_shallower(s, e1, 0, 0, 1, 0, 0, 0);
        lemma_single_complete_type(s, e1, 0, 0, 0);
        let e2 = complete_type_end(s, e1, 0, 0, 1)->Ok_0;
        assert(f == seq![s[0]] + s.subrange(1, e1) + s.subrange(e1, e2) + seq![f.last()]);
    }
}

/// Every basic type code is, at any nesting depth within the limits and
/// wherever it stands, a complete type of one byte: `y b n q i u x t d s o g
/// v h`.
pub proof fn lemma_basic_code_is_complete_type(
    p: Seq<u8>,
    c: char,
    t: Seq<u8>,
    a: u8,
    st: u8,
    d: u8,
)
    requires
        c == 'y' || c == 'b' || c == 'n' || c == 'q' || c == 'i' || c == 'u' || c == 'x' || c
            == 't' || c == 'd' || c == 's' || c == 'o' || c == 'g' || c == 'v' || c == 'h',
        a <= MAXIMUM_ARRAY_DEPTH,
        st <= MAXIMUM_STRUCT_DEPTH,
        d <= MAXIMUM_DICT_DEPTH,
    ensures
        complete_type_end(p + seq![c as u8] + t, p.len() as int, a, st, d) == Ok::<
            int,
            SignatureError,
        >(p.len() + 1int),
{
    let s = p + seq![c as u8] + t;
    assert(s[p.len() as int] == c as u8);
}

/// An array of any complete type (read one array deeper) is a complete type:
/// `a` followed by the element type.
pub proof fn lemma_array_of_complete_type(el: Seq<u8>, a: u8, st: u8, d: u8)
    requires
        a < MAXIMUM_ARRAY_DEPTH,
        st <= MAXIMUM_STRUCT_DEPTH,
        d <= MAXIMUM_DICT_DEPTH,
        complete_type_end(el, 0, (a + 1) as u8, st, d) == Ok::<int, SignatureError>(
            el.len() as int,
        ),
    ensures
        complete_type_end(seq!['a' as u8] + el, 0, a, st, d) == Ok::<int, SignatureError>(
            el.len() + 1int,
        ),
{
    let s = seq!['a' as u8] + el;
    lemma_complete_type_embed(el, seq!['a' as u8], seq![], 0, (a + 1) as u8, st, d);
    assert(seq!['a' as u8] + el + seq![] == s);
    assert(s[0] == 'a' as u8);
}

/// A struct of one field of any complete type (read one struct deeper) is a
/// complete type: the field type in parentheses.
pub proof fn lemma_struct_of_complete_type(f: Seq<u8>, a: u8, st: u8, d: u8)
    requires
        a <= MAXIMUM_ARRAY_DEPTH,
        st < MAXIMUM_STRUCT_DEPTH,
        d <= MAXIMUM_DICT_DEPTH,
        complete_type_end(f, 0, a, (st + 1) as u8, d) == Ok::<int, SignatureError>(
            f.len() as int,
        ),
    ensures
        complete_type_end(seq!['(' as u8] + f + seq![')' as u8], 0, a, st, d) == Ok::<
            int,
            SignatureError,
        >(f.len() + 2int),
{
    let s = seq!['(' as u8] + f + seq![')' as u8];
    lemma_complete_type_bounds(f, 0, a, (st + 1) as u8, d);
    lemma_complete_type_embed(f, seq!['(' as u8], seq![')' as u8], 0, a, (st + 1) as u8, d);
    assert(s[0] == '(' as u8);
    assert(s[f.len() + 1int] == ')' as u8);
    assert(seq!['(' as u8] + f + seq![')' as u8] == s);
    assert(complete_type_end(s, 1, a, (st + 1) as u8, d) == Ok::<int, SignatureError>(
        f.len() + 1int,
    ));
    assert(struct_fields_end(s, f.len() + 1int, a, (st + 1) as u8, d) == Ok::<
        int,
        SignatureError,
    >(f.len() + 2int));
}

/// A dict entry of any two complete types (each read one dict entry deeper)
/// is a complete type: the key type and the value type in curly brackets.
/// Any complete type may be the key.
pub proof fn lemma_dict_entry_of_complete_types(k: Seq<u8>, v: Seq<u8>, a: u8, st: u8, d: u8)
    requires
        a <= MAXIMUM_ARRAY_DEPTH,
        st <= MAXIMUM_STRUCT_DEPTH,
        d < MAXIMUM_DICT_DEPTH,
        complete_type_end(k, 0, a, st, (d + 1) as u8) == Ok::<int, SignatureError>(
            k.len() as int,
        ),
        complete_type_end(v, 0, a, st, (d + 1) as u8) == Ok::<int, SignatureError>(
            v.len() as int,
        ),
    ensures
        complete_type_end(seq!['{' as u8] + k + v + seq!['}' as u8], 0, a, st, d) == Ok::<
            int,
            SignatureError,
        >(k.len() + v.len() + 2int),
{
    let s = seq!['{' as u8] + k + v + seq!['}' as u8];
    lemma_complete_type_bounds(k, 0, a, st, (d + 1) as u8);
    lemma_complete_type_bounds(v, 0, a, st, (d + 1) as u8);
    lemma_complete_type_embed(k, seq!['{' as u8], v + seq!['}' as u8], 0, a, st, (d + 1) as u8);
    assert(seq!['{' as u8] + k + (v + seq!['}' as u8]) == s);
    lemma_complete_type_embed(v, seq!['{' as u8] + k, seq!['}' as u8], 0, a, st, (d + 1) as u8);
    assert(s[0] == '{' as u8);
    assert(s[k.len() + v.len() + 1int] == '}' as u8);
}

/// In valid UTF-8, the position right after an ASCII byte is a character boundary.
proof fn lemma_boundary_after_ascii(b: Seq<u8>, i: int)
    requires
        valid_utf8(b),
        0 < i <= b.len(),
        b[i - 1] < 0x80,
    ensures
        is_char_boundary(b, i),
    decreases b.len(),
{
    assert(valid_first_scalar(b) && valid_utf8(pop_first_scalar(b)));
    let len1 = length_of_first_scalar(b);
    let tail = pop_first_scalar(b);
    assert(len1 <= i) by {
        if i - 1 < len1 {
            assert(valid_leading_and_continuation_bytes_first_codepoint(b));
        }
    }
    if i - len1 > 0 {
        assert(tail[i - len1 - 1] == b[i - 1]);
        lemma_boundary_after_ascii(tail, i - len1);
    }
    reveal_with_fuel(is_char_boundary, 2);
}

/// The part of `s` from byte `start` up to byte `end`, where those bytes are ASCII.
pub(crate) fn ascii_slice(s: &str, start: usize, end: usize) -> (r: &str)
    requires
        start < end <= s.spec_bytes().len(),
        ascii_range(s.spec_bytes(), start as int, end as int),
    ensures
        r.spec_bytes() == s.spec_bytes().subrange(start as int, end as int),
{
    let ghost b = s.spec_bytes();
    proof {
        encode_utf8_valid_utf8(s@);
        if start > 0 {
            assert(b[start as int] < 0x80);
            is_char_boundary_iff_not_is_continuation_byte(b, start as int);
        }
    }
    let (_, rest) = s.split_at(start);
    proof {
        let rb = rest.spec_bytes();
        encode_utf8_valid_utf8(rest@);
        assert(rb[end - start - 1] == b[end - 1]);
        lemma_boundary_after_ascii(rb, end - start);
    }
    let (mid, _) = rest.split_at(end - start);
    mid
}

/// Whether two strings are equal, byte by byte.
pub(crate) fn str_eq(x: &str, y: &str) -> (r: bool)
    ensures
        r == (x@ == y@),
{
    let a = x.as_bytes();
    let b = y.as_bytes();
    proof {
        encode_utf8_decode_utf8(x@);
        encode_utf8_decode_utf8(y@);
    }
    if a.len() != b.len() {
        return false;
    }
    let mut i: usize = 0;
    while i < a.len()
        invariant
            a@ == x.spec_bytes(),
            b@ == y.spec_bytes(),
            a.len() == b.len(),
            i <= a.len(),
            forall|k: int| 0 <= k < i ==> a@[k] == b@[k],
        decreases a.len() - i,
    {
        if a[i] != b[i] {
            return false;
        }
        i += 1;
    }
    assert(a@ == b@);
    true
}

/// Get the char at offset.
fn get_char_at(signature: &str, offset: usize) -> (r: Result<char, SignatureError>)
    ensures
        r == char_at(signature.spec_bytes(), offset as int),
{
    let bytes = signature.as_bytes();
    if offset < bytes.len() && bytes[offset] < 0x80 {
        Ok(bytes[offset] as char)
    } else {
        Err(SignatureError::TooShort(signature.len(), offset))
    }
}


/// Get the next signature from a `&str`.
fn get_next_signature<'a>(
    signature: &'a str,
    signature_offset: &mut usize,
    array_depth: u8,
    struct_depth: u8,
    dict_depth: u8,
) -> (r: Result<&'a str, SignatureError>)
    requires
        *old(signature_offset) < usize::MAX,
        signature.spec_bytes().len() < usize::MAX,
    ensures
        match complete_type_end(
            signature.spec_bytes(),
            *old(signature_offset) as int,
            array_depth,
            struct_depth,
            dict_depth,
        ) {
            Ok(e) => {
                &&& r is Ok
                &&& *final(signature_offset) == e
                &&& r->Ok_0.spec_bytes() == signature.spec_bytes().subrange(
                    *old(signature_offset) as int,
                    e,
                )
            },
            Err(x) => {
                &&& r == Err::<&str, SignatureError>(x)
                &&& *final(signature_offset) == complete_type_error_offset(
                    signature.spec_bytes(),
                    *old(signature_offset) as int,
                    array_depth,
                    struct_depth,
                    dict_depth,
                )
            },
        },
    decreases signature.spec_bytes().len() - *old(signature_offset),
{
    let ghost b = signature.spec_bytes();
    if MAXIMUM_ARRAY_DEPTH < array_depth {
        return Err(SignatureError::ArrayDepth(array_depth));
    }
    if MAXIMUM_STRUCT_DEPTH < struct_depth {
        return Err(SignatureError::StructDepth(struct_depth));
    }
    if MAXIMUM_DICT_DEPTH < dict_depth {
        return Err(SignatureError::DictDepth(dict_depth));
    }
    let start = *signature_offset;
    *signature_offset += 1;
    let c = match get_char_at(signature, start) {
        Ok(c) => c,
        Err(e) => return Err(e),
    };
    proof {
        lemma_complete_type_bounds(b, start as int, array_depth, struct_depth, dict_depth);
    }
    if c == 'y' || c == 'b' || c == 'n' || c == 'q' || c == 'i' || c == 'u' || c == 'x' || c
        == 't' || c == 'd' || c == 's' || c == 'o' || c == 'g' || c == 'v' || c == 'h' {
        Ok(ascii_slice(signature, start, *signature_offset))
    } else if c == 'a' {
        match get_next_signature(
            signature,
            signature_offset,
            array_depth + 1,
            struct_depth,
            dict_depth,
        ) {
            Ok(_) => {},
            Err(e) => return Err(e),
        }
        Ok(ascii_slice(signature, start, *signature_offset))
    } else if c == '(' {
        match get_next_signature(
            signature,
            signature_offset,
            array_depth,
            struct_depth + 1,
            dict_depth,
        ) {
            Ok(_) => {},
            Err(e) => return Err(e),
        }
        proof {
            lemma_complete_type_bounds(
                b,
                start + 1,
                array_depth,
                (struct_depth + 1) as u8,
                dict_depth,
            );
        }
        loop
            invariant
                b == signature.spec_bytes(),
                b.len() < usize::MAX,
                start == *old(signature_offset),
                start < *signature_offset <= b.len(),
                array_depth <= MAXIMUM_ARRAY_DEPTH,
                struct_depth + 1 <= MAXIMUM_STRUCT_DEPTH,
                dict_depth <= MAXIMUM_DICT_DEPTH,
                char_at(b, start as int) == Ok::<char, SignatureError>('('),
                struct_fields_end(
                    b,
                    *signature_offset as int,
                    array_depth,
                    (struct_depth + 1) as u8,
                    dict_depth,
                ) == complete_type_end(b, start as int, array_depth, struct_depth, dict_depth),
                struct_fields_error_offset(
                    b,
                    *signature_offset as int,
                    array_depth,
                    (struct_depth + 1) as u8,
                    dict_depth,
                ) == complete_type_error_offset(
                    b,
                    start as int,
                    array_depth,
                    struct_depth,
                    dict_depth,
                ),
                complete_type_end(b, start as int, array_depth, struct_depth, dict_depth) matches Ok(
                    e,
                ) ==> advances(b, start as int, e) && ascii_range(b, start as int, e),
            decreases b.len() - *signature_offset,
        {
            let c2 = match get_char_at(signature, *signature_offset) {
                Ok(c2) => c2,
                Err(e) => return Err(e),
            };
            if c2 == ')' {
                *signature_offset += 1;
                return Ok(ascii_slice(signature, start, *signature_offset));
            }
            let ghost before = *signature_offset;
            proof {
                lemma_complete_type_bounds(
                    b,
                    before as int,
                    array_depth,
                    (struct_depth + 1) as u8,
                    dict_depth,
                );
            }
            match get_next_signature(
                signature,
                signature_offset,
                array_depth,
                struct_depth + 1,
                dict_depth,
            ) {
                Ok(_) => {},
                Err(e) => return Err(e),
            }
        }
    } else if c == '{' {
        match get_next_signature(
            signature,
            signature_offset,
            array_depth,
            struct_depth,
            dict_depth + 1,
        ) {
            Ok(_) => {},
            Err(e) => return Err(e),
        }
        let ghost e1 = *signature_offset;
        proof {
            lemma_complete_type_bounds(b, start + 1, array_depth, struct_depth, (dict_depth + 1) as u8);
            lemma_complete_type_bounds(b, e1 as int, array_depth, struct_depth, (dict_depth + 1) as u8);
        }
        match get_next_signature(
            signature,
            signature_offset,
            array_depth,
            struct_depth,
            dict_depth + 1,
        ) {
            Ok(_) => {},
            Err(e) => return Err(e),
        }
        match get_char_at(signature, *signature_offset) {
            Ok(c2) => if c2 == '}' {
                *signature_offset += 1;
                Ok(ascii_slice(signature, start, *signature_offset))
            } else {
                Err(SignatureError::ClosingCurlyBracket(*signature_offset, c2))
            },
            Err(e) => Err(e),
        }
    } else {
        Err(SignatureError::InvalidChar(c))
    }
}


/// Check if the string is a valid signature.
fn check_signature(signature: &str) -> (r: Result<(), SignatureError>)
    ensures
        r == outcome(parse_signature(signature.spec_bytes())),
{
    let ghost b = signature.spec_bytes();
    let mut signature_offset: usize = 0;

    let signature_len = signature.as_bytes().len();
    if MAXIMUM_SIGNATURE_LENGTH < signature_len {
        return Err(SignatureError::TooBig(signature_len));
    }

    while signature_offset < signature_len
        invariant
            b == signature.spec_bytes(),
            signature_len == b.len(),
            signature_len <= MAXIMUM_SIGNATURE_LENGTH,
            signature_offset <= signature_len,
            outcome(complete_types(b, signature_offset as int)) == outcome(complete_types(b, 0)),
        decreases signature_len - signature_offset,
    {
        let ghost before = signature_offset;
        proof {
            lemma_complete_type_bounds(b, before as int, 0, 0, 0);
        }
        match get_next_signature(signature, &mut signature_offset, 0, 0, 0) {
            Ok(_) => {},
            Err(e) => return Err(e),
        }
    }

    Ok(())
}


/// This represents a D-Bus type signature: a string of at most
/// [`MAXIMUM_SIGNATURE_LENGTH`] bytes that is a list of single complete types.
#[derive(Debug, PartialOrd, PartialEq, Ord, Eq, Hash)]
pub struct Signature(String);

impl View for Signature {
    type V = Seq<char>;

    closed spec fn view(&self) -> Seq<char> {
        self.0@
    }
}

impl Clone for Signature {
    fn clone(&self) -> (r: Self)
        ensures
            r@ == self@,
    {
        proof {
            use_type_invariant(self);
        }
        Signature(self.0.clone())
    }
}

impl Signature {
    #[verifier::type_invariant]
    closed spec fn is_valid(self) -> bool {
        is_valid_signature(encode_utf8(self.0@))
    }

    /// The bytes of the signature.
    pub open spec fn bytes(&self) -> Seq<u8> {
        encode_utf8(self@)
    }

    /// The single complete types of the signature, in order, each as its bytes.
    pub open spec fn complete_types(&self) -> Seq<Seq<u8>> {
        parse_signature(self.bytes())->Ok_0
    }

    /// The signature as a string, which is a valid signature.
    pub fn as_str(&self) -> (r: &str)
        ensures
            r@ == self@,
            is_valid_signature(r.spec_bytes()),
    {
        proof {
            use_type_invariant(self);
        }
        self.0.as_str()
    }

    pub fn iter(&self) -> (r: SignatureIter<'_>)
        ensures
            r.remaining() == self.complete_types(),
            r.signature() == *self,
    {
        proof {
            use_type_invariant(self);
        }
        SignatureIter { signature: self, signature_offset: 0 }
    }

    /// Get the type of the first value of the signature, if the signature is not empty.
    pub fn get_type(&self) -> (r: Option<Type>)
        ensures
            self.bytes().len() == 0 <==> r is None,
            r matches Some(t) ==> is_first_type(self.bytes(), t),
    {
        proof {
            use_type_invariant(self);
        }
        let sig = self.0.as_str();
        let ghost b = sig.spec_bytes();
        proof {
            lemma_encode_utf8_empty(sig@);
        }
        if sig.is_empty() {
            return None;
        }
        proof {
            lemma_complete_type_bounds(b, 0, 0, 0, 0);
        }
        let ghost e0 = complete_type_end(b, 0, 0, 0, 0)->Ok_0;
        let c = get_char_at(sig, 0).unwrap();
        let t = match c {
            'y' => Type::Byte,
            'b' => Type::Boolean,
            'n' => Type::Int16,
            'q' => Type::Uint16,
            'i' => Type::Int32,
            'u' => Type::Uint32,
            'x' => Type::Int64,
            't' => Type::Uint64,
            'd' => Type::Double,
            's' => Type::String,
            'o' => Type::ObjectPath,
            'g' => Type::Signature,
            // A Unix file descriptor; accepted on every target, as on unix.
            'h' => Type::UnixFD,
            'a' => {
                let mut signature_offset: usize = 1;
                proof {
                    lemma_complete_type_shallower(b, 1, 1, 0, 0, 0, 0, 0);
                    lemma_single_complete_type(b, 1, 0, 0, 0);
                }
                let sig = get_next_signature(sig, &mut signature_offset, 0, 0, 0).unwrap();
                Type::Array(Signature::from_valid(sig.to_owned()))
            },
            '(' => {
                let mut signature_offset: usize = 1;
                proof {
                    lemma_complete_type_bounds(b, 1, 0, 1, 0);
                    lemma_complete_type_shallower(b, 1, 0, 1, 0, 0, 0, 0);
                    lemma_struct_inner_types(b, 0, 0, 0, 0);
                }
                get_next_signature(sig, &mut signature_offset, 0, 0, 0).unwrap();
                proof {
                    lemma_struct_fields_bounds(b, signature_offset as int, 0, 1, 0);
                }
                while get_char_at(sig, signature_offset).unwrap() != ')'
                    invariant
                        b == sig.spec_bytes(),
                        b.len() <= MAXIMUM_SIGNATURE_LENGTH,
                        1 < signature_offset < e0,
                        struct_fields_end(b, signature_offset as int, 0, 1, 0) == Ok::<
                            int,
                            SignatureError,
                        >(e0),
                    decreases e0 - signature_offset,
                {
                    proof {
                        lemma_complete_type_bounds(b, signature_offset as int, 0, 1, 0);
                        lemma_complete_type_shallower(b, signature_offset as int, 0, 1, 0, 0, 0, 0);
                        let e1 = complete_type_end(b, signature_offset as int, 0, 1, 0)->Ok_0;
                        lemma_struct_fields_bounds(b, e1, 0, 1, 0);
                    }
                    get_next_signature(sig, &mut signature_offset, 0, 0, 0).unwrap();
                }
                proof {
                    lemma_complete_type_bounds(b, 0, 0, 0, 0);
                }
                let fields = ascii_slice(sig, 1, signature_offset);
                Type::Struct(Signature::from_valid(fields.to_owned()))
            },
            '{' => {
                let mut signature_offset: usize = 1;
                proof {
                    lemma_complete_type_bounds(b, 1, 0, 0, 1);
                    lemma_complete_type_shallower(b, 1, 0, 0, 1, 0, 0, 0);
                    lemma_single_complete_type(b, 1, 0, 0, 0);
                    let e1 = complete_type_end(b, 1, 0, 0, 1)->Ok_0;
                    lemma_complete_type_shallower(b, e1, 0, 0, 1, 0, 0, 0);
                    lemma_single_complete_type(b, e1, 0, 0, 0);
                    lemma_complete_type_bounds(b, e1, 0, 0, 1);
                }
                let key = get_next_signature(sig, &mut signature_offset, 0, 0, 0).unwrap();
                let key = Signature::from_valid(key.to_owned());
                let value = get_next_signature(sig, &mut signature_offset, 0, 0, 0).unwrap();
                let value = Signature::from_valid(value.to_owned());
                Type::DictEntry(key, value)
            },
            _ => {
                // The one code left in a valid signature is that of a variant.
                assert(c == 'v');
                Type::Variant
            },
        };
        Some(t)
    }

    /// The signature of `values`, one after the other, if it is a valid signature.
    pub fn new(values: &[Value]) -> (r: Result<Signature, SignatureError>)
        ensures
            match parse_signature(encode_utf8(signatures_of(values@))) {
                Ok(_) => r matches Ok(sig) && sig@ == signatures_of(values@),
                Err(e) => r == Err::<Signature, SignatureError>(e),
            },
    {
        let mut signature = String::new();
        let mut i: usize = 0;
        while i < values.len()
            invariant
                i <= values@.len(),
                signature@ == signatures_of(values@.subrange(0, i as int)),
            decreases values.len() - i,
        {
            assert(values@.subrange(0, i + 1).subrange(0, i as int) == values@.subrange(
                0,
                i as int,
            ));
            values[i].get_signature(&mut signature);
            i += 1;
        }
        assert(values@.subrange(0, values.len() as int) == values@);
        signature.try_into()
    }

    fn from_valid(s: String) -> (r: Signature)
        requires
            is_valid_signature(encode_utf8(s@)),
        ensures
            r@ == s@,
    {
        Signature(s)
    }
}


impl TryFrom<String> for Signature {
    type Error = SignatureError;

    fn try_from(value: String) -> (r: Result<Self, Self::Error>)
        ensures
            match parse_signature(encode_utf8(value@)) {
                Ok(_) => r matches Ok(sig) && sig@ == value@,
                Err(e) => r == Err::<Signature, SignatureError>(e),
            },
    {
        match check_signature(value.as_str()) {
            Ok(()) => {},
            Err(e) => return Err(e),
        }
        let signature = Signature(value);
        Ok(signature)
    }
}

impl<'a> TryFrom<&'a str> for Signature {
    type Error = SignatureError;

    fn try_from(value: &'a str) -> (r: Result<Self, Self::Error>)
        ensures
            match parse_signature(value.spec_bytes()) {
                Ok(_) => r matches Ok(sig) && sig@ == value@,
                Err(e) => r == Err::<Signature, SignatureError>(e),
            },
    {
        match check_signature(value) {
            Ok(()) => {},
            Err(e) => return Err(e),
        }
        let signature = Signature(value.to_owned());
        Ok(signature)
    }
}

impl vstd::std_specs::convert::TryFromSpecImpl<String> for Signature {
    open spec fn obeys_try_from_spec() -> bool {
        true
    }

    closed spec fn try_from_spec(v: String) -> Result<Self, SignatureError> {
        match parse_signature(encode_utf8(v@)) {
            Ok(_) => Ok(Signature(v)),
            Err(e) => Err(e),
        }
    }
}

/// A `Signature` made from a `&str` owns a new `String`, of which spec code
/// knows only its characters; so the result is not a function of `v` that
/// `try_from` could be held to. `obeys_try_from_spec` is therefore false, and
/// `try_from_spec` below is never used: it only describes the result, which
/// the `ensures` of `try_from` itself states exactly. Without this impl the
/// trait's own postcondition on `try_from` cannot be met.
impl<'a> vstd::std_specs::convert::TryFromSpecImpl<&'a str> for Signature {
    open spec fn obeys_try_from_spec() -> bool {
        false
    }

    closed spec fn try_from_spec(v: &'a str) -> Result<Self, SignatureError> {
        match parse_signature(v.spec_bytes()) {
            Ok(_) => Ok(choose|sig: Signature| sig@ == v@),
            Err(e) => Err(e),
        }
    }
}

impl From<Signature> for String {
    fn from(signature: Signature) -> (r: String)
        ensures
            r@ == signature@,
    {
        signature.0
    }
}

impl vstd::std_specs::convert::FromSpecImpl<Signature> for String {
    open spec fn obeys_from_spec() -> bool {
        true
    }

    closed spec fn from_spec(v: Signature) -> String {
        v.0
    }
}

impl PartialEq<str> for Signature {
    fn eq(&self, other: &str) -> (r: bool) {
        str_eq(self.as_str(), other)
    }
}

impl vstd::std_specs::cmp::PartialEqSpecImpl<str> for Signature {
    open spec fn obeys_eq_spec() -> bool {
        true
    }

    open spec fn eq_spec(&self, other: &str) -> bool {
        self@ == other@
    }
}

impl AsRef<str> for Signature {
    fn as_ref(&self) -> (r: &str)
        ensures
            r@ == self@,
    {
        self.as_str()
    }
}

pub struct SignatureIter<'a> {
    signature: &'a Signature,
    signature_offset: usize,
}

impl<'a> SignatureIter<'a> {
    #[verifier::type_invariant]
    closed spec fn at_type_start(self) -> bool {
        &&& is_valid_signature(self.signature.bytes())
        &&& self.signature_offset <= self.signature.bytes().len()
        &&& complete_types(self.signature.bytes(), self.signature_offset as int) is Ok
    }

    /// The signature that is walked.
    pub closed spec fn signature(&self) -> Signature {
        *self.signature
    }

    /// The single complete types that are still to come, each as its bytes.
    pub closed spec fn remaining(&self) -> Seq<Seq<u8>> {
        complete_types(self.signature.bytes(), self.signature_offset as int)->Ok_0
    }

    /// The next single complete type of the signature, if any is left.
    pub fn next(&mut self) -> (r: Option<Signature>)
        ensures
            final(self).signature() == old(self).signature(),
            old(self).remaining().len() == 0 ==> r is None && final(self).remaining() == old(
                self,
            ).remaining(),
            old(self).remaining().len() > 0 ==> (r matches Some(t) && t.bytes() == old(
                self,
            ).remaining()[0] && final(self).remaining() == old(self).remaining().drop_first()),
    {
        proof {
            use_type_invariant(&*self);
        }
        let sig = self.signature.as_str();
        let ghost b = sig.spec_bytes();
        let mut signature_offset = self.signature_offset;
        if signature_offset == sig.as_bytes().len() {
            return None;
        }
        proof {
            lemma_complete_type_bounds(b, signature_offset as int, 0, 0, 0);
            lemma_single_complete_type(b, signature_offset as int, 0, 0, 0);
        }
        let signature = get_next_signature(sig, &mut signature_offset, 0, 0, 0).unwrap();
        let signature = Signature::from_valid(signature.to_owned());
        self.signature_offset = signature_offset;
        Some(signature)
    }
}

} // verus!
