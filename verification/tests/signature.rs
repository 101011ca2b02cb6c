use dbus_message_parser::signature::{Signature, SignatureError};
use dbus_message_parser::value::Type;
use std::convert::TryFrom;

fn sig(s: &str) -> Signature {
    Signature::try_from(s).unwrap()
}

#[test]
fn valid_basic_signatures() {
    for s in ["", "y", "b", "n", "q", "i", "u", "x", "t", "d", "s", "o", "g", "v", "h", "yyy"] {
        assert!(Signature::try_from(s).is_ok(), "{}", s);
    }
}

#[test]
fn valid_container_signatures() {
    for s in ["ay", "a{sv}", "(i)", "(ii(s)a{sv})", "aai", "{ss}", "a(bgav)", "asa{sb}a{sv}a{s(bgav)}"] {
        assert!(Signature::try_from(s).is_ok(), "{}", s);
    }
}

#[test]
fn invalid_char() {
    assert_eq!(Signature::try_from("z"), Err(SignatureError::InvalidChar('z')));
    assert_eq!(Signature::try_from("()"), Err(SignatureError::InvalidChar(')')));
    assert_eq!(Signature::try_from("i}"), Err(SignatureError::InvalidChar('}')));
}

#[test]
fn too_short() {
    assert_eq!(Signature::try_from("a"), Err(SignatureError::TooShort(1, 1)));
    assert_eq!(Signature::try_from("(i"), Err(SignatureError::TooShort(2, 2)));
    assert_eq!(Signature::try_from("{s"), Err(SignatureError::TooShort(2, 2)));
    assert_eq!(Signature::try_from("{sv"), Err(SignatureError::TooShort(3, 3)));
}

#[test]
fn non_ascii_is_too_short() {
    // "é" takes two bytes; neither is a character on its own.
    assert_eq!(Signature::try_from("ié"), Err(SignatureError::TooShort(3, 1)));
}

#[test]
fn closing_curly_bracket() {
    assert_eq!(
        Signature::try_from("{sss}"),
        Err(SignatureError::ClosingCurlyBracket(3, 's'))
    );
}

#[test]
fn too_big() {
    let s = "y".repeat(256);
    assert_eq!(Signature::try_from(s.as_str()), Err(SignatureError::TooBig(256)));
    let s = "y".repeat(255);
    assert!(Signature::try_from(s).is_ok());
}

#[test]
fn depth_limits() {
    let ok = format!("{}y", "a".repeat(32));
    assert!(Signature::try_from(ok.as_str()).is_ok());
    let bad = format!("{}y", "a".repeat(33));
    assert_eq!(Signature::try_from(bad.as_str()), Err(SignatureError::ArrayDepth(33)));
    let ok = format!("{}y{}", "(".repeat(32), ")".repeat(32));
    assert!(Signature::try_from(ok.as_str()).is_ok());
    let bad = format!("{}y{}", "(".repeat(33), ")".repeat(33));
    assert_eq!(Signature::try_from(bad.as_str()), Err(SignatureError::StructDepth(33)));
    let mut ok = String::new();
    for _ in 0..32 {
        ok.push_str("{y");
    }
    ok.push('y');
    for _ in 0..32 {
        ok.push('}');
    }
    assert!(Signature::try_from(ok.as_str()).is_ok());
    let bad = format!("{{y{}}}", ok);
    assert_eq!(Signature::try_from(bad.as_str()), Err(SignatureError::DictDepth(33)));
}

#[test]
fn get_type_of_first_value() {
    assert_eq!(sig("").get_type(), None);
    assert_eq!(sig("ys").get_type(), Some(Type::Byte));
    assert_eq!(sig("h").get_type(), Some(Type::UnixFD));
    assert_eq!(sig("v").get_type(), Some(Type::Variant));
    assert_eq!(sig("a{sv}i").get_type(), Some(Type::Array(sig("{sv}"))));
    assert_eq!(sig("(ia(s))y").get_type(), Some(Type::Struct(sig("ia(s)"))));
    assert_eq!(sig("{s(ii)}").get_type(), Some(Type::DictEntry(sig("s"), sig("(ii)"))));
}

#[test]
fn iter_gives_complete_types() {
    let s = sig("asa{sb}a{sv}a{s(bgav)}");
    let mut it = s.iter();
    let mut items = Vec::new();
    while let Some(t) = it.next() {
        items.push(String::from(t));
    }
    assert_eq!(items, vec!["as", "a{sb}", "a{sv}", "a{s(bgav)}"]);
    assert_eq!(items.concat(), "asa{sb}a{sv}a{s(bgav)}");
}

#[test]
fn compare_with_str() {
    let s = sig("a{sv}");
    assert!(s == *"a{sv}");
    assert!(s != *"a{sb}");
    assert_eq!(s.as_ref(), "a{sv}");
}

#[test]
fn string_round_trip() {
    for s in ["", "a{sv}", "(ybnqiuxtdsogvh)"] {
        let sig = Signature::try_from(s.to_string()).unwrap();
        assert_eq!(String::from(sig), s);
    }
}

#[test]
fn first_type_matches_first_complete_type() {
    for (s, first) in [("a{sv}i", "a{sv}"), ("(ia(s))y", "(ia(s))"), ("{s(ii)}v", "{s(ii)}")] {
        let sig = sig(s);
        let item = String::from(sig.iter().next().unwrap());
        assert_eq!(item, first);
        let rebuilt = match sig.get_type().unwrap() {
            Type::Array(el) => format!("a{}", el.as_str()),
            Type::Struct(fields) => format!("({})", fields.as_str()),
            Type::DictEntry(k, v) => format!("{{{}{}}}", k.as_str(), v.as_str()),
            t => panic!("unexpected type {:?}", t),
        };
        assert_eq!(rebuilt, first);
    }
}

#[test]
fn each_complete_type_is_a_signature_of_one_type() {
    let s = sig("ya{sv}(ii)");
    let mut it = s.iter();
    while let Some(t) = it.next() {
        let mut inner = t.iter();
        assert_eq!(inner.next().map(String::from), Some(String::from(t.clone())));
        assert!(inner.next().is_none());
    }
}

#[test]
fn valid_signatures_concatenate() {
    let pairs = [("a{sv}", "(ii)"), ("", "y"), ("as", "")];
    for (a, b) in pairs {
        assert!(Signature::try_from(a).is_ok());
        assert!(Signature::try_from(b).is_ok());
        let ab = format!("{}{}", a, b);
        let whole = sig(&ab);
        let mut items = Vec::new();
        let mut it = whole.iter();
        while let Some(t) = it.next() {
            items.push(String::from(t));
        }
        let mut expected = Vec::new();
        for part in [a, b] {
            let p = sig(part);
            let mut it = p.iter();
            while let Some(t) = it.next() {
                expected.push(String::from(t));
            }
        }
        assert_eq!(items, expected);
    }
    let long_a = "y".repeat(200);
    let long_b = "y".repeat(56);
    assert!(Signature::try_from(format!("{}{}", long_a, long_b)).is_err());
}

#[test]
fn rest_of_a_valid_signature_is_valid() {
    let whole = "a{sv}(ii)y";
    assert!(Signature::try_from(whole).is_ok());
    assert!(Signature::try_from("a{sv}").is_ok());
    assert!(Signature::try_from("(ii)y").is_ok());
}

#[test]
fn text_after_a_type_leaves_it_unchanged() {
    for rest in ["", "y", "a{sv}", "(i)"] {
        let s = sig(&format!("a(s{{iv}}){}", rest));
        assert_eq!(String::from(s.iter().next().unwrap()), "a(s{iv})");
    }
}
