use resp_codec::RespDecode;
use resp_codec::{
    decode, BlukString, ParseError, RespArray, RespDouble, RespEncode,
    RespFrame, RespMap, RespNull, RespNullArray, RespNullBlukString, RespSet,
    SimpleError, SimpleString,
};

fn simple(s: &str) -> RespFrame {
    RespFrame::SimpleString(SimpleString::new(s.to_string()))
}

fn bulk(b: &[u8]) -> RespFrame {
    RespFrame::BlukString(BlukString::new(b.to_vec()))
}

fn dbl(s: &str) -> RespFrame {
    RespFrame::Double(RespDouble::try_new(s).expect("valid double text"))
}

fn round_trip(f: RespFrame, again: RespFrame) {
    let bytes = f.encode();
    let (g, n) = decode(&bytes).expect("round trip decodes");
    assert_eq!(n, bytes.len());
    assert_eq!(g, again);
}

#[test]
fn encode_simple_string() {
    assert_eq!(simple("OK").encode(), b"+OK\r\n".to_vec());
}

#[test]
fn decode_simple_string() {
    let (f, n) = decode(b"+OK\r\n").unwrap();
    assert_eq!(f, simple("OK"));
    assert_eq!(n, 5);
}

#[test]
fn encode_error() {
    let f = RespFrame::Error(SimpleError::new("ERR oops".to_string()));
    assert_eq!(f.encode(), b"-ERR oops\r\n".to_vec());
}

#[test]
fn encode_integer() {
    assert_eq!(RespFrame::Integer(-7).encode(), b":-7\r\n".to_vec());
    assert_eq!(RespFrame::Integer(0).encode(), b":0\r\n".to_vec());
}

#[test]
fn encode_bulk_string() {
    assert_eq!(bulk(&[0x68, 0x69]).encode(), b"$2\r\nhi\r\n".to_vec());
}

#[test]
fn bulk_string_may_contain_crlf() {
    round_trip(bulk(b"a\r\nb\0c"), bulk(b"a\r\nb\0c"));
}

#[test]
fn encode_array() {
    let f = RespFrame::Array(RespArray::new(vec![
        RespFrame::Integer(1),
        RespFrame::Null(RespNull),
    ]));
    assert_eq!(f.encode(), b"*2\r\n:1\r\n_\r\n".to_vec());
}

#[test]
fn encode_map_ascending_whatever_insertion_order() {
    let mut m1 = RespMap::new();
    m1.insert("b".to_string(), RespFrame::Integer(2));
    m1.insert("a".to_string(), RespFrame::Integer(1));
    let mut m2 = RespMap::new();
    m2.insert("a".to_string(), RespFrame::Integer(1));
    m2.insert("b".to_string(), RespFrame::Integer(2));
    let want = b"%2\r\n$1\r\na\r\n:1\r\n$1\r\nb\r\n:2\r\n".to_vec();
    assert_eq!(RespFrame::MapFrame(m1).encode(), want);
    assert_eq!(RespFrame::MapFrame(m2).encode(), want);
}

#[test]
fn map_insert_overwrites() {
    let mut m = RespMap::new();
    m.insert("k".to_string(), RespFrame::Integer(1));
    m.insert("k".to_string(), RespFrame::Integer(2));
    assert_eq!(m.len(), 1);
    assert_eq!(
        RespFrame::MapFrame(m).encode(),
        b"%1\r\n$1\r\nk\r\n:2\r\n".to_vec()
    );
}

#[test]
fn decode_null_bulk_string() {
    let (f, n) = decode(b"$-1\r\n").unwrap();
    assert_eq!(f, RespFrame::NullBlukString(RespNullBlukString));
    assert_eq!(n, 5);
}

#[test]
fn nulls_are_distinct() {
    let null = decode(b"_\r\n").unwrap().0;
    let null_array = decode(b"*-1\r\n").unwrap().0;
    let null_bulk = decode(b"$-1\r\n").unwrap().0;
    assert_eq!(null, RespFrame::Null(RespNull));
    assert_eq!(null_array, RespFrame::NullArray(RespNullArray));
    assert_eq!(null_bulk, RespFrame::NullBlukString(RespNullBlukString));
    assert_ne!(null, null_array);
    assert_ne!(null, null_bulk);
    assert_ne!(null_array, null_bulk);
}

#[test]
fn round_trip_integers_at_bounds() {
    round_trip(RespFrame::Integer(i64::MIN), RespFrame::Integer(i64::MIN));
    round_trip(RespFrame::Integer(i64::MAX), RespFrame::Integer(i64::MAX));
    assert_eq!(
        RespFrame::Integer(i64::MIN).encode(),
        b":-9223372036854775808\r\n".to_vec()
    );
}

#[test]
fn round_trip_doubles() {
    for x in [
        f64::INFINITY,
        f64::NEG_INFINITY,
        f64::NAN,
        0.0f64,
        -0.0f64,
        3.25f64,
    ] {
        let text = if x.is_nan() {
            "nan".to_string()
        } else if x == f64::INFINITY {
            "inf".to_string()
        } else if x == f64::NEG_INFINITY {
            "-inf".to_string()
        } else {
            format!("{}", x)
        };
        round_trip(dbl(&text), dbl(&text));
    }
    assert_eq!(dbl("inf").encode(), b",inf\r\n".to_vec());
    assert_eq!(dbl("-0").encode(), b",-0\r\n".to_vec());
}

#[test]
fn double_text_rejects_garbage() {
    assert!(RespDouble::try_new("").is_none());
    assert!(RespDouble::try_new("1.").is_none());
    assert!(RespDouble::try_new("e5").is_none());
    assert!(RespDouble::try_new("NaN").is_none());
    assert!(RespDouble::try_new("1.5e-3").is_some());
}

#[test]
fn round_trip_nested() {
    let build = || {
        let mut m = RespMap::new();
        m.insert("list".to_string(), RespFrame::Array(RespArray::new(vec![
            RespFrame::Integer(1),
            simple("two"),
            bulk(b"three"),
        ])));
        m.insert("flag".to_string(), RespFrame::Boolean(true));
        RespFrame::MapFrame(m)
    };
    round_trip(build(), build());
}

#[test]
fn round_trip_set() {
    let build = || {
        RespFrame::SetFrame(RespSet::new(vec![
            RespFrame::Integer(5),
            RespFrame::Integer(5),
            simple("x"),
        ]))
    };
    // the codec keeps duplicates: de-duplication is the caller's business
    round_trip(build(), build());
}

#[test]
fn round_trip_multibyte_text() {
    round_trip(simple("héllo ✓"), simple("héllo ✓"));
}

#[test]
fn truncation_yields_incomplete() {
    let frames = vec![
        simple("OK"),
        RespFrame::Integer(-42),
        bulk(b"hi\r\nthere"),
        RespFrame::Null(RespNull),
        RespFrame::Boolean(false),
        dbl("1.5e-3"),
        RespFrame::Array(RespArray::new(vec![
            RespFrame::Integer(1),
            simple("two"),
        ])),
    ];
    for f in frames {
        let bytes = f.encode();
        for cut in 0..bytes.len() {
            assert_eq!(
                decode(&bytes[..cut]),
                Err(ParseError::Incomplete),
                "prefix of length {} of {:?}",
                cut,
                String::from_utf8_lossy(&bytes)
            );
        }
    }
}

#[test]
fn decode_leaves_trailing_bytes() {
    let (f, n) = decode(b":1\r\n:2\r\n").unwrap();
    assert_eq!(f, RespFrame::Integer(1));
    assert_eq!(n, 4);
}

#[test]
fn unknown_prefix() {
    assert_eq!(
        decode(b"?x\r\n"),
        Err(ParseError::UnknownType { byte: b'?', offset: 0 })
    );
}

#[test]
fn invalid_numbers() {
    assert_eq!(decode(b":1a\r\n"), Err(ParseError::InvalidNumber));
    assert_eq!(decode(b":007\r\n"), Err(ParseError::InvalidNumber));
    assert_eq!(decode(b":-0\r\n"), Err(ParseError::InvalidNumber));
    assert_eq!(decode(b":\r\n"), Err(ParseError::InvalidNumber));
    assert_eq!(decode(b"*-2\r\n"), Err(ParseError::InvalidNumber));
    assert_eq!(decode(b"~-1\r\n"), Err(ParseError::InvalidNumber));
    assert_eq!(decode(b"%-1\r\n"), Err(ParseError::InvalidNumber));
    assert_eq!(
        decode(b":9223372036854775808\r\n"),
        Err(ParseError::InvalidNumber)
    );
    assert_eq!(
        decode(b":-9223372036854775808\r\n"),
        Ok((RespFrame::Integer(i64::MIN), 23))
    );
}

#[test]
fn invalid_utf8_and_stray_breaks() {
    assert_eq!(decode(&[b'+', 0xFF, 13, 10]), Err(ParseError::InvalidUtf8));
    assert_eq!(decode(b"+a\rb\r\n"), Err(ParseError::InvalidUtf8));
    assert_eq!(decode(b"+a\nb\r\n"), Err(ParseError::InvalidUtf8));
}

#[test]
fn length_mismatch() {
    assert_eq!(decode(b"$2\r\nhix\r\n"), Err(ParseError::LengthMismatch));
}

#[test]
fn boolean_bytes() {
    assert_eq!(RespFrame::Boolean(true).encode(), b"#t\r\n".to_vec());
    assert_eq!(RespFrame::Boolean(false).encode(), b"#f\r\n".to_vec());
    assert_eq!(decode(b"#t\r\n").unwrap().0, RespFrame::Boolean(true));
    assert_eq!(
        decode(b"#x\r\n"),
        Err(ParseError::UnknownType { byte: b'x', offset: 1 })
    );
}

#[test]
fn map_decode_accepts_any_key_order() {
    // the wire may carry keys out of order; the decoded map is ascending,
    // and a repeated key keeps the later value
    let buf = b"%2\r\n$1\r\nb\r\n:2\r\n$1\r\na\r\n:1\r\n";
    let (f, n) = decode(buf).unwrap();
    assert_eq!(n, buf.len());
    let mut want = RespMap::new();
    want.insert("a".to_string(), RespFrame::Integer(1));
    want.insert("b".to_string(), RespFrame::Integer(2));
    assert_eq!(f, RespFrame::MapFrame(want));

    let buf2 = b"%2\r\n$1\r\nk\r\n:1\r\n$1\r\nk\r\n:2\r\n";
    let (g, _) = decode(buf2).unwrap();
    let mut want2 = RespMap::new();
    want2.insert("k".to_string(), RespFrame::Integer(2));
    assert_eq!(g, RespFrame::MapFrame(want2));
}

#[test]
fn empty_containers() {
    round_trip(
        RespFrame::Array(RespArray::new(vec![])),
        RespFrame::Array(RespArray::new(vec![])),
    );
    assert_eq!(
        RespFrame::MapFrame(RespMap::new()).encode(),
        b"%0\r\n".to_vec()
    );
    assert_eq!(decode(b""), Err(ParseError::Incomplete));
}

#[test]
fn payload_types_encode_directly() {
    assert_eq!(SimpleString::new("OK".to_string()).encode(), b"+OK\r\n");
    assert_eq!(SimpleError::new("bad".to_string()).encode(), b"-bad\r\n");
    assert_eq!(BlukString::new(b"hi".to_vec()).encode(), b"$2\r\nhi\r\n");
    assert_eq!(RespNull.encode(), b"_\r\n");
    assert_eq!(RespNullArray.encode(), b"*-1\r\n");
    assert_eq!(RespNullBlukString.encode(), b"$-1\r\n");
    assert_eq!(7i64.encode(), b":7\r\n");
    assert_eq!(true.encode(), b"#t\r\n");
    let (f, n) = <Vec<u8> as RespDecode>::decode(b":7\r\n".to_vec()).unwrap();
    assert_eq!((f, n), (RespFrame::Integer(7), 4));
}

#[test]
fn accessors_return_payloads() {
    let s = SimpleString::new("OK".to_string());
    assert_eq!(s.as_str(), "OK");
    let e = SimpleError::new("bad".to_string());
    assert_eq!(e.as_str(), "bad");
    let b = BlukString::new(b"hi".to_vec());
    assert_eq!(b.as_bytes(), &b"hi".to_vec());
    let d = RespDouble::try_new("1.5").unwrap();
    assert_eq!(d.as_bytes(), &b"1.5".to_vec());
    let a = RespArray::new(vec![RespFrame::Integer(1)]);
    assert_eq!(a.elems().len(), 1);
    let mut m = RespMap::new();
    m.insert("a".to_string(), RespFrame::Integer(1));
    assert_eq!(m.entries().len(), 1);
    assert_eq!(m.entries()[0].0, "a");
    let st = RespSet::new(vec![RespFrame::Integer(1)]);
    assert_eq!(st.elems().len(), 1);
}

#[test]
fn empty_text_frames() {
    round_trip(simple(""), simple(""));
    assert_eq!(simple("").encode(), b"+\r\n".to_vec());
    round_trip(bulk(b""), bulk(b""));
    assert_eq!(bulk(b"").encode(), b"$0\r\n\r\n".to_vec());
}
