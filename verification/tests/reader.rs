use json_stream_reader::error::{Error, ErrorCode};
use json_stream_reader::json_stream_reader::JsonStreamReader;
use json_stream_reader::json_token::JsonToken;
use json_stream_reader::json_value::JsonValue;

#[test]
fn test_read() {
    let buf = "{\"foo1\": \"bar1\", \"foo2\": \"bar2\", \"foo3\": { \"foo4\": \"bar4\" }, \"foo5\": [ \"bar5\", \"bar6\" ] }".as_bytes();

    let mut reader = JsonStreamReader::new();
    let res = reader.read(&buf);
    assert_eq!(
        res.unwrap(),
        vec![
            JsonToken::ObjBeg,
            JsonToken::Key("foo1".to_string()),
            JsonToken::Val(JsonValue::String("bar1".to_string())),
            JsonToken::Key("foo2".to_string()),
            JsonToken::Val(JsonValue::String("bar2".to_string())),
            JsonToken::Key("foo3".to_string()),
            JsonToken::ObjBeg,
            JsonToken::Key("foo4".to_string()),
            JsonToken::Val(JsonValue::String("bar4".to_string())),
            JsonToken::ObjEnd,
            JsonToken::Key("foo5".to_string()),
            JsonToken::ArrBeg,
            JsonToken::Val(JsonValue::String("bar5".to_string())),
            JsonToken::Val(JsonValue::String("bar6".to_string())),
            JsonToken::ArrEnd,
            JsonToken::ObjEnd
        ]
    );
}

fn key(text: &str) -> JsonToken {
    JsonToken::Key(text.to_string())
}

fn string(text: &str) -> JsonToken {
    JsonToken::Val(JsonValue::String(text.to_string()))
}

fn number(text: &str) -> JsonToken {
    JsonToken::Val(JsonValue::Number(text.to_string()))
}

fn read_whole(doc: &[u8]) -> Result<Vec<JsonToken>, Error> {
    JsonStreamReader::new().read(doc)
}

/// Feeds `doc` in chunks of `size` bytes and gathers the tokens.
fn read_in_chunks(doc: &[u8], size: usize) -> Result<Vec<JsonToken>, (usize, Error)> {
    let mut reader = JsonStreamReader::new();
    let mut tokens = vec![];
    for (k, chunk) in doc.chunks(size).enumerate() {
        match reader.read(chunk) {
            Ok(more) => tokens.extend(more),
            Err(e) => return Err((k * size, e)),
        }
    }
    Ok(tokens)
}

const DOCUMENTS: [&str; 8] = [
    "{\"a\":1}",
    "[1,2,3]",
    "[42]",
    "{\"a\": \"va\\\"l\"}",
    "{\"foo1\": \"bar1\", \"foo2\": [ true, false ,null, -1.5e+3 ], \"o\" : {\"x\":{}, \"y\":[]} }",
    "[[[]],[{}],[\"]\", \"}\"], {\"k\\\"\":\"{[\"}]",
    "[ \"héllo ✓\", {\"clé\": \"🌍\"} ]",
    "[null , true\n, false\t,\r0 ]",
];

#[test]
fn object_with_one_number() {
    assert_eq!(
        read_whole(b"{\"a\":1}"),
        Ok(vec![
            JsonToken::ObjBeg,
            key("a"),
            number("1"),
            JsonToken::ObjEnd
        ])
    );
}

#[test]
fn array_of_three_numbers() {
    assert_eq!(
        read_whole(b"[1,2,3]"),
        Ok(vec![
            JsonToken::ArrBeg,
            number("1"),
            number("2"),
            number("3"),
            JsonToken::ArrEnd
        ])
    );
}

#[test]
fn number_split_over_four_calls() {
    let mut reader = JsonStreamReader::new();
    let mut tokens = vec![];
    for chunk in ["[", "4", "2", "]"] {
        tokens.extend(reader.read(chunk.as_bytes()).unwrap());
    }
    assert_eq!(
        tokens,
        vec![JsonToken::ArrBeg, number("42"), JsonToken::ArrEnd]
    );
    assert_eq!(read_whole(b"[42]"), Ok(tokens));
}

#[test]
fn escaped_quote_stays_in_the_value_with_its_backslash() {
    assert_eq!(
        read_whole(b"{\"a\": \"va\\\"l\"}"),
        Ok(vec![
            JsonToken::ObjBeg,
            key("a"),
            string("va\\\"l"),
            JsonToken::ObjEnd
        ])
    );
}

#[test]
fn brace_right_after_bracket_is_an_invalid_array() {
    assert_eq!(
        read_whole(b"[}"),
        Err(Error {
            code: ErrorCode::InvalidArrFormat,
            column: 1
        })
    );
}

#[test]
fn key_length_limit_through_the_reader() {
    let doc = |n: usize| format!("{{\"{}\":1}}", "k".repeat(n));
    assert_eq!(
        read_whole(doc(100).as_bytes()),
        Ok(vec![
            JsonToken::ObjBeg,
            key(&"k".repeat(100)),
            number("1"),
            JsonToken::ObjEnd
        ])
    );
    assert_eq!(
        read_whole(doc(101).as_bytes()),
        Err(Error {
            code: ErrorCode::TooLongKey,
            column: 103
        })
    );
}

#[test]
fn malformed_keywords_fail_where_they_deviate() {
    assert_eq!(
        read_whole(b"[truE]"),
        Err(Error {
            code: ErrorCode::ExpectedTrue,
            column: 4
        })
    );
    assert_eq!(
        read_whole(b"[nul,]"),
        Err(Error {
            code: ErrorCode::ExpectedNull,
            column: 4
        })
    );
    assert_eq!(
        read_whole(b"{\"a\":fAlse}"),
        Err(Error {
            code: ErrorCode::ExpectedFalse,
            column: 6
        })
    );
}

#[test]
fn every_error_of_the_reader() {
    let cases: [(&str, ErrorCode, usize); 10] = [
        ("x", ErrorCode::ExpectedObjectOrArray, 0),
        ("{x", ErrorCode::ExpectedKey, 1),
        ("{\"a\"x", ErrorCode::ExpectedColon, 4),
        ("{\"a\":x", ErrorCode::ExpectedColon, 5),
        ("[1,}", ErrorCode::ExpectedAnyTerm, 3),
        ("[\"a\"x", ErrorCode::ExpectedCommaOrObjectEndOrArrayEnd, 4),
        ("[1x", ErrorCode::InvalidNumber, 2),
        ("[x", ErrorCode::InvalidArrFormat, 1),
        ("[nx", ErrorCode::ExpectedNull, 2),
        ("[tx", ErrorCode::ExpectedTrue, 2),
    ];
    for (doc, code, column) in cases {
        assert_eq!(read_whole(doc.as_bytes()), Err(Error { code, column }));
    }
    assert_eq!(
        read_whole(b"[fx"),
        Err(Error {
            code: ErrorCode::ExpectedFalse,
            column: 2
        })
    );
    assert_eq!(
        read_whole(&[b'[', b'"', 0xff, b'"']),
        Err(Error {
            code: ErrorCode::InvalidFormat,
            column: 3
        })
    );
}

#[test]
fn number_and_closing_byte_give_two_tokens() {
    assert_eq!(
        read_whole(b"[[7]"),
        Ok(vec![
            JsonToken::ArrBeg,
            JsonToken::ArrBeg,
            number("7"),
            JsonToken::ArrEnd
        ])
    );
    assert_eq!(
        read_whole(b"[{\"n\":-0.5}"),
        Ok(vec![
            JsonToken::ArrBeg,
            JsonToken::ObjBeg,
            key("n"),
            number("-0.5"),
            JsonToken::ObjEnd
        ])
    );
}

#[test]
fn chunks_of_any_size_give_the_events_of_the_whole() {
    for doc in DOCUMENTS {
        let whole = read_whole(doc.as_bytes()).unwrap();
        for size in 1..=doc.len() {
            assert_eq!(read_in_chunks(doc.as_bytes(), size).as_ref(), Ok(&whole));
        }
    }
}

#[test]
fn every_split_in_two_gives_the_events_of_the_whole() {
    for doc in DOCUMENTS {
        let bytes = doc.as_bytes();
        let whole = read_whole(bytes).unwrap();
        for at in 0..=bytes.len() {
            let mut reader = JsonStreamReader::new();
            let mut tokens = reader.read(&bytes[..at]).unwrap();
            tokens.extend(reader.read(&bytes[at..]).unwrap());
            assert_eq!(tokens, whole);
        }
    }
}

#[test]
fn an_error_comes_at_the_same_byte_in_chunks() {
    let doc = b"{\"a\": [1, 2, trux]}";
    let whole = read_whole(doc).unwrap_err();
    assert_eq!(
        whole,
        Error {
            code: ErrorCode::ExpectedTrue,
            column: 16
        }
    );
    for size in 1..=doc.len() {
        let (offset, e) = read_in_chunks(doc, size).unwrap_err();
        assert_eq!(e.code, ErrorCode::ExpectedTrue);
        assert_eq!(offset + e.column, 16);
    }
}

#[test]
fn begin_and_end_events_are_nested_and_balanced() {
    for doc in DOCUMENTS {
        let tokens = read_whole(doc.as_bytes()).unwrap();
        let mut open = vec![];
        for token in &tokens {
            match token {
                JsonToken::ObjBeg => open.push('{'),
                JsonToken::ArrBeg => open.push('['),
                JsonToken::ObjEnd => assert_eq!(open.pop(), Some('{')),
                JsonToken::ArrEnd => assert_eq!(open.pop(), Some('[')),
                _ => {}
            }
        }
        assert!(open.is_empty());
        let count = |t: &JsonToken| tokens.iter().filter(|x| *x == t).count();
        assert_eq!(count(&JsonToken::ObjBeg), count(&JsonToken::ObjEnd));
        assert_eq!(count(&JsonToken::ArrBeg), count(&JsonToken::ArrEnd));
    }
}

#[test]
fn a_closing_byte_of_the_wrong_kind_is_not_noticed() {
    assert_eq!(
        read_whole(b"[1}"),
        Ok(vec![JsonToken::ArrBeg, number("1"), JsonToken::ObjEnd])
    );
}

#[test]
fn the_stack_survives_an_error() {
    let mut reader = JsonStreamReader::new();
    assert_eq!(
        reader.read(b"[1, ?"),
        Err(Error {
            code: ErrorCode::ExpectedAnyTerm,
            column: 4
        })
    );
    // the bytes before the offending one were consumed; it may be replaced
    assert_eq!(
        reader.read(b"2]"),
        Ok(vec![number("2"), JsonToken::ArrEnd])
    );
}

#[test]
fn clear_starts_over() {
    let mut reader = JsonStreamReader::new();
    assert_eq!(reader.read(b"{\"half a ke"), Ok(vec![JsonToken::ObjBeg]));
    reader.clear();
    assert_eq!(
        reader.read(b"[\"x\"]"),
        Ok(vec![JsonToken::ArrBeg, string("x"), JsonToken::ArrEnd])
    );
    let cleared = format!("{:?}", reader.clear());
    assert_eq!(cleared, format!("{:?}", JsonStreamReader::new()));
}

#[test]
fn an_empty_chunk_gives_nothing() {
    let mut reader = JsonStreamReader::new();
    assert_eq!(reader.read(b""), Ok(vec![]));
    assert_eq!(reader.read(b"["), Ok(vec![JsonToken::ArrBeg]));
    assert_eq!(reader.read(b""), Ok(vec![]));
}

#[test]
fn whitespace_before_the_document_is_rejected() {
    assert_eq!(
        read_whole(b" {}"),
        Err(Error {
            code: ErrorCode::ExpectedObjectOrArray,
            column: 0
        })
    );
}

#[test]
fn a_quote_after_a_comma_begins_a_key_or_a_string() {
    assert_eq!(
        read_whole(b"{\"a\":[\"x\",\"y\"],\"b\":{\"c\":\"d\",\"e\":\"f\"}}"),
        Ok(vec![
            JsonToken::ObjBeg,
            key("a"),
            JsonToken::ArrBeg,
            string("x"),
            string("y"),
            JsonToken::ArrEnd,
            key("b"),
            JsonToken::ObjBeg,
            key("c"),
            string("d"),
            key("e"),
            string("f"),
            JsonToken::ObjEnd,
            JsonToken::ObjEnd
        ])
    );
}

#[test]
fn escaped_quote_in_a_key_comes_without_its_backslash() {
    assert_eq!(
        read_whole(br#"{"k\"x": "v\"w"}"#),
        Ok(vec![
            JsonToken::ObjBeg,
            key("k\"x"),
            string("v\\\"w"),
            JsonToken::ObjEnd
        ])
    );
}

#[test]
fn whitespace_after_the_document_changes_nothing() {
    let plain = read_whole(b"{\"a\": [1, true]}").unwrap();
    let mut reader = JsonStreamReader::new();
    assert_eq!(reader.read(b"{\"a\": [1, true]}\n"), Ok(plain));
    assert_eq!(reader.read(b" \t\r\n"), Ok(vec![]));
    assert_eq!(
        format!("{:?}", reader),
        format!("{:?}", {
            let mut other = JsonStreamReader::new();
            other.read(b"[]").unwrap();
            other
        })
    );
}
