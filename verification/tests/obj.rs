use json_stream_reader::error::{Error, ErrorCode};
use json_stream_reader::json_token::JsonToken;
use json_stream_reader::obj::{handle_after_key, handle_key, handle_obj, unescape, KEY_MAX_LEN};
use json_stream_reader::token::Token;

#[test]
fn should_parse_simple_key() {
    let buf: &[u8] = "\"foo\"".as_bytes();
    let mut tokens = vec![Token::Key(vec![])];
    let mut i = 1;
    let mut res = Ok(None);
    while i < buf.len() && res.is_ok() {
        res = handle_key(buf, i, &mut tokens);
        i += 1;
    }

    assert_eq!(tokens.pop(), Some(Token::AfterKey));
    assert_eq!(tokens.pop(), Some(Token::Key("foo".as_bytes().to_vec())));
    assert_eq!(res.unwrap(), Some(JsonToken::Key("foo".to_string())));
}

#[test]
fn should_parse_escaped_double_quote() {
    let buf: &[u8] = r#""foo\"bar""#.as_bytes();
    let mut tokens = vec![Token::Key(vec![])];
    let mut i = 1;
    let mut res = Ok(None);
    while i < buf.len() && res.is_ok() {
        res = handle_key(buf, i, &mut tokens);
        i += 1;
    }

    assert_eq!(tokens.pop(), Some(Token::AfterKey));
    assert_eq!(
        tokens.pop(),
        Some(Token::Key(r#"foo\"bar"#.as_bytes().to_vec()))
    );
    assert_eq!(res.unwrap(), Some(JsonToken::Key(r#"foo"bar"#.to_string())));
}

#[test]
fn should_return_too_long_key_error() {
    // data = "fooooooooo...oooo" The key is of KEY_MAX_LEN + 1 size.
    let mut data = vec![0 as u8; KEY_MAX_LEN + 3];
    let len = data.len();
    data.fill(b'o');
    data[0] = b'\"';
    data[1] = b'f';
    data[len - (1 as usize)] = b'\"';

    let buf: &[u8] = &data;
    let mut tokens = vec![Token::Key(vec![])];
    let mut i = 1;
    let mut res = Ok(None);
    while i < buf.len() && res.is_ok() {
        res = handle_key(buf, i, &mut tokens);
        i += 1;
    }
    assert_eq!(
        res,
        Err(Error {
            column: i - 1,
            code: ErrorCode::TooLongKey
        })
    )
}

#[test]
fn should_return_invalid_format() {
    let buf: &[u8] = r#""foo""#.as_bytes();
    // Let's assign any token that is not Key.
    let mut tokens = vec![Token::Nil];
    let mut i = 1;
    let mut res = Ok(None);
    while i < buf.len() && res.is_ok() {
        res = handle_key(buf, i, &mut tokens);
        i += 1;
    }
    assert_eq!(
        res,
        Err(Error {
            column: 1,
            code: ErrorCode::InvalidFormat
        })
    )
}

#[test]
fn should_add_key_token() {
    let buf = "{   \"foo\": \"bar\"  }".as_bytes();
    let mut tokens = vec![Token::Obj];
    let mut i = 1;
    while i < buf.len() && tokens.last() == Some(&Token::Obj) {
        let _ = handle_obj(buf, i, &mut tokens);
        i += 1;
    }
    assert_eq!(tokens.pop(), Some(Token::Key(vec![])));
}

#[test]
fn obj_should_return_error() {
    let buf = "{    foo  \"foo\": \"bar\"  }".as_bytes();
    //                    | invalid char
    //               0123456789012345678901234567890

    let mut tokens = vec![Token::Obj];
    let mut i = 1;
    let mut res = Ok(None);
    while i < buf.len() && res.is_ok() {
        res = handle_obj(buf, i, &mut tokens);
        i += 1;
    }
    assert_eq!(
        res,
        Err(Error {
            column: 5,
            code: ErrorCode::ExpectedKey
        })
    );
}

#[test]
fn should_expect_colon() {
    let buf = "{\"foo\" : \"bar\"  }".as_bytes();
    //                        ^______ colon
    //               01_2345_67890
    let mut tokens = vec![
        Token::Obj,
        Token::Key("foo".as_bytes().to_vec()),
        Token::AfterKey,
    ];
    let mut i = 6;
    while i < buf.len() && tokens.last() == Some(&Token::AfterKey) {
        let _ = handle_after_key(buf, i, &mut tokens);
        i += 1;
    }
    assert_eq!(tokens.pop(), Some(Token::Colon));
}

#[test]
fn should_return_exptected_colon_error() {
    let buf = "{\"foo\" ? \"bar\"  }".as_bytes();
    //                        ^______ colon
    //               01_2345_67890
    let mut tokens = vec![
        Token::Obj,
        Token::Key("foo".as_bytes().to_vec()),
        Token::AfterKey,
    ];
    let mut i = 6;
    let mut res = Ok(None);
    while i < buf.len() && tokens.last() == Some(&Token::AfterKey) && res.is_ok() {
        res = handle_after_key(buf, i, &mut tokens);
        i += 1;
    }
    assert_eq!(
        res,
        Err(Error {
            column: 7,
            code: ErrorCode::ExpectedColon
        })
    );
}

fn feed_key(key: &[u8]) -> (Result<Option<JsonToken>, Error>, Vec<Token>) {
    let mut buf = key.to_vec();
    buf.push(b'"');
    let mut tokens = vec![Token::Key(vec![])];
    let mut i = 0;
    let mut res = Ok(None);
    while i < buf.len() && res.is_ok() {
        res = handle_key(&buf, i, &mut tokens);
        i += 1;
    }
    (res, tokens)
}

#[test]
fn key_of_one_hundred_bytes_succeeds() {
    let key = vec![b'k'; 100];
    let (res, tokens) = feed_key(&key);
    assert_eq!(res, Ok(Some(JsonToken::Key("k".repeat(100)))));
    assert_eq!(tokens, vec![Token::Key(key), Token::AfterKey]);
}

#[test]
fn key_of_one_hundred_and_one_bytes_is_too_long() {
    let key = vec![b'k'; 101];
    let (res, tokens) = feed_key(&key);
    assert_eq!(
        res,
        Err(Error {
            column: 101,
            code: ErrorCode::TooLongKey
        })
    );
    // the byte that took the key over the limit was still appended
    assert_eq!(tokens, vec![Token::Key(key)]);
}

#[test]
fn key_that_is_no_text_is_an_invalid_format() {
    let (res, tokens) = feed_key(&[0xff, 0xfe]);
    assert_eq!(
        res,
        Err(Error {
            column: 2,
            code: ErrorCode::InvalidFormat
        })
    );
    assert_eq!(tokens, vec![Token::Key(vec![0xff, 0xfe])]);
}

#[test]
fn key_of_several_bytes_per_character_is_decoded() {
    let (res, _) = feed_key("clé→✓".as_bytes());
    assert_eq!(res, Ok(Some(JsonToken::Key("clé→✓".to_string()))));
}

#[test]
fn key_handler_on_an_empty_stack_is_an_invalid_format() {
    let mut tokens = vec![];
    let res = handle_key("a".as_bytes(), 0, &mut tokens);
    assert_eq!(
        res,
        Err(Error {
            column: 0,
            code: ErrorCode::InvalidFormat
        })
    );
    assert_eq!(tokens, vec![]);
}

#[test]
fn obj_closes_at_once_when_empty() {
    let mut tokens = vec![Token::Arr, Token::Obj];
    let res = handle_obj("}".as_bytes(), 0, &mut tokens);
    assert_eq!(res, Ok(Some(JsonToken::ObjEnd)));
    assert_eq!(tokens, vec![Token::Arr, Token::Nil]);
}

#[test]
fn after_key_without_its_frame_is_an_invalid_format() {
    let mut tokens = vec![Token::Obj, Token::Key(b"a".to_vec())];
    let res = handle_after_key(":".as_bytes(), 0, &mut tokens);
    assert_eq!(
        res,
        Err(Error {
            column: 0,
            code: ErrorCode::InvalidFormat
        })
    );
    assert_eq!(tokens, vec![Token::Obj, Token::Key(b"a".to_vec())]);
}

#[test]
fn after_key_colon_takes_the_place_of_the_frame() {
    let mut tokens = vec![Token::Obj, Token::Key(b"a".to_vec()), Token::AfterKey];
    let res = handle_after_key(":".as_bytes(), 0, &mut tokens);
    assert_eq!(res, Ok(None));
    assert_eq!(
        tokens,
        vec![Token::Obj, Token::Key(b"a".to_vec()), Token::Colon]
    );
}

#[test]
fn key_is_given_out_without_the_backslash_of_an_escaped_quote() {
    let mut tokens = vec![Token::Obj, Token::Key(vec![])];
    for b in [b'f', b'o', b'o', 0x5c, 0x22, b'b', b'a', b'r'] {
        assert_eq!(handle_key(&[b], 0, &mut tokens), Ok(None));
    }
    let res = handle_key(&[0x22], 0, &mut tokens);
    assert_eq!(res, Ok(Some(JsonToken::Key("foo\"bar".to_string()))));
    assert_eq!(tokens.last(), Some(&Token::AfterKey));
    // the frame keeps the bytes as they were read
    assert_eq!(
        tokens,
        vec![
            Token::Obj,
            Token::Key(b"foo\\\"bar".to_vec()),
            Token::AfterKey
        ]
    );
}

#[test]
fn key_keeps_the_backslashes_that_escape_no_quote() {
    let (res, _) = feed_key(br#"a\nb\\"c\td"#);
    assert_eq!(res, Ok(Some(JsonToken::Key(r#"a\nb\"c\td"#.to_string()))));
}

#[test]
fn unescape_leaves_out_the_backslash_before_a_quote_only() {
    assert_eq!(unescape(&vec![]), Vec::<u8>::new());
    assert_eq!(unescape(&b"plain".to_vec()), b"plain".to_vec());
    assert_eq!(unescape(&br#"a\"b"#.to_vec()), br#"a"b"#.to_vec());
    assert_eq!(unescape(&br#"\"\""#.to_vec()), br#""""#.to_vec());
    assert_eq!(unescape(&br#"a\\"b"#.to_vec()), br#"a\"b"#.to_vec());
    assert_eq!(unescape(&br#"a\b\"#.to_vec()), br#"a\b\"#.to_vec());
    assert_eq!(unescape(&br#"a"b"#.to_vec()), br#"a"b"#.to_vec());
}
