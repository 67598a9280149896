use json_stream_reader::arr::handle_arr;
use json_stream_reader::error::{Error, ErrorCode};
use json_stream_reader::json_token::JsonToken;
use json_stream_reader::token::Token;

#[test]
fn arr_should_expect_null() {
    let mut tokens = vec![Token::Arr];

    let buf: &[u8] = "[null]".as_bytes();
    let i = 1;
    let res = handle_arr(buf, i, &mut tokens);

    assert_eq!(tokens.pop(), Some(Token::Null(vec![b'n'])));
    assert_eq!(res, Ok(None));
}

#[test]
fn arr_should_expect_true() {
    let mut tokens = vec![Token::Arr];

    let buf: &[u8] = "[true]".as_bytes();
    let i = 1;
    let res = handle_arr(buf, i, &mut tokens);

    assert_eq!(tokens.pop(), Some(Token::True(vec![b't'])));
    assert_eq!(res, Ok(None));
}

#[test]
fn arr_should_expect_false() {
    let mut tokens = vec![Token::Arr];

    let buf: &[u8] = "[false]".as_bytes();
    let i = 1;
    let res = handle_arr(buf, i, &mut tokens);

    assert_eq!(tokens.pop(), Some(Token::False(vec![b'f'])));
    assert_eq!(res, Ok(None));
}

#[test]
fn arr_should_expect_string() {
    let mut tokens = vec![Token::Arr];

    let buf: &[u8] = "[\"false\"]".as_bytes();
    let i = 1;
    let res = handle_arr(buf, i, &mut tokens);

    assert_eq!(tokens.pop(), Some(Token::String(vec![])));
    assert_eq!(res, Ok(None));
}

#[test]
fn should_expect_num() {
    let mut tokens = vec![Token::Arr];

    let buf: &[u8] = "[42]".as_bytes();
    let i = 1;
    let res = handle_arr(buf, i, &mut tokens);

    assert_eq!(tokens.pop(), Some(Token::Number(vec![b'4'])));
    assert_eq!(res, Ok(None));
}

#[test]
fn should_expect_neg_num() {
    let mut tokens = vec![Token::Arr];

    let buf: &[u8] = "[-42]".as_bytes();
    let i = 1;
    let res = handle_arr(buf, i, &mut tokens);

    assert_eq!(tokens.pop(), Some(Token::Number(vec![b'-'])));
    assert_eq!(res, Ok(None));
}

#[test]
fn arr_should_expect_arr() {
    let mut tokens = vec![Token::Arr];

    let buf: &[u8] = "[[42]]".as_bytes();
    let i = 1;
    let res = handle_arr(buf, i, &mut tokens);
    assert_eq!(tokens.pop(), Some(Token::Arr));
    assert_eq!(res, Ok(Some(JsonToken::ArrBeg)));
}

#[test]
fn arr_should_expect_obj() {
    let mut tokens = vec![Token::Arr];
    let buf: &[u8] = "[{}]".as_bytes();
    let i = 1;
    let res = handle_arr(buf, i, &mut tokens);

    assert_eq!(tokens.pop(), Some(Token::Obj));
    assert_eq!(res.unwrap(), Some(JsonToken::ObjBeg));
}

#[test]
fn should_return_err() {
    let mut tokens = vec![Token::Arr];
    let buf: &[u8] = "[}".as_bytes();
    let i = 1;
    let res = handle_arr(buf, i, &mut tokens);

    assert_eq!(
        res,
        Err(Error {
            column: 1,
            code: ErrorCode::InvalidArrFormat
        })
    );
}

#[test]
fn arr_closes_at_once_when_empty() {
    let mut tokens = vec![Token::Arr];
    let res = handle_arr("[]".as_bytes(), 1, &mut tokens);
    assert_eq!(res, Ok(Some(JsonToken::ArrEnd)));
    assert_eq!(tokens, vec![Token::Nil]);
}

#[test]
fn arr_skips_whitespace() {
    for ws in [" ", "\n", "\t", "\r"] {
        let mut tokens = vec![Token::Arr];
        let res = handle_arr(ws.as_bytes(), 0, &mut tokens);
        assert_eq!(res, Ok(None));
        assert_eq!(tokens, vec![Token::Arr]);
    }
}

#[test]
fn arr_error_leaves_the_stack_alone() {
    let mut tokens = vec![Token::Obj, Token::Arr];
    let res = handle_arr("x".as_bytes(), 0, &mut tokens);
    assert_eq!(
        res,
        Err(Error {
            column: 0,
            code: ErrorCode::InvalidArrFormat
        })
    );
    assert_eq!(tokens, vec![Token::Obj, Token::Arr]);
}

#[test]
fn arr_exponent_marker_starts_a_number() {
    let mut tokens = vec![Token::Arr];
    let res = handle_arr("e".as_bytes(), 0, &mut tokens);
    assert_eq!(res, Ok(None));
    assert_eq!(tokens, vec![Token::Arr, Token::Number(vec![b'e'])]);
}
