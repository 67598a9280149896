use json_stream_reader::constants::{digit_char, empty_char};
use json_stream_reader::json_token::JsonToken;
use json_stream_reader::step::begin_value;
use json_stream_reader::text::decode_text;
use json_stream_reader::token::Token;

#[test]
fn whitespace_is_four_bytes() {
    for b in 0..=255u8 {
        assert_eq!(empty_char(b), b" \n\t\r".contains(&b));
    }
}

#[test]
fn number_bytes_are_digits_signs_and_the_exponent_marker() {
    for b in 0..=255u8 {
        assert_eq!(digit_char(b), b"0123456789+-e".contains(&b));
    }
    assert!(!digit_char(b'.'));
    assert!(!digit_char(b'E'));
}

#[test]
fn text_is_decoded_or_refused() {
    assert_eq!(decode_text(&vec![]), Some(String::new()));
    assert_eq!(decode_text(&b"plain".to_vec()), Some("plain".to_string()));
    assert_eq!(
        decode_text(&"é✓🌍".as_bytes().to_vec()),
        Some("é✓🌍".to_string())
    );
    // a lone continuation byte, a truncated sequence, an overlong form,
    // a surrogate, a value beyond the last code point
    for bad in [
        vec![0x80],
        vec![0xe2, 0x9c],
        vec![0xc0, 0xaf],
        vec![0xed, 0xa0, 0x80],
        vec![0xf4, 0x90, 0x80, 0x80],
    ] {
        assert_eq!(decode_text(&bad), None);
    }
}

#[test]
fn only_some_bytes_begin_a_value() {
    for b in 0..=255u8 {
        let mut tokens = vec![Token::Arr];
        let res = begin_value(b, &mut tokens);
        let top = match b {
            b'n' => Some(Token::Null(vec![b])),
            b't' => Some(Token::True(vec![b])),
            b'f' => Some(Token::False(vec![b])),
            b'"' => Some(Token::String(vec![])),
            b'{' => Some(Token::Obj),
            b'[' => Some(Token::Arr),
            _ if digit_char(b) => Some(Token::Number(vec![b])),
            _ => None,
        };
        match top {
            Some(token) => {
                let event = match b {
                    b'{' => Some(JsonToken::ObjBeg),
                    b'[' => Some(JsonToken::ArrBeg),
                    _ => None,
                };
                assert_eq!(res, Some(event));
                assert_eq!(tokens, vec![Token::Arr, token]);
            }
            None => {
                assert_eq!(res, None);
                assert_eq!(tokens, vec![Token::Arr]);
            }
        }
    }
}
