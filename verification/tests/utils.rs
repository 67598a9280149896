use json_stream_reader::token::Token;
use json_stream_reader::utils::{handle_end_arr, handle_end_obj, squash};

#[test]
fn should_squash_simple_obj() {
    let mut tokens = vec![
        Token::Obj,
        Token::Key("foo".as_bytes().to_vec()),
        Token::Colon,
        Token::String("bar".as_bytes().to_vec()),
    ];

    squash(&mut tokens);
    assert_eq!(tokens, vec![Token::Obj, Token::Nil]);
}

#[test]
fn should_squash_key_val() {
    let mut tokens = vec![
        Token::Key("foo".as_bytes().to_vec()),
        Token::Colon,
        Token::String("bar".as_bytes().to_vec()),
    ];

    squash(&mut tokens);
    assert_eq!(tokens, vec![]);
}

#[test]
fn should_squash_key_val_list() {
    let mut tokens = vec![
        Token::Arr,
        Token::String("foo".as_bytes().to_vec()),
        Token::Comma,
        Token::String("bar".as_bytes().to_vec()),
        Token::Comma,
        Token::String("zar".as_bytes().to_vec()),
    ];

    squash(&mut tokens);
    assert_eq!(tokens, vec![Token::Arr, Token::Nil]);
}

#[test]
fn should_ignore_empty_list() {
    let mut tokens = vec![];

    squash(&mut tokens);
    assert_eq!(tokens, vec![]);
}

#[test]
fn squash_drops_everything_down_to_the_key() {
    let mut tokens = vec![
        Token::Obj,
        Token::Key(b"a".to_vec()),
        Token::AfterKey,
        Token::Nil,
        Token::Colon,
        Token::Number(b"1".to_vec()),
    ];
    squash(&mut tokens);
    assert_eq!(tokens, vec![Token::Obj, Token::Nil]);
}

#[test]
fn squash_without_a_key_under_the_colon_empties_the_stack() {
    let mut tokens = vec![Token::Obj, Token::Colon, Token::Number(b"1".to_vec())];
    squash(&mut tokens);
    assert_eq!(tokens, vec![]);
}

#[test]
fn squash_rests_on_the_topmost_array() {
    let mut tokens = vec![Token::Arr, Token::Obj, Token::Arr];
    squash(&mut tokens);
    assert_eq!(tokens, vec![Token::Arr, Token::Obj, Token::Arr, Token::Nil]);
}

#[test]
fn end_obj_pops_through_the_innermost_object() {
    let mut tokens = vec![
        Token::Arr,
        Token::Obj,
        Token::Key(b"k".to_vec()),
        Token::Colon,
        Token::Nil,
    ];
    handle_end_obj(&mut tokens);
    assert_eq!(tokens, vec![Token::Arr, Token::Nil]);
}

#[test]
fn end_obj_without_an_object_leaves_only_the_mark() {
    let mut tokens = vec![Token::Arr, Token::Nil];
    handle_end_obj(&mut tokens);
    assert_eq!(tokens, vec![Token::Nil]);
}

#[test]
fn end_arr_pops_through_the_innermost_array() {
    let mut tokens = vec![Token::Obj, Token::Arr, Token::Nil, Token::Comma, Token::Nil];
    handle_end_arr(&mut tokens);
    assert_eq!(tokens, vec![Token::Obj, Token::Nil]);
}

#[test]
fn end_arr_on_an_empty_stack_pushes_the_mark() {
    let mut tokens = vec![];
    handle_end_arr(&mut tokens);
    assert_eq!(tokens, vec![Token::Nil]);
}
