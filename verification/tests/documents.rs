use json_stream_reader::json_stream_reader::JsonStreamReader;
use json_stream_reader::json_token::JsonToken;
use json_stream_reader::json_value::JsonValue;

/// A small generator of numbers that gives the same sequence on every run.
struct Dice(u64);

impl Dice {
    fn roll(&mut self, sides: usize) -> usize {
        self.0 = self
            .0
            .wrapping_mul(6364136223846793005)
            .wrapping_add(1442695040888963407);
        ((self.0 >> 33) as usize) % sides
    }
}

enum Doc {
    Null,
    Bool(bool),
    Number(String),
    Text(String),
    Array(Vec<Doc>),
    Object(Vec<(String, Doc)>),
}

fn whitespace(dice: &mut Dice, out: &mut Vec<u8>) {
    for _ in 0..dice.roll(3) {
        out.push([b' ', b'\n', b'\t', b'\r'][dice.roll(4)]);
    }
}

fn text(dice: &mut Dice, longest: usize) -> String {
    let pieces = [
        "a", "Z", "0", " ", "{", "}", "[", "]", ",", ":", "\\\"", "\\n", "é", "✓", "🌍", "null",
    ];
    let mut s = String::new();
    loop {
        let piece = pieces[dice.roll(pieces.len())];
        if dice.roll(5) == 0 || s.len() + piece.len() > longest {
            return s;
        }
        s.push_str(piece);
    }
}

fn number(dice: &mut Dice) -> String {
    let bytes = b"0123456789+-e";
    let mut s = String::new();
    s.push(bytes[dice.roll(bytes.len())] as char);
    let dot = dice.roll(4);
    for k in 0..dice.roll(6) {
        if k == dot {
            s.push('.');
        }
        s.push(bytes[dice.roll(bytes.len())] as char);
    }
    s
}

fn value(dice: &mut Dice, depth: usize) -> Doc {
    match dice.roll(if depth == 0 { 5 } else { 7 }) {
        0 => Doc::Null,
        1 => Doc::Bool(true),
        2 => Doc::Bool(false),
        3 => Doc::Number(number(dice)),
        4 => Doc::Text(text(dice, 40)),
        5 => Doc::Array((0..dice.roll(4)).map(|_| value(dice, depth - 1)).collect()),
        _ => Doc::Object(
            (0..dice.roll(4))
                .map(|_| (text(dice, 100), value(dice, depth - 1)))
                .collect(),
        ),
    }
}

fn document(dice: &mut Dice) -> Doc {
    if dice.roll(2) == 0 {
        Doc::Array((0..dice.roll(4)).map(|_| value(dice, 3)).collect())
    } else {
        Doc::Object(
            (0..dice.roll(4))
                .map(|_| (text(dice, 100), value(dice, 3)))
                .collect(),
        )
    }
}

/// Writes `doc` with whitespace wherever whitespace may stand.
fn write(doc: &Doc, dice: &mut Dice, out: &mut Vec<u8>) {
    match doc {
        Doc::Null => out.extend(b"null"),
        Doc::Bool(true) => out.extend(b"true"),
        Doc::Bool(false) => out.extend(b"false"),
        Doc::Number(digits) => out.extend(digits.as_bytes()),
        Doc::Text(body) => {
            out.push(b'"');
            out.extend(body.as_bytes());
            out.push(b'"');
        }
        Doc::Array(elements) => {
            out.push(b'[');
            whitespace(dice, out);
            for (k, element) in elements.iter().enumerate() {
                if k > 0 {
                    out.push(b',');
                }
                whitespace(dice, out);
                write(element, dice, out);
                whitespace(dice, out);
            }
            out.push(b']');
        }
        Doc::Object(members) => {
            out.push(b'{');
            whitespace(dice, out);
            for (k, (key, member)) in members.iter().enumerate() {
                if k > 0 {
                    out.push(b',');
                }
                whitespace(dice, out);
                out.push(b'"');
                out.extend(key.as_bytes());
                out.push(b'"');
                whitespace(dice, out);
                out.push(b':');
                whitespace(dice, out);
                write(member, dice, out);
                whitespace(dice, out);
            }
            out.push(b'}');
        }
    }
}

/// The tokens of `doc` in the order of a pre-order traversal.
fn traverse(doc: &Doc, out: &mut Vec<JsonToken>) {
    match doc {
        Doc::Null => out.push(JsonToken::Val(JsonValue::Null)),
        Doc::Bool(b) => out.push(JsonToken::Val(JsonValue::Bool(*b))),
        Doc::Number(digits) => out.push(JsonToken::Val(JsonValue::Number(digits.clone()))),
        Doc::Text(body) => out.push(JsonToken::Val(JsonValue::String(body.clone()))),
        Doc::Array(elements) => {
            out.push(JsonToken::ArrBeg);
            for element in elements {
                traverse(element, out);
            }
            out.push(JsonToken::ArrEnd);
        }
        Doc::Object(members) => {
            out.push(JsonToken::ObjBeg);
            for (key, member) in members {
                // the key comes without the backslashes that escape a quote
                out.push(JsonToken::Key(key.replace("\\\"", "\"")));
                traverse(member, out);
            }
            out.push(JsonToken::ObjEnd);
        }
    }
}

#[test]
fn reading_a_document_gives_its_traversal() {
    let mut dice = Dice(2024);
    for _ in 0..300 {
        let doc = document(&mut dice);
        let mut bytes = vec![];
        write(&doc, &mut dice, &mut bytes);
        whitespace(&mut dice, &mut bytes);
        let mut expected = vec![];
        traverse(&doc, &mut expected);
        assert_eq!(JsonStreamReader::new().read(&bytes), Ok(expected));
    }
}

#[test]
fn reading_a_document_in_chunks_gives_its_traversal() {
    let mut dice = Dice(7);
    for _ in 0..300 {
        let doc = document(&mut dice);
        let mut bytes = vec![];
        write(&doc, &mut dice, &mut bytes);
        whitespace(&mut dice, &mut bytes);
        let mut expected = vec![];
        traverse(&doc, &mut expected);

        let mut reader = JsonStreamReader::new();
        let mut tokens = vec![];
        let mut rest: &[u8] = &bytes;
        while !rest.is_empty() {
            let (chunk, after) = rest.split_at(1 + dice.roll(rest.len().min(9)));
            tokens.extend(reader.read(chunk).unwrap());
            rest = after;
        }
        assert_eq!(tokens, expected);
    }
}

#[test]
fn the_depth_of_a_document_never_goes_below_zero() {
    let mut dice = Dice(99);
    for _ in 0..300 {
        let doc = document(&mut dice);
        let mut bytes = vec![];
        write(&doc, &mut dice, &mut bytes);
        whitespace(&mut dice, &mut bytes);
        let tokens = JsonStreamReader::new().read(&bytes).unwrap();
        let mut open = vec![];
        let (mut begun, mut ended) = (0, 0);
        for token in &tokens {
            match token {
                JsonToken::ObjBeg | JsonToken::ArrBeg => {
                    begun += 1;
                    open.push(token);
                }
                JsonToken::ObjEnd => {
                    ended += 1;
                    assert_eq!(open.pop(), Some(&JsonToken::ObjBeg));
                }
                JsonToken::ArrEnd => {
                    ended += 1;
                    assert_eq!(open.pop(), Some(&JsonToken::ArrBeg));
                }
                _ => {}
            }
        }
        assert!(open.is_empty());
        assert_eq!(begun, ended);
    }
}

#[test]
fn a_document_leaves_the_reader_ready_for_nothing_but_punctuation() {
    let mut reader = JsonStreamReader::new();
    reader.read(b"{\"a\": [1, {\"b\": null}]}").unwrap();
    let mut other = JsonStreamReader::new();
    other.read(b"[]").unwrap();
    assert_eq!(format!("{:?}", reader), format!("{:?}", other));
}
