//! Turning the bytes of a key or a value into text.
use vstd::prelude::*;
use vstd::string::*;
use vstd::utf8::*;

verus! {

/// The error of `core::str::from_utf8`. Nothing is read from it.
#[verifier::external_type_specification]
#[verifier::external_body]
pub struct ExUtf8Error(core::str::Utf8Error);

/// `core::str::from_utf8` is taken on trust: it succeeds exactly on the
/// well-formed UTF-8 byte sequences, and the string slice it then returns
/// is made of the very bytes it was given.
pub assume_specification[ core::str::from_utf8 ](v: &[u8]) -> (res: Result<&str, core::str::Utf8Error>)
    ensures
        res is Ok <==> valid_utf8(v@),
        res matches Ok(s) ==> s.spec_bytes() == v@,
;

/// The text that `data` encodes, if it encodes any.
pub open spec fn text_of(data: Seq<u8>) -> Option<Seq<char>> {
    if valid_utf8(data) {
        Some(decode_utf8(data))
    } else {
        None
    }
}

/// The characters that stand for bytes below 128.
pub open spec fn ascii_chars(data: Seq<u8>) -> Seq<char> {
    Seq::new(data.len(), |i: int| data[i] as char)
}

/// Bytes below 128 are text, one character each.
pub proof fn lemma_ascii_is_text(data: Seq<u8>)
    requires
        forall|j: int| 0 <= j < data.len() ==> #[trigger] data[j] < 0x80,
    ensures
        valid_utf8(data),
        text_of(data) == Some(ascii_chars(data)),
    decreases data.len(),
{
    if data.len() > 0 {
        let b = data[0];
        assert((b & 0x7f) as u32 == b as u32) by (bit_vector)
            requires
                b < 0x80,
        ;
        let rest = pop_first_scalar(data);
        assert(rest =~= data.subrange(1, data.len() as int));
        lemma_ascii_is_text(rest);
        assert(decode_utf8(data) =~= ascii_chars(data));
    } else {
        assert(decode_utf8(data) =~= ascii_chars(data));
    }
}

/// Decodes `data` as UTF-8 text into an owned string.
pub fn decode_text(data: &Vec<u8>) -> (res: Option<String>)
    ensures
        res is Some <==> text_of(data@) is Some,
        res matches Some(s) ==> text_of(data@) == Some(s@),
{
    match core::str::from_utf8(data.as_slice()) {
        Ok(s) => {
            proof {
                encode_utf8_decode_utf8(s@);
            }
            Some(s.to_string())
        },
        Err(_) => None,
    }
}

} // verus!
