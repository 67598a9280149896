use json_stream_reader::text::decode_text;

/// Whether `bytes` begin with one well-formed scalar, and how long it is:
/// leading and continuation bytes of the right forms, no longer than
/// needed, no surrogate, nothing beyond the last code point.
fn first_scalar(bytes: &[u8]) -> Option<usize> {
    let continuation = |k: usize| k < bytes.len() && (0x80..=0xbf).contains(&bytes[k]);
    let bits = |k: usize| (bytes[k] & 0x3f) as u32;
    let lead = *bytes.first()?;
    let (len, point) = match lead {
        0x00..=0x7f => (1, lead as u32),
        0xc0..=0xdf if continuation(1) => (2, ((lead as u32 & 0x1f) << 6) | bits(1)),
        0xe0..=0xef if continuation(1) && continuation(2) => {
            (3, ((lead as u32 & 0x0f) << 12) | (bits(1) << 6) | bits(2))
        }
        0xf0..=0xf7 if continuation(1) && continuation(2) && continuation(3) => (
            4,
            ((lead as u32 & 0x07) << 18) | (bits(1) << 12) | (bits(2) << 6) | bits(3),
        ),
        _ => return None,
    };
    let long_enough = match len {
        2 => 0x80 <= point,
        3 => 0x800 <= point,
        4 => (0x10000..=0x10ffff).contains(&point),
        _ => true,
    };
    let surrogate = (0xd800..=0xdfff).contains(&point);
    if long_enough && !surrogate {
        Some(len)
    } else {
        None
    }
}

fn well_formed(mut bytes: &[u8]) -> bool {
    while !bytes.is_empty() {
        match first_scalar(bytes) {
            Some(len) => bytes = &bytes[len..],
            None => return false,
        }
    }
    true
}

fn agree(bytes: &[u8]) {
    let decoded = decode_text(&bytes.to_vec());
    assert_eq!(decoded.is_some(), well_formed(bytes), "{:x?}", bytes);
    if let Some(text) = decoded {
        assert_eq!(text.as_bytes(), bytes);
    }
}

#[test]
fn text_is_what_is_well_formed_one_and_two_bytes() {
    for a in 0..=255u8 {
        agree(&[a]);
        for b in 0..=255u8 {
            agree(&[a, b]);
        }
    }
}

#[test]
fn text_is_what_is_well_formed_three_bytes() {
    // every leading byte of a longer form, with every second byte, and
    // third bytes around the edges of the continuation range
    for a in 0xc0..=0xffu8 {
        for b in 0..=255u8 {
            for c in [0x00, 0x7f, 0x80, 0x81, 0xa0, 0xbf, 0xc0, 0xff] {
                agree(&[a, b, c]);
            }
        }
    }
}

#[test]
fn text_is_what_is_well_formed_four_bytes() {
    for a in 0xe0..=0xffu8 {
        for b in [0x00, 0x7f, 0x80, 0x8f, 0x90, 0x9f, 0xa0, 0xbf, 0xc0] {
            for c in [0x7f, 0x80, 0xbf, 0xc0] {
                for d in [0x00, 0x7f, 0x80, 0xbf, 0xc0] {
                    agree(&[a, b, c, d]);
                    agree(&[b'a', a, b, c, d, b'z']);
                }
            }
        }
    }
}
