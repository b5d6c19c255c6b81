use fastrpc::b64::{
    decode_byte, decode_octet, decode_quartet, decode_to_vec, decode_with_callback, Base64Error,
    INVALID_SYMBOL,
};

const ALPHABET: &[u8; 64] = b"ABCDEFGHIJKLMNOPQRSTUVWXYZabcdefghijklmnopqrstuvwxyz0123456789+/";

/// A plain encoder, used to produce inputs for the decoder.
fn encode(bytes: &[u8], pad: bool) -> Vec<u8> {
    let mut out = Vec::new();
    for group in bytes.chunks(3) {
        let b0 = group[0] as u32;
        let b1 = if group.len() > 1 { group[1] as u32 } else { 0 };
        let b2 = if group.len() > 2 { group[2] as u32 } else { 0 };
        let bits = (b0 << 16) | (b1 << 8) | b2;
        out.push(ALPHABET[((bits >> 18) & 63) as usize]);
        out.push(ALPHABET[((bits >> 12) & 63) as usize]);
        if group.len() > 1 {
            out.push(ALPHABET[((bits >> 6) & 63) as usize]);
        } else if pad {
            out.push(b'=');
        }
        if group.len() > 2 {
            out.push(ALPHABET[(bits & 63) as usize]);
        } else if pad {
            out.push(b'=');
        }
    }
    out
}

#[test]
fn test_decode_with_callback() {
    let mut vec = Vec::new();
    let outcome = decode_with_callback(&[97, 71, 86, 115, 98, 71, 56, 104], |bytes: &[u8]| {
        vec.extend(bytes.iter().map(|x| *x))
    });
    assert_eq!(outcome, Ok(()));
    assert_eq!(vec, vec![104, 101, 108, 108, 111, 33]);
}

#[test]
fn test_decode_to_vec() {
    assert_eq!(
        decode_to_vec(&[97, 71, 86, 115, 98, 71, 56, 104]),
        Ok(vec![104, 101, 108, 108, 111, 33])
    );
    assert_eq!(
        decode_to_vec(&[86, 50, 86, 115, 89, 50, 57, 116, 90, 81]),
        Ok(vec![87, 101, 108, 99, 111, 109, 101])
    );
    assert_eq!(
        decode_to_vec(&[86, 50, 86, 115, 89, 50, 57, 116, 90, 81, 61, 61]),
        Ok(vec![87, 101, 108, 99, 111, 109, 101])
    );
    assert_eq!(
        decode_to_vec(&[
            86, 50, 86, 115, 89, 50, 57, 116, 90, 83, 66, 48, 98, 121, 66, 75, 89, 87, 49, 104,
            97, 87, 78, 104, 73, 71, 70, 117, 90, 67, 66, 108, 98, 109, 112, 118, 101, 83, 66,
            53, 98, 51, 86, 121, 73, 71, 104, 118, 98, 71, 120, 112, 90, 71, 70, 53
        ]),
        Ok(vec![
            87, 101, 108, 99, 111, 109, 101, 32, 116, 111, 32, 74, 97, 109, 97, 105, 99, 97, 32,
            97, 110, 100, 32, 101, 110, 106, 111, 121, 32, 121, 111, 117, 114, 32, 104, 111, 108,
            108, 105, 100, 97, 121
        ])
    );
}

#[test]
fn decode_byte_maps_the_alphabet() {
    for (value, symbol) in ALPHABET.iter().enumerate() {
        assert_eq!(decode_byte(*symbol), value as u8);
    }
    assert_eq!(decode_byte(b'A'), 0);
    assert_eq!(decode_byte(b'Z'), 25);
    assert_eq!(decode_byte(b'a'), 26);
    assert_eq!(decode_byte(b'z'), 51);
    assert_eq!(decode_byte(b'0'), 52);
    assert_eq!(decode_byte(b'9'), 61);
    assert_eq!(decode_byte(b'+'), 62);
    assert_eq!(decode_byte(b'/'), 63);
}

#[test]
fn decode_byte_takes_padding_as_zero() {
    assert_eq!(decode_byte(b'='), 0);
}

#[test]
fn decode_byte_marks_every_other_byte() {
    let mut foreign = 0;
    for byte in 0..=255u8 {
        if !ALPHABET.contains(&byte) && byte != b'=' {
            assert_eq!(decode_byte(byte), INVALID_SYMBOL);
            assert_eq!(decode_byte(byte), 64);
            foreign += 1;
        }
    }
    assert_eq!(foreign, 256 - 65);
}

#[test]
fn decode_quartet_packs_four_symbols() {
    assert_eq!(decode_quartet(*b"TWFu"), Some(*b"Man"));
    assert_eq!(decode_quartet(*b"AAAA"), Some([0, 0, 0]));
    assert_eq!(decode_quartet(*b"////"), Some([255, 255, 255]));
    assert_eq!(decode_quartet(*b"QUJD"), Some([65, 66, 67]));
}

#[test]
fn decode_quartet_fills_padding_with_zero_bits() {
    assert_eq!(decode_quartet(*b"QQ=="), Some([65, 0, 0]));
    assert_eq!(decode_quartet(*b"QUI="), Some([65, 66, 0]));
}

#[test]
fn decode_quartet_refuses_foreign_bytes() {
    assert_eq!(decode_quartet([0, b'A', b'A', b'A']), None);
    assert_eq!(decode_quartet([b'A', b'-', b'A', b'A']), None);
    assert_eq!(decode_quartet([b'A', b'A', b' ', b'A']), None);
    assert_eq!(decode_quartet([b'A', b'A', b'A', 200]), None);
}

#[test]
fn decode_octet_packs_eight_symbols() {
    assert_eq!(decode_octet(*b"TWFuQUJD"), Some(*b"ManABC"));
    assert_eq!(decode_octet(*b"aGVsbG8h"), Some(*b"hello!"));
}

#[test]
fn decode_octet_refuses_foreign_bytes() {
    for at in 0..8 {
        let mut input = *b"TWFuQUJD";
        input[at] = b'*';
        assert_eq!(decode_octet(input), None);
    }
}

#[test]
fn empty_input_decodes_to_nothing() {
    assert_eq!(decode_to_vec(&[]), Ok(vec![]));
    assert_eq!(decode_to_vec(b"="), Ok(vec![]));
    assert_eq!(decode_to_vec(b"===="), Ok(vec![]));
}

#[test]
fn short_last_group_of_two_gives_one_byte() {
    assert_eq!(decode_to_vec(b"QQ"), Ok(vec![65]));
    assert_eq!(decode_to_vec(b"TWFuQQ"), Ok(b"ManA".to_vec()));
}

#[test]
fn short_last_group_of_three_gives_two_bytes() {
    assert_eq!(decode_to_vec(b"QUI"), Ok(vec![65, 66]));
    assert_eq!(decode_to_vec(b"TWFuQUI"), Ok(b"ManAB".to_vec()));
}

#[test]
fn padding_does_not_change_the_result() {
    let plain = decode_to_vec(&[86, 50, 86, 115, 89, 50, 57, 116, 90, 81]);
    assert_eq!(plain, Ok(vec![87, 101, 108, 99, 111, 109, 101]));
    let mut padded = vec![86, 50, 86, 115, 89, 50, 57, 116, 90, 81];
    for _ in 0..6 {
        padded.push(61);
        assert_eq!(decode_to_vec(&padded), plain);
    }
}

#[test]
fn one_leftover_symbol_is_an_invalid_length() {
    assert_eq!(decode_to_vec(b"Q"), Err(Base64Error::InvalidLength));
    assert_eq!(decode_to_vec(b"TWFuQ"), Err(Base64Error::InvalidLength));
    assert_eq!(decode_to_vec(b"TWFuTWFuQ"), Err(Base64Error::InvalidLength));
    assert_eq!(decode_to_vec(b"Q==="), Err(Base64Error::InvalidLength));
}

#[test]
fn length_is_judged_before_the_symbols() {
    assert_eq!(decode_to_vec(&[0]), Err(Base64Error::InvalidLength));
    assert_eq!(decode_to_vec(&[0, 65, 65, 65, 65]), Err(Base64Error::InvalidLength));
    assert_eq!(decode_to_vec(&[65, 65, 65, 65, 0]), Err(Base64Error::InvalidLength));
}

#[test]
fn byte_zero_is_an_invalid_character() {
    assert_eq!(decode_to_vec(&[0, 65, 65, 65]), Err(Base64Error::InvalidCharacter { group: 0 }));
    assert_eq!(decode_to_vec(&[65, 65, 0, 65]), Err(Base64Error::InvalidCharacter { group: 0 }));
    assert_eq!(decode_to_vec(&[65, 0]), Err(Base64Error::InvalidCharacter { group: 0 }));
    assert_eq!(decode_to_vec(&[65, 65, 0]), Err(Base64Error::InvalidCharacter { group: 0 }));
}

#[test]
fn the_first_offending_group_is_reported() {
    assert_eq!(
        decode_to_vec(b"TWFuTW*uTWFu"),
        Err(Base64Error::InvalidCharacter { group: 1 })
    );
    assert_eq!(
        decode_to_vec(b"TWFuTWFuTW\nu"),
        Err(Base64Error::InvalidCharacter { group: 2 })
    );
    assert_eq!(
        decode_to_vec(b"TWFuTW*uTW*u"),
        Err(Base64Error::InvalidCharacter { group: 1 })
    );
    assert_eq!(decode_to_vec(b"TWFuQ*"), Err(Base64Error::InvalidCharacter { group: 1 }));
    assert_eq!(decode_to_vec(b"TWFuQU*"), Err(Base64Error::InvalidCharacter { group: 1 }));
}

#[test]
fn padding_inside_the_input_counts_as_zero() {
    assert_eq!(decode_to_vec(b"QQ=A"), Ok(vec![65, 0, 0]));
    assert_eq!(decode_to_vec(b"=AAA"), Ok(vec![0, 0, 0]));
}

#[test]
fn every_byte_string_comes_back_from_its_encoding() {
    let mut bytes: Vec<u8> = Vec::new();
    for n in 0..=40usize {
        assert_eq!(decode_to_vec(&encode(&bytes, false)), Ok(bytes.clone()));
        assert_eq!(decode_to_vec(&encode(&bytes, true)), Ok(bytes.clone()));
        bytes.push((n * 37 + 11) as u8);
    }
    let all: Vec<u8> = (0..=255u8).collect();
    assert_eq!(decode_to_vec(&encode(&all, false)), Ok(all.clone()));
    assert_eq!(decode_to_vec(&encode(&all, true)), Ok(all));
}

#[test]
fn callback_receives_one_chunk_per_group() {
    let mut sizes = Vec::new();
    let mut bytes = Vec::new();
    let outcome = decode_with_callback(b"V2VsY29tZQ", |chunk: &[u8]| {
        sizes.push(chunk.len());
        bytes.extend_from_slice(chunk);
    });
    assert_eq!(outcome, Ok(()));
    assert_eq!(sizes, vec![3, 3, 1]);
    assert_eq!(bytes, b"Welcome".to_vec());
}

#[test]
fn callback_receives_two_bytes_for_a_group_of_three() {
    let mut chunks: Vec<Vec<u8>> = Vec::new();
    let outcome = decode_with_callback(b"TWFuQUI=", |chunk: &[u8]| chunks.push(chunk.to_vec()));
    assert_eq!(outcome, Ok(()));
    assert_eq!(chunks, vec![b"Man".to_vec(), b"AB".to_vec()]);
}

#[test]
fn callback_agrees_with_the_buffered_form() {
    let mut bytes: Vec<u8> = Vec::new();
    for n in 0..=30usize {
        let text = encode(&bytes, n % 2 == 0);
        let mut streamed = Vec::new();
        let outcome = decode_with_callback(&text, |chunk: &[u8]| streamed.extend_from_slice(chunk));
        assert_eq!(outcome, Ok(()));
        assert_eq!(Ok(streamed), decode_to_vec(&text));
        bytes.push((n * 91 + 5) as u8);
    }
}

#[test]
fn callback_is_not_run_for_an_invalid_length() {
    let mut calls = 0;
    let outcome = decode_with_callback(b"TWFuTWFuQ", |_chunk: &[u8]| calls += 1);
    assert_eq!(outcome, Err(Base64Error::InvalidLength));
    assert_eq!(calls, 0);
}

#[test]
fn callback_stops_at_the_offending_group() {
    let mut bytes = Vec::new();
    let outcome =
        decode_with_callback(b"TWFuQUJDTW*uTWFu", |chunk: &[u8]| bytes.extend_from_slice(chunk));
    assert_eq!(outcome, Err(Base64Error::InvalidCharacter { group: 2 }));
    assert_eq!(bytes, b"ManABC".to_vec());
}

#[test]
fn callback_is_not_run_for_empty_input() {
    let mut calls = 0;
    assert_eq!(decode_with_callback(&[], |_chunk: &[u8]| calls += 1), Ok(()));
    assert_eq!(decode_with_callback(b"==", |_chunk: &[u8]| calls += 1), Ok(()));
    assert_eq!(calls, 0);
}
