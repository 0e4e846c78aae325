use lib::base64::{base64_decode, base64_encode};
use lib::hex::bytes_to_hex_string;

#[test]
fn base64_encode_rfc4648_vectors() {
    assert_eq!(base64_encode(b""), "");
    assert_eq!(base64_encode(b"f"), "Zg==");
    assert_eq!(base64_encode(b"fo"), "Zm8=");
    assert_eq!(base64_encode(b"foo"), "Zm9v");
    assert_eq!(base64_encode(b"foob"), "Zm9vYg==");
    assert_eq!(base64_encode(b"fooba"), "Zm9vYmE=");
    assert_eq!(base64_encode(b"foobar"), "Zm9vYmFy");
}

#[test]
fn base64_encode_whole_alphabet() {
    let bytes: Vec<u8> = vec![0x00, 0x10, 0x83, 0x10, 0x51, 0x87, 0x20, 0x92, 0x8b, 0x30, 0xd3, 0x8f,
        0x41, 0x14, 0x93, 0x51, 0x55, 0x97, 0x61, 0x96, 0x9b, 0x71, 0xd7, 0x9f, 0x82, 0x18, 0xa3,
        0x92, 0x59, 0xa7, 0xa2, 0x9a, 0xab, 0xb2, 0xdb, 0xaf, 0xc3, 0x1c, 0xb3, 0xd3, 0x5d, 0xb7,
        0xe3, 0x9e, 0xbb, 0xf3, 0xdf, 0xbf];
    assert_eq!(
        base64_encode(&bytes),
        "ABCDEFGHIJKLMNOPQRSTUVWXYZabcdefghijklmnopqrstuvwxyz0123456789+/"
    );
    assert_eq!(
        base64_decode("ABCDEFGHIJKLMNOPQRSTUVWXYZabcdefghijklmnopqrstuvwxyz0123456789+/"),
        Ok(bytes)
    );
}

#[test]
fn base64_decode_rfc4648_vectors() {
    assert_eq!(base64_decode(""), Ok(vec![]));
    assert_eq!(base64_decode("Zg=="), Ok(b"f".to_vec()));
    assert_eq!(base64_decode("Zm8="), Ok(b"fo".to_vec()));
    assert_eq!(base64_decode("Zm9v"), Ok(b"foo".to_vec()));
    assert_eq!(base64_decode("Zm9vYg=="), Ok(b"foob".to_vec()));
    assert_eq!(base64_decode("Zm9vYmE="), Ok(b"fooba".to_vec()));
    assert_eq!(base64_decode("Zm9vYmFy"), Ok(b"foobar".to_vec()));
}

#[test]
fn base64_decode_invalid_character() {
    assert_eq!(
        base64_decode("Zm9v!mFy"),
        Err("Caractere inválido encontrado: !".to_string())
    );
    // The first offending character is the one reported.
    assert_eq!(
        base64_decode("Zm*v#mFy"),
        Err("Caractere inválido encontrado: *".to_string())
    );
    assert_eq!(
        base64_decode("Zm9vé"),
        Err("Caractere inválido encontrado: é".to_string())
    );
}

#[test]
fn base64_decode_short_last_group() {
    // Missing characters of a short last group count as zero, not as padding.
    assert_eq!(base64_decode("Zg"), Ok(vec![0x66, 0x00, 0x00]));
    assert_eq!(base64_decode("Zm9vZg"), Ok(vec![b'f', b'o', b'o', 0x66, 0x00, 0x00]));
}

#[test]
fn base64_decode_only_padding() {
    assert_eq!(base64_decode("===="), Ok(vec![]));
    assert_eq!(base64_decode("A==="), Ok(vec![]));
}

#[test]
fn base64_roundtrip_all_lengths() {
    let data: Vec<u8> = (0..=255u8).collect();
    for n in 0..data.len() {
        let encoded = base64_encode(&data[..n]);
        assert_eq!(encoded.len(), 4 * ((n + 2) / 3));
        assert_eq!(base64_decode(&encoded), Ok(data[..n].to_vec()));
    }
}

#[test]
fn hex_string_values() {
    assert_eq!(bytes_to_hex_string(&[]), "");
    assert_eq!(bytes_to_hex_string(&[0x00, 0xff, 0x0a, 0xa0, 0x5c]), "00ff0aa05c");
}
