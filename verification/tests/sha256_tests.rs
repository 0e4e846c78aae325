use lib::hex::bytes_to_hex_string;
use lib::sha256::{ch, gamma0, gamma1, maj, process_block, rotr, sha256, sigma0, sigma1, H_INIT};

fn hex_digest(message: &[u8]) -> String {
    bytes_to_hex_string(&sha256(message))
}

#[test]
fn sha256_empty_message() {
    assert_eq!(
        hex_digest(b""),
        "e3b0c44298fc1c149afbf4c8996fb92427ae41e4649b934ca495991b7852b855"
    );
}

#[test]
fn sha256_abc() {
    assert_eq!(
        hex_digest(b"abc"),
        "ba7816bf8f01cfea414140de5dae2223b00361a396177a9cb410ff61f20015ad"
    );
}

#[test]
fn sha256_two_block_message() {
    assert_eq!(
        hex_digest(b"abcdbcdecdefdefgefghfghighijhijkijkljklmklmnlmnomnopnopq"),
        "248d6a61d20638b8e5c026930c3e6039a33ce45964ff2167f6ecedd419db06c1"
    );
}

#[test]
fn sha256_padding_edges() {
    assert_eq!(
        hex_digest(&[b'a'; 55]),
        "9f4390f8d30c2dd92ec9f095b65e2b9ae9b0a925a5258e241c9f1e910f734318"
    );
    assert_eq!(
        hex_digest(&[b'a'; 56]),
        "b35439a4ac6f0948b6d6f9e3c6af0f5f590ce20f1bde7090ef7970686ec6738a"
    );
    assert_eq!(
        hex_digest(&[b'a'; 63]),
        "7d3e74a05d7db15bce4ad9ec0658ea98e3f06eeecf16b4c6fff2da457ddc2f34"
    );
    assert_eq!(
        hex_digest(&[b'a'; 64]),
        "ffe054fe7ae0cb6dc65c3af9b61d5209f439851db43d0ba5997337df154668eb"
    );
}

#[test]
fn sha256_million_a() {
    let message = vec![b'a'; 1_000_000];
    assert_eq!(
        hex_digest(&message),
        "cdc76e5c9914fb9281a1c7e284d73e67f1809a48a497200e046d39ccc7112cd0"
    );
}

#[test]
fn sha256_non_ascii_byte() {
    assert_eq!(
        hex_digest(&[0xff]),
        "a8100ae6aa1940d0b663bb31cd466142ebbdbd5187131b92d93818987832eb89"
    );
}

#[test]
fn process_block_single_block_of_abc() {
    let mut block = [0u8; 64];
    block[0] = b'a';
    block[1] = b'b';
    block[2] = b'c';
    block[3] = 0x80;
    block[63] = 24;
    let mut state = H_INIT;
    process_block(&mut state, &block);
    assert_eq!(
        state,
        [
            0xba7816bf, 0x8f01cfea, 0x414140de, 0x5dae2223, 0xb00361a3, 0x96177a9c, 0xb410ff61,
            0xf20015ad
        ]
    );
}

#[test]
fn rotr_values() {
    assert_eq!(rotr(0x12345678, 8), 0x78123456);
    assert_eq!(rotr(0x12345678, 1), 0x091a2b3c);
    assert_eq!(rotr(0x12345678, 31), 0x2468acf0);
}

#[test]
fn ch_and_maj_values() {
    assert_eq!(ch(0xff00ff00, 0x12345678, 0x9abcdef0), 0x12bc56f0);
    assert_eq!(maj(0xff00ff00, 0x12345678, 0x9abcdef0), 0x9a34de70);
    // Ch chooses y where x is all ones, z where x is all zeros.
    assert_eq!(ch(0xffffffff, 0x12345678, 0x9abcdef0), 0x12345678);
    assert_eq!(ch(0, 0x12345678, 0x9abcdef0), 0x9abcdef0);
    // Maj of two equal words is that word.
    assert_eq!(maj(0x12345678, 0x12345678, 0x9abcdef0), 0x12345678);
}

#[test]
fn sigma_and_gamma_values() {
    assert_eq!(sigma0(0x6a09e667), 0xce20b47e);
    assert_eq!(sigma1(0x510e527f), 0x3587272b);
    assert_eq!(gamma0(0x61626380), 0x940e90ef);
    assert_eq!(gamma1(0x18), 0x000f0000);
}
