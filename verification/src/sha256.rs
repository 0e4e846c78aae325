//! The SHA-256 hash function (FIPS 180-4).

use vstd::prelude::*;

verus! {

/// The SHA-256 round constants K_0 .. K_63.
pub const K: [u32; 64] = [
    0x428a2f98, 0x71374491, 0xb5c0fbcf, 0xe9b5dba5, 0x3956c25b, 0x59f111f1, 0x923f82a4, 0xab1c5ed5,
    0xd807aa98, 0x12835b01, 0x243185be, 0x550c7dc3, 0x72be5d74, 0x80deb1fe, 0x9bdc06a7, 0xc19bf174,
    0xe49b69c1, 0xefbe4786, 0x0fc19dc6, 0x240ca1cc, 0x2de92c6f, 0x4a7484aa, 0x5cb0a9dc, 0x76f988da,
    0x983e5152, 0xa831c66d, 0xb00327c8, 0xbf597fc7, 0xc6e00bf3, 0xd5a79147, 0x06ca6351, 0x14292967,
    0x27b70a85, 0x2e1b2138, 0x4d2c6dfc, 0x53380d13, 0x650a7354, 0x766a0abb, 0x81c2c92e, 0x92722c85,
    0xa2bfe8a1, 0xa81a664b, 0xc24b8b70, 0xc76c51a3, 0xd192e819, 0xd6990624, 0xf40e3585, 0x106aa070,
    0x19a4c116, 0x1e376c08, 0x2748774c, 0x34b0bcb5, 0x391c0cb3, 0x4ed8aa4a, 0x5b9cca4f, 0x682e6ff3,
    0x748f82ee, 0x78a5636f, 0x84c87814, 0x8cc70208, 0x90befffa, 0xa4506ceb, 0xbef9a3f7, 0xc67178f2,
];

/// The SHA-256 initial hash value H(0).
pub const H_INIT: [u32; 8] = [
    0x6a09e667, 0xbb67ae85, 0x3c6ef372, 0xa54ff53a, 0x510e527f, 0x9b05688c, 0x1f83d9ab, 0x5be0cd19,
];

// ---------------------------------------------------------------------------
// Word operations
// ---------------------------------------------------------------------------

/// Addition modulo 2^32.
#[verifier::opaque]
pub open spec fn add32(x: u32, y: u32) -> u32 {
    ((x + y) % 0x1_0000_0000) as u32
}

/// Right rotation of a 32-bit word by `n` bits: ROTR^n(x) = (x >> n) | (x << (32 - n)).
pub open spec fn rotr_spec(x: u32, n: u32) -> u32 {
    (x >> n) | (x << ((32 - n) as u32))
}

/// Ch(x, y, z) = (x AND y) XOR (NOT x AND z).
pub open spec fn ch_spec(x: u32, y: u32, z: u32) -> u32 {
    (x & y) ^ (!x & z)
}

/// Maj(x, y, z) = (x AND y) XOR (x AND z) XOR (y AND z).
pub open spec fn maj_spec(x: u32, y: u32, z: u32) -> u32 {
    (x & y) ^ (x & z) ^ (y & z)
}

/// The upper-case Sigma_0 of FIPS 180-4: ROTR^2 ^ ROTR^13 ^ ROTR^22.
pub open spec fn sigma0_spec(x: u32) -> u32 {
    rotr_spec(x, 2) ^ rotr_spec(x, 13) ^ rotr_spec(x, 22)
}

/// The upper-case Sigma_1 of FIPS 180-4: ROTR^6 ^ ROTR^11 ^ ROTR^25.
pub open spec fn sigma1_spec(x: u32) -> u32 {
    rotr_spec(x, 6) ^ rotr_spec(x, 11) ^ rotr_spec(x, 25)
}

/// The lower-case sigma_0 of FIPS 180-4: ROTR^7 ^ ROTR^18 ^ SHR^3.
pub open spec fn gamma0_spec(x: u32) -> u32 {
    rotr_spec(x, 7) ^ rotr_spec(x, 18) ^ (x >> 3)
}

/// The lower-case sigma_1 of FIPS 180-4: ROTR^17 ^ ROTR^19 ^ SHR^10.
pub open spec fn gamma1_spec(x: u32) -> u32 {
    rotr_spec(x, 17) ^ rotr_spec(x, 19) ^ (x >> 10)
}

/// Bit `i` of `x`.
pub open spec fn bit(x: u32, i: u32) -> bool {
    (x >> i) & 1 == 1
}

/// Rotates `x` right by `n` bit positions.
pub fn rotr(x: u32, n: u32) -> (r: u32)
    requires
        0 < n < 32,
    ensures
        r == rotr_spec(x, n),
{
    (x >> n) | (x << (32 - n))
}

/// The choose function: each bit of `x` selects the bit of `y` (when set) or of `z`.
pub fn ch(x: u32, y: u32, z: u32) -> (r: u32)
    ensures
        r == ch_spec(x, y, z),
{
    (x & y) ^ (!x & z)
}

/// The majority function: each result bit is the majority of the three input bits.
pub fn maj(x: u32, y: u32, z: u32) -> (r: u32)
    ensures
        r == maj_spec(x, y, z),
{
    (x & y) ^ (x & z) ^ (y & z)
}

/// The compression-round function Sigma_0.
pub fn sigma0(x: u32) -> (r: u32)
    ensures
        r == sigma0_spec(x),
{
    rotr(x, 2) ^ rotr(x, 13) ^ rotr(x, 22)
}

/// The compression-round function Sigma_1.
pub fn sigma1(x: u32) -> (r: u32)
    ensures
        r == sigma1_spec(x),
{
    rotr(x, 6) ^ rotr(x, 11) ^ rotr(x, 25)
}

/// The message-schedule function sigma_0.
pub fn gamma0(x: u32) -> (r: u32)
    ensures
        r == gamma0_spec(x),
{
    rotr(x, 7) ^ rotr(x, 18) ^ (x >> 3)
}

/// The message-schedule function sigma_1.
pub fn gamma1(x: u32) -> (r: u32)
    ensures
        r == gamma1_spec(x),
{
    rotr(x, 17) ^ rotr(x, 19) ^ (x >> 10)
}

// ---------------------------------------------------------------------------
// Compression of one block
// ---------------------------------------------------------------------------

/// The `j`-th 32-bit big-endian word of a block.
pub open spec fn block_word(block: Seq<u8>, j: int) -> u32 {
    (block[4 * j] as int * 0x100_0000 + block[4 * j + 1] as int * 0x1_0000 + block[4 * j + 2] as int
        * 0x100 + block[4 * j + 3] as int) as u32
}

/// The message schedule W_t of a 64-byte block.
#[verifier::opaque]
pub open spec fn schedule(block: Seq<u8>, t: nat) -> u32
    decreases t,
{
    if t < 16 {
        block_word(block, t as int)
    } else {
        add32(
            add32(
                add32(gamma1_spec(schedule(block, (t - 2) as nat)), schedule(block, (t - 7) as nat)),
                gamma0_spec(schedule(block, (t - 15) as nat)),
            ),
            schedule(block, (t - 16) as nat),
        )
    }
}

/// One compression round applied to the working variables `v` = [a, b, c, d, e, f, g, h].
pub open spec fn round(v: Seq<u32>, k: u32, w: u32) -> Seq<u32> {
    let t1 = add32(add32(add32(add32(v[7], sigma1_spec(v[4])), ch_spec(v[4], v[5], v[6])), k), w);
    let t2 = add32(sigma0_spec(v[0]), maj_spec(v[0], v[1], v[2]));
    seq![add32(t1, t2), v[0], v[1], v[2], add32(v[3], t1), v[4], v[5], v[6]]
}

/// The working variables after the first `t` rounds over `block`, starting from `state`.
#[verifier::opaque]
pub open spec fn rounds(state: Seq<u32>, block: Seq<u8>, t: nat) -> Seq<u32>
    decreases t,
{
    if t == 0 {
        state
    } else {
        round(rounds(state, block, (t - 1) as nat), K[t - 1], schedule(block, (t - 1) as nat))
    }
}

/// The SHA-256 compression function: the new intermediate hash value after one block.
pub open spec fn compress(state: Seq<u32>, block: Seq<u8>) -> Seq<u32> {
    let v = rounds(state, block, 64);
    Seq::new(8, |i: int| add32(state[i], v[i]))
}

proof fn lemma_schedule_step(block: Seq<u8>, t: nat)
    requires
        16 <= t,
    ensures
        schedule(block, t) == add32(
            add32(
                add32(gamma1_spec(schedule(block, (t - 2) as nat)), schedule(block, (t - 7) as nat)),
                gamma0_spec(schedule(block, (t - 15) as nat)),
            ),
            schedule(block, (t - 16) as nat),
        ),
{
    reveal_with_fuel(schedule, 1);
}

proof fn lemma_schedule_first(block: Seq<u8>, t: nat)
    requires
        t < 16,
    ensures
        schedule(block, t) == block_word(block, t as int),
{
    reveal_with_fuel(schedule, 1);
}

proof fn lemma_rounds_step(state: Seq<u32>, block: Seq<u8>, t: nat)
    ensures
        rounds(state, block, t + 1) == round(rounds(state, block, t), K[t as int], schedule(block, t)),
{
    reveal_with_fuel(rounds, 1);
}

proof fn lemma_rounds_zero(state: Seq<u32>, block: Seq<u8>)
    ensures
        rounds(state, block, 0) == state,
{
    reveal_with_fuel(rounds, 1);
}

proof fn lemma_big_endian_word(b0: u8, b1: u8, b2: u8, b3: u8)
    ensures
        ((b0 as u32) << 24u32) | ((b1 as u32) << 16u32) | ((b2 as u32) << 8u32) | (b3 as u32)
            == (b0 as int * 0x100_0000 + b1 as int * 0x1_0000 + b2 as int * 0x100 + b3 as int) as u32,
{
    assert(((b0 as u32) << 24u32) | ((b1 as u32) << 16u32) | ((b2 as u32) << 8u32) | (b3 as u32)
        == (b0 as u32) * 0x100_0000u32 + (b1 as u32) * 0x1_0000u32 + (b2 as u32) * 0x100u32 + (b3 as u32))
        by (bit_vector);
}

/// Processes one 64-byte block, updating the intermediate hash value.
pub fn process_block(state: &mut [u32; 8], block: &[u8; 64])
    ensures
        final(state)@ == compress(old(state)@, block@),
{
    let mut w = [0u32; 64];

    for i in 0..16
        invariant
            forall|j: int| 0 <= j < i ==> #[trigger] w@[j] == schedule(block@, j as nat),
    {
        proof {
            let j = i as int;
            lemma_schedule_first(block@, i as nat);
            lemma_big_endian_word(block@[4 * j], block@[4 * j + 1], block@[4 * j + 2], block@[4 * j + 3]);
        }
        w[i] = ((block[i * 4] as u32) << 24) | ((block[i * 4 + 1] as u32) << 16) | ((block[i * 4
            + 2] as u32) << 8) | (block[i * 4 + 3] as u32);
    }

    for i in 16..64
        invariant
            forall|j: int| 0 <= j < i ==> #[trigger] w@[j] == schedule(block@, j as nat),
    {
        proof {
            lemma_schedule_step(block@, i as nat);
        }
        w[i] = wadd(wadd(wadd(gamma1(w[i - 2]), w[i - 7]), gamma0(w[i - 15])), w[i - 16]);
    }

    let mut a = state[0];
    let mut b = state[1];
    let mut c = state[2];
    let mut d = state[3];
    let mut e = state[4];
    let mut f = state[5];
    let mut g = state[6];
    let mut h = state[7];
    proof {
        lemma_rounds_zero(state@, block@);
    }

    for i in 0..64
        invariant
            forall|j: int| 0 <= j < 64 ==> #[trigger] w@[j] == schedule(block@, j as nat),
            working_vars_are(rounds(state@, block@, i as nat), a, b, c, d, e, f, g, h),
    {
        let t1 = wadd(wadd(wadd(wadd(h, sigma1(e)), ch(e, f, g)), K[i]), w[i]);
        let t2 = wadd(sigma0(a), maj(a, b, c));

        h = g;
        g = f;
        f = e;
        e = wadd(d, t1);
        d = c;
        c = b;
        b = a;
        a = wadd(t1, t2);
        proof {
            lemma_rounds_step(state@, block@, i as nat);
        }
    }

    state[0] = wadd(state[0], a);
    state[1] = wadd(state[1], b);
    state[2] = wadd(state[2], c);
    state[3] = wadd(state[3], d);
    state[4] = wadd(state[4], e);
    state[5] = wadd(state[5], f);
    state[6] = wadd(state[6], g);
    state[7] = wadd(state[7], h);
    assert(state@ =~= compress(old(state)@, block@));
}

/// The working variables `v` are exactly `a` .. `h`.
pub open spec fn working_vars_are(
    v: Seq<u32>,
    a: u32,
    b: u32,
    c: u32,
    d: u32,
    e: u32,
    f: u32,
    g: u32,
    h: u32,
) -> bool {
    &&& v.len() == 8
    &&& v[0] == a
    &&& v[1] == b
    &&& v[2] == c
    &&& v[3] == d
    &&& v[4] == e
    &&& v[5] == f
    &&& v[6] == g
    &&& v[7] == h
}

/// Addition modulo 2^32 of two words.
fn wadd(x: u32, y: u32) -> (r: u32)
    ensures
        r == add32(x, y),
{
    reveal(add32);
    x.wrapping_add(y)
}

// ---------------------------------------------------------------------------
// Padding and the whole hash
// ---------------------------------------------------------------------------

/// The number of zero bytes placed between the 0x80 byte and the length field.
pub open spec fn zero_pad_len(n: nat) -> nat {
    ((64 - (n + 9) % 64) % 64) as nat
}

/// A bit count as a 64-bit big-endian integer.
pub open spec fn length_bytes(bits: nat) -> Seq<u8> {
    seq![
        ((bits / 0x100_0000_0000_0000) % 0x100) as u8,
        ((bits / 0x1_0000_0000_0000) % 0x100) as u8,
        ((bits / 0x100_0000_0000) % 0x100) as u8,
        ((bits / 0x1_0000_0000) % 0x100) as u8,
        ((bits / 0x100_0000) % 0x100) as u8,
        ((bits / 0x1_0000) % 0x100) as u8,
        ((bits / 0x100) % 0x100) as u8,
        (bits % 0x100) as u8,
    ]
}

/// The padded message: the message, the byte 0x80, zero bytes, and the message length in bits.
pub open spec fn pad(msg: Seq<u8>) -> Seq<u8> {
    msg + seq![0x80u8] + Seq::new(zero_pad_len(msg.len()), |i: int| 0u8) + length_bytes(
        msg.len() * 8,
    )
}

/// The intermediate hash value after the first `n` 64-byte blocks of `data`.
#[verifier::opaque]
pub open spec fn hash_blocks(state: Seq<u32>, data: Seq<u8>, n: nat) -> Seq<u32>
    decreases n,
{
    if n == 0 {
        state
    } else {
        compress(hash_blocks(state, data, (n - 1) as nat), data.subrange(64 * (n - 1), 64 * n as int))
    }
}

/// A word as four big-endian bytes.
pub open spec fn word_bytes(w: u32) -> Seq<u8> {
    seq![
        (w / 0x100_0000) as u8,
        ((w / 0x1_0000) % 0x100) as u8,
        ((w / 0x100) % 0x100) as u8,
        (w % 0x100) as u8,
    ]
}

/// The 32-byte digest of a final hash value of eight words.
pub open spec fn digest_bytes(state: Seq<u32>) -> Seq<u8> {
    Seq::new(32, |i: int| word_bytes(state[i / 4])[i % 4])
}

/// The SHA-256 digest of a message.
pub open spec fn sha256_spec(msg: Seq<u8>) -> Seq<u8> {
    let p = pad(msg);
    digest_bytes(hash_blocks(H_INIT@, p, p.len() / 64))
}

proof fn lemma_hash_blocks_step(state: Seq<u32>, data: Seq<u8>, n: nat)
    ensures
        hash_blocks(state, data, n + 1) == compress(
            hash_blocks(state, data, n),
            data.subrange(64 * n as int, 64 * (n + 1) as int),
        ),
{
    reveal_with_fuel(hash_blocks, 1);
}

proof fn lemma_hash_blocks_zero(state: Seq<u32>, data: Seq<u8>)
    ensures
        hash_blocks(state, data, 0) == state,
{
    reveal_with_fuel(hash_blocks, 1);
}

proof fn lemma_length_field(x: u64)
    ensures
        ((x >> 56u64) & 0xffu64) as u8 == length_bytes(x as nat)[0],
        ((x >> 48u64) & 0xffu64) as u8 == length_bytes(x as nat)[1],
        ((x >> 40u64) & 0xffu64) as u8 == length_bytes(x as nat)[2],
        ((x >> 32u64) & 0xffu64) as u8 == length_bytes(x as nat)[3],
        ((x >> 24u64) & 0xffu64) as u8 == length_bytes(x as nat)[4],
        ((x >> 16u64) & 0xffu64) as u8 == length_bytes(x as nat)[5],
        ((x >> 8u64) & 0xffu64) as u8 == length_bytes(x as nat)[6],
        (x & 0xffu64) as u8 == length_bytes(x as nat)[7],
{
    assert(((x >> 56u64) & 0xffu64) == (x / 0x100_0000_0000_0000u64) % 0x100u64) by (bit_vector);
    assert(((x >> 48u64) & 0xffu64) == (x / 0x1_0000_0000_0000u64) % 0x100u64) by (bit_vector);
    assert(((x >> 40u64) & 0xffu64) == (x / 0x100_0000_0000u64) % 0x100u64) by (bit_vector);
    assert(((x >> 32u64) & 0xffu64) == (x / 0x1_0000_0000u64) % 0x100u64) by (bit_vector);
    assert(((x >> 24u64) & 0xffu64) == (x / 0x100_0000u64) % 0x100u64) by (bit_vector);
    assert(((x >> 16u64) & 0xffu64) == (x / 0x1_0000u64) % 0x100u64) by (bit_vector);
    assert(((x >> 8u64) & 0xffu64) == (x / 0x100u64) % 0x100u64) by (bit_vector);
    assert((x & 0xffu64) == x % 0x100u64) by (bit_vector);
}

proof fn lemma_word_bytes(w: u32)
    ensures
        ((w >> 24u32) & 0xffu32) as u8 == word_bytes(w)[0],
        ((w >> 16u32) & 0xffu32) as u8 == word_bytes(w)[1],
        ((w >> 8u32) & 0xffu32) as u8 == word_bytes(w)[2],
        (w & 0xffu32) as u8 == word_bytes(w)[3],
{
    assert(((w >> 24u32) & 0xffu32) == w / 0x100_0000u32) by (bit_vector);
    assert(((w >> 16u32) & 0xffu32) == (w / 0x1_0000u32) % 0x100u32) by (bit_vector);
    assert(((w >> 8u32) & 0xffu32) == (w / 0x100u32) % 0x100u32) by (bit_vector);
    assert((w & 0xffu32) == w % 0x100u32) by (bit_vector);
}

proof fn lemma_pad_len(n: nat)
    ensures
        (n + 9 + zero_pad_len(n)) % 64 == 0,
        zero_pad_len(n) < 64,
{
    let r = (n + 9) % 64;
    let q = (n + 9) / 64;
    assert(n + 9 == 64 * q + r) by {
        vstd::arithmetic::div_mod::lemma_fundamental_div_mod((n + 9) as int, 64);
    }
    if r == 0 {
        assert(zero_pad_len(n) == 0);
        assert((64 * q) % 64 == 0) by {
            vstd::arithmetic::div_mod::lemma_mod_multiples_basic(q as int, 64);
        }
    } else {
        assert(zero_pad_len(n) == 64 - r);
        assert(n + 9 + zero_pad_len(n) == 64 * (q + 1));
        assert((64 * (q + 1)) % 64 == 0) by {
            vstd::arithmetic::div_mod::lemma_mod_multiples_basic(q + 1int, 64);
        }
    }
}

/// The padded message holds whole 64-byte blocks: it starts with the message, followed by
/// the byte 0x80, and is the shortest such sequence with room for the 8-byte length field.
pub proof fn lemma_pad_whole_blocks(msg: Seq<u8>)
    ensures
        pad(msg).len() % 64 == 0,
        msg.len() + 9 <= pad(msg).len() < msg.len() + 73,
        pad(msg).subrange(0, msg.len() as int) == msg,
        pad(msg)[msg.len() as int] == 0x80u8,
        forall|i: int| msg.len() < i < pad(msg).len() - 8 ==> #[trigger] pad(msg)[i] == 0u8,
        pad(msg).subrange(pad(msg).len() - 8, pad(msg).len() as int) == length_bytes(msg.len() * 8),
{
    let n = msg.len();
    let z = Seq::new(zero_pad_len(n), |j: int| 0u8);
    let l = length_bytes(n * 8);
    let p = pad(msg);
    assert(p == msg + seq![0x80u8] + z + l);
    lemma_pad_len(n);
    assert(p.len() == n + 9 + zero_pad_len(n));
    assert(p.subrange(0, n as int) =~= msg);
    assert(p.subrange(p.len() - 8, p.len() as int) =~= l);
    assert forall|i: int| n < i < p.len() - 8 implies #[trigger] p[i] == 0u8 by {
        assert(p[i] == z[i - n - 1]);
    }
}

/// Computes the SHA-256 digest of a message.
pub fn sha256(message: &[u8]) -> (hash: [u8; 32])
    requires
        message@.len() * 8 <= usize::MAX,
    ensures
        hash@ == sha256_spec(message@),
{
    let mut state = H_INIT;

    let len = message.len();
    let bit_len = (len * 8) as u64;

    let mut padded_message: Vec<u8> = Vec::with_capacity(len + 9 + (64 - ((len + 9) % 64)) % 64);
    for i in 0..len
        invariant
            len == message@.len(),
            padded_message@ =~= message@.subrange(0, i as int),
    {
        padded_message.push(message[i]);
    }

    padded_message.push(0x80);

    let padding_zeros = (64 - ((len + 1 + 8) % 64)) % 64;
    let ghost prefix = padded_message@;
    for i in 0..padding_zeros
        invariant
            padded_message@ =~= prefix + Seq::new(i as nat, |j: int| 0u8),
    {
        padded_message.push(0);
    }

    proof {
        lemma_length_field(bit_len);
    }
    padded_message.push(((bit_len >> 56) & 0xff) as u8);
    padded_message.push(((bit_len >> 48) & 0xff) as u8);
    padded_message.push(((bit_len >> 40) & 0xff) as u8);
    padded_message.push(((bit_len >> 32) & 0xff) as u8);
    padded_message.push(((bit_len >> 24) & 0xff) as u8);
    padded_message.push(((bit_len >> 16) & 0xff) as u8);
    padded_message.push(((bit_len >> 8) & 0xff) as u8);
    padded_message.push((bit_len & 0xff) as u8);

    proof {
        assert(padded_message@ =~= pad(message@));
        lemma_pad_whole_blocks(message@);
        lemma_hash_blocks_zero(H_INIT@, padded_message@);
    }

    let n_blocks = padded_message.len() / 64;
    let mut b: usize = 0;
    while b < n_blocks
        invariant
            padded_message@ == pad(message@),
            padded_message@.len() == 64 * n_blocks,
            64 * n_blocks <= usize::MAX,
            b <= n_blocks,
            state@ == hash_blocks(H_INIT@, padded_message@, b as nat),
        decreases n_blocks - b,
    {
        let mut block = [0u8; 64];
        for j in 0..64
            invariant
                b < n_blocks,
                padded_message@.len() == 64 * n_blocks,
                64 * n_blocks <= usize::MAX,
                forall|k: int| 0 <= k < j ==> #[trigger] block@[k] == padded_message@[64 * b + k],
        {
            block[j] = padded_message[64 * b + j];
        }
        assert(block@ =~= padded_message@.subrange(64 * b, 64 * (b + 1)));
        proof {
            lemma_hash_blocks_step(H_INIT@, padded_message@, b as nat);
        }
        process_block(&mut state, &block);
        b = b + 1;
    }

    let mut hash = [0u8; 32];
    for i in 0..8
        invariant
            forall|j: int| 0 <= j < 4 * i ==> #[trigger] hash@[j] == digest_bytes(state@)[j],
    {
        proof {
            lemma_word_bytes(state[i as int]);
        }
        hash[i * 4] = ((state[i] >> 24) & 0xff) as u8;
        hash[i * 4 + 1] = ((state[i] >> 16) & 0xff) as u8;
        hash[i * 4 + 2] = ((state[i] >> 8) & 0xff) as u8;
        hash[i * 4 + 3] = (state[i] & 0xff) as u8;
    }
    assert(hash@ =~= digest_bytes(state@));
    hash
}

// ---------------------------------------------------------------------------
// Laws of the word functions
// ---------------------------------------------------------------------------

/// Bit `i` of the rotation is bit `(i + n) mod 32` of the input.
pub proof fn lemma_rotr_bits(x: u32, n: u32, i: u32)
    requires
        0 < n < 32,
        i < 32,
    ensures
        bit(rotr_spec(x, n), i) == bit(x, ((i + n) % 32) as u32),
{
    assert(((((x >> n) | (x << ((32 - n) as u32))) >> i) & 1 == 1) == ((x >> ((i + n) % 32) as u32)
        & 1 == 1)) by (bit_vector)
        requires
            0 < n < 32,
            i < 32,
    ;
}

/// Each bit of Ch(x, y, z) is the bit of `y` where `x` has a one, and the bit of `z` where
/// `x` has a zero.
pub proof fn lemma_ch_bits(x: u32, y: u32, z: u32, i: u32)
    requires
        i < 32,
    ensures
        bit(ch_spec(x, y, z), i) == if bit(x, i) {
            bit(y, i)
        } else {
            bit(z, i)
        },
{
    assert(((((x & y) ^ (!x & z)) >> i) & 1 == 1) == if (x >> i) & 1 == 1 {
        (y >> i) & 1 == 1
    } else {
        (z >> i) & 1 == 1
    }) by (bit_vector)
        requires
            i < 32,
    ;
}

/// Each bit of Maj(x, y, z) is one exactly when at least two of the three input bits are one.
pub proof fn lemma_maj_bits(x: u32, y: u32, z: u32, i: u32)
    requires
        i < 32,
    ensures
        bit(maj_spec(x, y, z), i) == ((bit(x, i) && bit(y, i)) || (bit(x, i) && bit(z, i)) || (bit(
            y,
            i,
        ) && bit(z, i))),
{
    assert(((((x & y) ^ (x & z) ^ (y & z)) >> i) & 1 == 1) == (((x >> i) & 1 == 1 && (y >> i) & 1
        == 1) || ((x >> i) & 1 == 1 && (z >> i) & 1 == 1) || ((y >> i) & 1 == 1 && (z >> i) & 1
        == 1))) by (bit_vector)
        requires
            i < 32,
    ;
}

proof fn lemma_xor3_bits(a: u32, b: u32, c: u32, i: u32)
    requires
        i < 32,
    ensures
        bit(a ^ b ^ c, i) == (bit(a, i) != (bit(b, i) != bit(c, i))),
{
    assert((((a ^ b ^ c) >> i) & 1 == 1) == (((a >> i) & 1 == 1) != (((b >> i) & 1 == 1) != ((c
        >> i) & 1 == 1)))) by (bit_vector)
        requires
            i < 32,
    ;
}

proof fn lemma_shr_bits(x: u32, k: u32, i: u32)
    requires
        i < 32,
        k < 32,
    ensures
        bit(x >> k, i) == (i + k < 32 && bit(x, (i + k) as u32)),
{
    assert((((x >> k) >> i) & 1 == 1) == (i + k < 32 && (x >> ((i + k) as u32)) & 1 == 1))
        by (bit_vector)
        requires
            i < 32,
            k < 32,
    ;
}

/// Bit `i` of Sigma_0(x) is the exclusive or of bits `i + 2`, `i + 13` and `i + 22` of `x`,
/// counted around the word.
pub proof fn lemma_sigma0_bits(x: u32, i: u32)
    requires
        i < 32,
    ensures
        bit(sigma0_spec(x), i) == (bit(x, ((i + 2) % 32) as u32) != (bit(x, ((i + 13) % 32) as u32)
            != bit(x, ((i + 22) % 32) as u32))),
{
    lemma_xor3_bits(rotr_spec(x, 2), rotr_spec(x, 13), rotr_spec(x, 22), i);
    lemma_rotr_bits(x, 2, i);
    lemma_rotr_bits(x, 13, i);
    lemma_rotr_bits(x, 22, i);
}

/// Bit `i` of Sigma_1(x) is the exclusive or of bits `i + 6`, `i + 11` and `i + 25` of `x`,
/// counted around the word.
pub proof fn lemma_sigma1_bits(x: u32, i: u32)
    requires
        i < 32,
    ensures
        bit(sigma1_spec(x), i) == (bit(x, ((i + 6) % 32) as u32) != (bit(x, ((i + 11) % 32) as u32)
            != bit(x, ((i + 25) % 32) as u32))),
{
    lemma_xor3_bits(rotr_spec(x, 6), rotr_spec(x, 11), rotr_spec(x, 25), i);
    lemma_rotr_bits(x, 6, i);
    lemma_rotr_bits(x, 11, i);
    lemma_rotr_bits(x, 25, i);
}

/// Bit `i` of sigma_0(x) is the exclusive or of bits `i + 7` and `i + 18` of `x`, counted
/// around the word, and of bit `i + 3` where that is within the word.
pub proof fn lemma_gamma0_bits(x: u32, i: u32)
    requires
        i < 32,
    ensures
        bit(gamma0_spec(x), i) == (bit(x, ((i + 7) % 32) as u32) != (bit(x, ((i + 18) % 32) as u32)
            != (i + 3 < 32 && bit(x, (i + 3) as u32)))),
{
    lemma_xor3_bits(rotr_spec(x, 7), rotr_spec(x, 18), x >> 3, i);
    lemma_rotr_bits(x, 7, i);
    lemma_rotr_bits(x, 18, i);
    lemma_shr_bits(x, 3, i);
}

/// Bit `i` of sigma_1(x) is the exclusive or of bits `i + 17` and `i + 19` of `x`, counted
/// around the word, and of bit `i + 10` where that is within the word.
pub proof fn lemma_gamma1_bits(x: u32, i: u32)
    requires
        i < 32,
    ensures
        bit(gamma1_spec(x), i) == (bit(x, ((i + 17) % 32) as u32) != (bit(x, ((i + 19) % 32) as u32)
            != (i + 10 < 32 && bit(x, (i + 10) as u32)))),
{
    lemma_xor3_bits(rotr_spec(x, 17), rotr_spec(x, 19), x >> 10, i);
    lemma_rotr_bits(x, 17, i);
    lemma_rotr_bits(x, 19, i);
    lemma_shr_bits(x, 10, i);
}

/// Addition modulo 2^32 gives the sum, less 2^32 when the sum does not fit in a word.
pub proof fn lemma_add32(x: u32, y: u32)
    ensures
        add32(x, y) == if x + y < 0x1_0000_0000 {
            x + y
        } else {
            x + y - 0x1_0000_0000
        },
{
    reveal(add32);
}

/// The bytes of the `j`-th word of a block, read back from the word, are the block's bytes
/// `4j` .. `4j + 3`, most significant first.
pub proof fn lemma_block_word_bytes(block: Seq<u8>, j: int)
    requires
        0 <= j,
        4 * j + 3 < block.len(),
    ensures
        block_word(block, j) / 0x100_0000 == block[4 * j],
        (block_word(block, j) / 0x1_0000) % 0x100 == block[4 * j + 1],
        (block_word(block, j) / 0x100) % 0x100 == block[4 * j + 2],
        block_word(block, j) % 0x100 == block[4 * j + 3],
{
    let b0 = block[4 * j] as u32;
    let b1 = block[4 * j + 1] as u32;
    let b2 = block[4 * j + 2] as u32;
    let b3 = block[4 * j + 3] as u32;
    assert(b0 * 0x100_0000 + b1 * 0x1_0000 + b2 * 0x100 + b3 < 0x1_0000_0000) by (nonlinear_arith)
        requires
            b0 < 256,
            b1 < 256,
            b2 < 256,
            b3 < 256,
    ;
    let w = (b0 * 0x100_0000 + b1 * 0x1_0000 + b2 * 0x100 + b3) as u32;
    assert(w / 0x100_0000 == b0 && (w / 0x1_0000) % 0x100 == b1 && (w / 0x100) % 0x100 == b2 && w
        % 0x100 == b3) by (bit_vector)
        requires
            b0 < 256,
            b1 < 256,
            b2 < 256,
            b3 < 256,
            w == b0 * 0x100_0000 + b1 * 0x1_0000 + b2 * 0x100 + b3,
    ;
}

/// The message schedule: the first sixteen words are the block's big-endian words, and each
/// later word W_t is sigma_1(W_{t-2}) + W_{t-7} + sigma_0(W_{t-15}) + W_{t-16} modulo 2^32.
pub proof fn lemma_schedule(block: Seq<u8>, t: nat)
    ensures
        t < 16 ==> schedule(block, t) == block_word(block, t as int),
        t >= 16 ==> schedule(block, t) as int == (gamma1_spec(schedule(block, (t - 2) as nat)) as int
            + schedule(block, (t - 7) as nat) as int + gamma0_spec(schedule(block, (t - 15) as nat))
            as int + schedule(block, (t - 16) as nat) as int) % 0x1_0000_0000,
{
    reveal(add32);
    if t < 16 {
        lemma_schedule_first(block, t);
    } else {
        lemma_schedule_step(block, t);
    }
}

/// One round: with T1 = h + Sigma_1(e) + Ch(e, f, g) + K_t + W_t and T2 = Sigma_0(a) +
/// Maj(a, b, c), all additions modulo 2^32 (`add32`), the working variables a .. h become
/// T1 + T2, a, b, c, d + T1, e, f, g.
pub proof fn lemma_round(state: Seq<u32>, block: Seq<u8>, t: nat)
    ensures
        ({
            let v = rounds(state, block, t);
            let n = rounds(state, block, t + 1);
            let t1 = add32(
                add32(add32(add32(v[7], sigma1_spec(v[4])), ch_spec(v[4], v[5], v[6])), K[t as int]),
                schedule(block, t),
            );
            let t2 = add32(sigma0_spec(v[0]), maj_spec(v[0], v[1], v[2]));
            &&& n.len() == 8
            &&& n[0] == add32(t1, t2)
            &&& n[1] == v[0]
            &&& n[2] == v[1]
            &&& n[3] == v[2]
            &&& n[4] == add32(v[3], t1)
            &&& n[5] == v[4]
            &&& n[6] == v[5]
            &&& n[7] == v[6]
        }),
{
    lemma_rounds_step(state, block, t);
}

/// Compression adds the working variables after the 64 rounds to the incoming hash value,
/// word by word, modulo 2^32.
pub proof fn lemma_compress(state: Seq<u32>, block: Seq<u8>)
    ensures
        compress(state, block).len() == 8,
        forall|i: int|
            0 <= i < 8 ==> #[trigger] compress(state, block)[i] as int == (state[i] as int + rounds(
                state,
                block,
                64,
            )[i] as int) % 0x1_0000_0000,
{
    reveal(add32);
}

/// The hash of a message: the hash value starts at H(0), each 64-byte block of the padded
/// message is compressed into it in turn, and the digest is its eight words, big-endian.
pub proof fn lemma_hash_blocks(state: Seq<u32>, data: Seq<u8>, n: nat)
    ensures
        hash_blocks(state, data, 0) == state,
        hash_blocks(state, data, n + 1) == compress(
            hash_blocks(state, data, n),
            data.subrange(64 * n as int, 64 * (n + 1) as int),
        ),
{
    lemma_hash_blocks_zero(state, data);
    lemma_hash_blocks_step(state, data, n);
}

/// The length field read back as a big-endian number is the bit count (below 2^64).
pub proof fn lemma_length_bytes_value(bits: nat)
    requires
        bits < 0x1_0000_0000_0000_0000,
    ensures
        ({
            let l = length_bytes(bits);
            l.len() == 8 && bits == ((((((l[0] as int * 0x100 + l[1] as int) * 0x100 + l[2] as int)
                * 0x100 + l[3] as int) * 0x100 + l[4] as int) * 0x100 + l[5] as int) * 0x100
                + l[6] as int) * 0x100 + l[7] as int
        }),
{
    let x = bits as u64;
    assert(x == (((((((((x / 0x100_0000_0000_0000) % 0x100) * 0x100 + (x / 0x1_0000_0000_0000)
        % 0x100) * 0x100 + (x / 0x100_0000_0000) % 0x100) * 0x100 + (x / 0x1_0000_0000) % 0x100)
        * 0x100 + (x / 0x100_0000) % 0x100) * 0x100 + (x / 0x1_0000) % 0x100) * 0x100 + (x / 0x100)
        % 0x100) * 0x100 + x % 0x100)) by (bit_vector);
}

/// The digest is the eight words of the final hash value, each as four big-endian bytes.
pub proof fn lemma_digest_bytes(state: Seq<u32>, i: int)
    requires
        0 <= i < 8,
        state.len() == 8,
    ensures
        digest_bytes(state).len() == 32,
        state[i] as int == ((digest_bytes(state)[4 * i] as int * 0x100 + digest_bytes(state)[4 * i
            + 1] as int) * 0x100 + digest_bytes(state)[4 * i + 2] as int) * 0x100 + digest_bytes(
            state,
        )[4 * i + 3] as int,
{
    let w = state[i];
    let d = digest_bytes(state);
    assert(d[4 * i] == word_bytes(w)[0]);
    assert(d[4 * i + 1] == word_bytes(w)[1]);
    assert(d[4 * i + 2] == word_bytes(w)[2]);
    assert(d[4 * i + 3] == word_bytes(w)[3]);
    assert(w == ((((w / 0x100_0000) as u8 as u32) * 0x100 + ((w / 0x1_0000) % 0x100) as u8 as u32)
        * 0x100 + ((w / 0x100) % 0x100) as u8 as u32) * 0x100 + (w % 0x100) as u8 as u32)
        by (bit_vector);
}

/// The digest of a message: starting from H(0), each 64-byte block of the padded message is
/// compressed into the hash value in turn, and the digest is the final hash value's eight
/// words as big-endian bytes.
pub proof fn lemma_sha256_digest(msg: Seq<u8>)
    ensures
        sha256_spec(msg) == digest_bytes(hash_blocks(H_INIT@, pad(msg), pad(msg).len() / 64)),
        pad(msg).len() / 64 * 64 == pad(msg).len(),
{
    lemma_pad_whole_blocks(msg);
}

} // verus!
