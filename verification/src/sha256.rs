//! The SHA-256 digest, as the Secure Hash Standard defines it.

use vstd::prelude::*;
use vstd::wrapping::u32_specs::wrapping_add;

verus! {

/// The eight words that the digest is made of.
#[derive(Clone, Copy, Debug, PartialEq, Eq, Structural)]
pub struct Words {
    pub a: u32,
    pub b: u32,
    pub c: u32,
    pub d: u32,
    pub e: u32,
    pub f: u32,
    pub g: u32,
    pub h: u32,
}

/// The words before the first block: the fractional parts of the square roots of the
/// first eight primes.
pub open spec fn initial_words() -> Words {
    Words {
        a: 0x6a09e667,
        b: 0xbb67ae85,
        c: 0x3c6ef372,
        d: 0xa54ff53a,
        e: 0x510e527f,
        f: 0x9b05688c,
        g: 0x1f83d9ab,
        h: 0x5be0cd19,
    }
}

/// The constants of the rounds: the fractional parts of the cube roots of the first
/// sixty-four primes.
pub open spec fn round_constants() -> Seq<u32> {
    seq![
        0x428a2f98, 0x71374491, 0xb5c0fbcf, 0xe9b5dba5, 0x3956c25b, 0x59f111f1, 0x923f82a4,
        0xab1c5ed5, 0xd807aa98, 0x12835b01, 0x243185be, 0x550c7dc3, 0x72be5d74, 0x80deb1fe,
        0x9bdc06a7, 0xc19bf174, 0xe49b69c1, 0xefbe4786, 0x0fc19dc6, 0x240ca1cc, 0x2de92c6f,
        0x4a7484aa, 0x5cb0a9dc, 0x76f988da, 0x983e5152, 0xa831c66d, 0xb00327c8, 0xbf597fc7,
        0xc6e00bf3, 0xd5a79147, 0x06ca6351, 0x14292967, 0x27b70a85, 0x2e1b2138, 0x4d2c6dfc,
        0x53380d13, 0x650a7354, 0x766a0abb, 0x81c2c92e, 0x92722c85, 0xa2bfe8a1, 0xa81a664b,
        0xc24b8b70, 0xc76c51a3, 0xd192e819, 0xd6990624, 0xf40e3585, 0x106aa070, 0x19a4c116,
        0x1e376c08, 0x2748774c, 0x34b0bcb5, 0x391c0cb3, 0x4ed8aa4a, 0x5b9cca4f, 0x682e6ff3,
        0x748f82ee, 0x78a5636f, 0x84c87814, 0x8cc70208, 0x90befffa, 0xa4506ceb, 0xbef9a3f7,
        0xc67178f2,
    ]
}

/// A word rotated to the right.
pub open spec fn rotated(x: u32, n: u32) -> u32 {
    (x >> n) | (x << ((32 - n) as u32))
}

/// The function that the standard calls the first large sigma.
pub open spec fn large_sigma0(x: u32) -> u32 {
    rotated(x, 2) ^ rotated(x, 13) ^ rotated(x, 22)
}

/// The function that the standard calls the second large sigma.
pub open spec fn large_sigma1(x: u32) -> u32 {
    rotated(x, 6) ^ rotated(x, 11) ^ rotated(x, 25)
}

/// The function that the standard calls the first small sigma.
pub open spec fn small_sigma0(x: u32) -> u32 {
    rotated(x, 7) ^ rotated(x, 18) ^ (x >> 3u32)
}

/// The function that the standard calls the second small sigma.
pub open spec fn small_sigma1(x: u32) -> u32 {
    rotated(x, 17) ^ rotated(x, 19) ^ (x >> 10u32)
}

/// The bits of the second word where the first has ones, and else of the third.
pub open spec fn choice(x: u32, y: u32, z: u32) -> u32 {
    (x & y) ^ (!x & z)
}

/// The bits that most of three words have.
pub open spec fn majority(x: u32, y: u32, z: u32) -> u32 {
    (x & y) ^ (x & z) ^ (y & z)
}

/// The word that four bytes make, the first of them the highest.
pub open spec fn word_of(b: Seq<u8>, i: int) -> u32 {
    ((b[i] as u32) << 24u32) | ((b[i + 1] as u32) << 16u32) | ((b[i + 2] as u32) << 8u32) | (
    b[i + 3] as u32)
}

/// The words of the message schedule of a block.
pub open spec fn scheduled(block: Seq<u8>, t: int) -> u32
    decreases t,
{
    if t < 16 {
        word_of(block, 4 * t)
    } else {
        wrapping_add(
            wrapping_add(
                wrapping_add(small_sigma1(scheduled(block, t - 2)), scheduled(block, t - 7)),
                small_sigma0(scheduled(block, t - 15)),
            ),
            scheduled(block, t - 16),
        )
    }
}

/// The words after a round with a constant and a word of the schedule.
pub open spec fn after_round(s: Words, k: u32, w: u32) -> Words {
    let t1 = wrapping_add(
        wrapping_add(
            wrapping_add(wrapping_add(s.h, large_sigma1(s.e)), choice(s.e, s.f, s.g)),
            k,
        ),
        w,
    );
    let t2 = wrapping_add(large_sigma0(s.a), majority(s.a, s.b, s.c));
    Words {
        a: wrapping_add(t1, t2),
        b: s.a,
        c: s.b,
        d: s.c,
        e: wrapping_add(s.d, t1),
        f: s.e,
        g: s.f,
        h: s.g,
    }
}

/// The words after the first rounds of a block.
pub open spec fn after_rounds(s: Words, block: Seq<u8>, n: int) -> Words
    decreases n,
{
    if n <= 0 {
        s
    } else {
        after_round(
            after_rounds(s, block, n - 1),
            round_constants()[n - 1],
            scheduled(block, n - 1),
        )
    }
}

/// The words after a block: those of its rounds are added to those before it.
pub open spec fn after_block(s: Words, block: Seq<u8>) -> Words {
    let t = after_rounds(s, block, 64);
    Words {
        a: wrapping_add(s.a, t.a),
        b: wrapping_add(s.b, t.b),
        c: wrapping_add(s.c, t.c),
        d: wrapping_add(s.d, t.d),
        e: wrapping_add(s.e, t.e),
        f: wrapping_add(s.f, t.f),
        g: wrapping_add(s.g, t.g),
        h: wrapping_add(s.h, t.h),
    }
}

/// The words after the blocks of sixty-four bytes that a text consists of.
pub open spec fn after_blocks(text: Seq<u8>) -> Words
    decreases text.len(),
{
    if text.len() < 64 {
        initial_words()
    } else {
        let n = text.len() - 64;
        after_block(after_blocks(text.take(n)), text.skip(n))
    }
}

/// The bytes of a word, the highest first.
pub open spec fn word_bytes(x: u32) -> Seq<u8> {
    seq![(x >> 24u32) as u8, (x >> 16u32) as u8, (x >> 8u32) as u8, x as u8]
}

/// The bytes of a length in bits, the highest first.
pub open spec fn length_bytes(bits: u64) -> Seq<u8> {
    seq![
        (bits >> 56u64) as u8,
        (bits >> 48u64) as u8,
        (bits >> 40u64) as u8,
        (bits >> 32u64) as u8,
        (bits >> 24u64) as u8,
        (bits >> 16u64) as u8,
        (bits >> 8u64) as u8,
        bits as u8,
    ]
}

/// How many zero bytes stand between a message and its length.
pub open spec fn zeros(len: int) -> int {
    (119 - len % 64) % 64
}

/// What follows a message so that it fills its last block: a one bit, zeros, and the
/// length in bits.
pub open spec fn padding(len: nat) -> Seq<u8> {
    seq![0x80u8] + Seq::new(zeros(len as int) as nat, |i: int| 0u8) + length_bytes(
        ((len * 8) % 0x1_0000_0000_0000_0000) as u64,
    )
}

/// The SHA-256 digest of a message.
pub open spec fn sha256_of(message: Seq<u8>) -> Seq<u8> {
    let s = after_blocks(message + padding(message.len()));
    word_bytes(s.a) + word_bytes(s.b) + word_bytes(s.c) + word_bytes(s.d) + word_bytes(s.e)
        + word_bytes(s.f) + word_bytes(s.g) + word_bytes(s.h)
}

fn rotate(x: u32, n: u32) -> (r: u32)
    requires
        0 < n < 32,
    ensures
        r == rotated(x, n),
{
    (x >> n) | (x << (32 - n))
}

fn big_sigma0(x: u32) -> (r: u32)
    ensures
        r == large_sigma0(x),
{
    rotate(x, 2) ^ rotate(x, 13) ^ rotate(x, 22)
}

fn big_sigma1(x: u32) -> (r: u32)
    ensures
        r == large_sigma1(x),
{
    rotate(x, 6) ^ rotate(x, 11) ^ rotate(x, 25)
}

fn low_sigma0(x: u32) -> (r: u32)
    ensures
        r == small_sigma0(x),
{
    rotate(x, 7) ^ rotate(x, 18) ^ (x >> 3u32)
}

fn low_sigma1(x: u32) -> (r: u32)
    ensures
        r == small_sigma1(x),
{
    rotate(x, 17) ^ rotate(x, 19) ^ (x >> 10u32)
}

fn constants() -> (r: Vec<u32>)
    ensures
        r@ == round_constants(),
{
    let r: Vec<u32> = vec![
        0x428a2f98, 0x71374491, 0xb5c0fbcf, 0xe9b5dba5, 0x3956c25b, 0x59f111f1, 0x923f82a4,
        0xab1c5ed5, 0xd807aa98, 0x12835b01, 0x243185be, 0x550c7dc3, 0x72be5d74, 0x80deb1fe,
        0x9bdc06a7, 0xc19bf174, 0xe49b69c1, 0xefbe4786, 0x0fc19dc6, 0x240ca1cc, 0x2de92c6f,
        0x4a7484aa, 0x5cb0a9dc, 0x76f988da, 0x983e5152, 0xa831c66d, 0xb00327c8, 0xbf597fc7,
        0xc6e00bf3, 0xd5a79147, 0x06ca6351, 0x14292967, 0x27b70a85, 0x2e1b2138, 0x4d2c6dfc,
        0x53380d13, 0x650a7354, 0x766a0abb, 0x81c2c92e, 0x92722c85, 0xa2bfe8a1, 0xa81a664b,
        0xc24b8b70, 0xc76c51a3, 0xd192e819, 0xd6990624, 0xf40e3585, 0x106aa070, 0x19a4c116,
        0x1e376c08, 0x2748774c, 0x34b0bcb5, 0x391c0cb3, 0x4ed8aa4a, 0x5b9cca4f, 0x682e6ff3,
        0x748f82ee, 0x78a5636f, 0x84c87814, 0x8cc70208, 0x90befffa, 0xa4506ceb, 0xbef9a3f7,
        0xc67178f2,
    ];
    assert(r@ =~= round_constants());
    r
}

/// The message schedule of the block that starts at a place.
fn schedule(text: &[u8], at: usize) -> (r: Vec<u32>)
    requires
        at + 64 <= text@.len(),
    ensures
        r@.len() == 64,
        forall|t: int|
            0 <= t < 64 ==> #[trigger] r@[t] == scheduled(text@.subrange(at as int, at + 64), t),
{
    let ghost block = text@.subrange(at as int, at + 64);
    let len: usize = text.len();
    let mut r: Vec<u32> = Vec::new();
    while r.len() < 16
        invariant
            at + 64 <= text@.len() == len,
            block == text@.subrange(at as int, at + 64),
            r@.len() <= 16,
            forall|t: int| 0 <= t < r@.len() ==> #[trigger] r@[t] == scheduled(block, t),
        decreases 16 - r@.len(),
    {
        let i: usize = at + 4 * r.len();
        let w: u32 = ((text[i] as u32) << 24u32) | ((text[i + 1] as u32) << 16u32) | ((text[i
            + 2] as u32) << 8u32) | (text[i + 3] as u32);
        assert(w == word_of(block, 4 * r@.len() as int));
        r.push(w);
    }
    while r.len() < 64
        invariant
            16 <= r@.len() <= 64,
            forall|t: int| 0 <= t < r@.len() ==> #[trigger] r@[t] == scheduled(block, t),
        decreases 64 - r@.len(),
    {
        let t: usize = r.len();
        let w: u32 = low_sigma1(r[t - 2]).wrapping_add(r[t - 7]).wrapping_add(
            low_sigma0(r[t - 15]),
        ).wrapping_add(r[t - 16]);
        assert(w == scheduled(block, t as int));
        r.push(w);
    }
    r
}

/// A round with a constant and a word of the schedule.
fn round(s: Words, k: u32, w: u32) -> (r: Words)
    ensures
        r == after_round(s, k, w),
{
    let t1: u32 = s.h.wrapping_add(big_sigma1(s.e)).wrapping_add(
        (s.e & s.f) ^ (!s.e & s.g),
    ).wrapping_add(k).wrapping_add(w);
    let t2: u32 = big_sigma0(s.a).wrapping_add((s.a & s.b) ^ (s.a & s.c) ^ (s.b & s.c));
    Words {
        a: t1.wrapping_add(t2),
        b: s.a,
        c: s.b,
        d: s.c,
        e: s.d.wrapping_add(t1),
        f: s.e,
        g: s.f,
        h: s.g,
    }
}

/// Takes in the block that starts at a place.
fn take_block(s: Words, text: &[u8], at: usize, constants: &Vec<u32>) -> (r: Words)
    requires
        at + 64 <= text@.len(),
        constants@ == round_constants(),
    ensures
        r == after_block(s, text@.subrange(at as int, at + 64)),
{
    let ghost block = text@.subrange(at as int, at + 64);
    let words = schedule(text, at);
    let mut t: Words = s;
    let mut n: usize = 0;
    while n < 64
        invariant
            n <= 64,
            constants@ == round_constants(),
            words@.len() == 64,
            forall|i: int| 0 <= i < 64 ==> #[trigger] words@[i] == scheduled(block, i),
            t == after_rounds(s, block, n as int),
        decreases 64 - n,
    {
        t = round(t, constants[n], words[n]);
        n += 1;
    }
    Words {
        a: s.a.wrapping_add(t.a),
        b: s.b.wrapping_add(t.b),
        c: s.c.wrapping_add(t.c),
        d: s.d.wrapping_add(t.d),
        e: s.e.wrapping_add(t.e),
        f: s.f.wrapping_add(t.f),
        g: s.g.wrapping_add(t.g),
        h: s.h.wrapping_add(t.h),
    }
}

/// Takes in the first blocks of a part of a text that follows what was taken in.
fn take_blocks(
    s: Words,
    part: &[u8],
    blocks: usize,
    before: Ghost<Seq<u8>>,
    constants: &Vec<u32>,
) -> (r: Words)
    requires
        s == after_blocks(before@),
        before@.len() % 64 == 0,
        blocks * 64 <= part@.len(),
        constants@ == round_constants(),
    ensures
        r == after_blocks(before@ + part@.take(blocks * 64)),
{
    let len: usize = part.len();
    let mut r: Words = s;
    let mut i: usize = 0;
    assert(before@ + part@.take(0) =~= before@);
    while i < blocks
        invariant
            i <= blocks,
            before@.len() % 64 == 0,
            blocks * 64 <= part@.len() == len,
            constants@ == round_constants(),
            r == after_blocks(before@ + part@.take(i * 64)),
        decreases blocks - i,
    {
        proof {
            let done = before@ + part@.take(i * 64);
            let more = before@ + part@.take((i + 1) * 64);
            assert(more.take(more.len() - 64) =~= done);
            assert(more.skip(more.len() - 64) =~= part@.subrange(i * 64, i * 64 + 64));
        }
        r = take_block(r, part, i * 64, constants);
        i += 1;
    }
    r
}

fn push_word(v: &mut Vec<u8>, x: u32)
    ensures
        final(v)@ == old(v)@ + word_bytes(x),
{
    v.push((x >> 24u32) as u8);
    v.push((x >> 16u32) as u8);
    v.push((x >> 8u32) as u8);
    v.push(x as u8);
    assert(v@ =~= old(v)@ + word_bytes(x));
}

/// The end of a message that fills no block, with the padding.
fn last_blocks(message: &[u8]) -> (r: Vec<u8>)
    ensures
        r@ == message@.skip(message@.len() - message@.len() % 64) + padding(message@.len()),
        r@.len() % 64 == 0,
        r@.len() <= 128,
{
    let len: usize = message.len();
    let ghost rest = message@.skip(len - len % 64);
    let mut r: Vec<u8> = Vec::new();
    let mut i: usize = len - len % 64;
    while i < len
        invariant
            len == message@.len(),
            len - len % 64 <= i <= len,
            rest == message@.skip(len - len % 64),
            r@ == rest.take(i - (len - len % 64)),
        decreases len - i,
    {
        r.push(message[i]);
        i += 1;
        assert(r@ =~= rest.take(i - (len - len % 64)));
    }
    assert(r@ =~= rest);
    r.push(0x80);
    let n: usize = (119 - len % 64) % 64;
    let mut j: usize = 0;
    assert(rest + seq![0x80u8] + Seq::new(0, |i: int| 0u8) =~= r@);
    while j < n
        invariant
            j <= n,
            r@ == rest + seq![0x80u8] + Seq::new(j as nat, |i: int| 0u8),
        decreases n - j,
    {
        r.push(0);
        j += 1;
        assert(r@ =~= rest + seq![0x80u8] + Seq::new(j as nat, |i: int| 0u8));
    }
    let bits: u64 = (len as u64).wrapping_mul(8);
    r.push((bits >> 56u64) as u8);
    r.push((bits >> 48u64) as u8);
    r.push((bits >> 40u64) as u8);
    r.push((bits >> 32u64) as u8);
    r.push((bits >> 24u64) as u8);
    r.push((bits >> 16u64) as u8);
    r.push((bits >> 8u64) as u8);
    r.push(bits as u8);
    assert(r@ =~= rest + padding(message@.len()));
    r
}

/// The SHA-256 digest of a message.
pub fn sha256(message: &[u8]) -> (r: Vec<u8>)
    ensures
        r@ == sha256_of(message@),
        r@.len() == 32,
{
    let constants = constants();
    let s = Words {
        a: 0x6a09e667,
        b: 0xbb67ae85,
        c: 0x3c6ef372,
        d: 0xa54ff53a,
        e: 0x510e527f,
        f: 0x9b05688c,
        g: 0x1f83d9ab,
        h: 0x5be0cd19,
    };
    let ghost none = Seq::<u8>::empty();
    let full: usize = message.len() / 64;
    let s = take_blocks(s, message, full, Ghost(none), &constants);
    let ghost front = message@.take(full * 64);
    assert(none + front =~= front);
    let rest = last_blocks(message);
    let s = take_blocks(s, rest.as_slice(), rest.len() / 64, Ghost(front), &constants);
    proof {
        assert(rest@.take(rest@.len() as int) =~= rest@);
        assert(front + rest@ =~= message@ + padding(message@.len()));
    }
    let mut r: Vec<u8> = Vec::new();
    push_word(&mut r, s.a);
    push_word(&mut r, s.b);
    push_word(&mut r, s.c);
    push_word(&mut r, s.d);
    push_word(&mut r, s.e);
    push_word(&mut r, s.f);
    push_word(&mut r, s.g);
    push_word(&mut r, s.h);
    assert(r@ =~= sha256_of(message@));
    r
}

/// What is hashed is the message, then a one bit, then zeros, and at the end the length of
/// the message in bits. It consists of whole blocks, and has no zero too many.
pub proof fn law_padding(len: nat, i: int)
    requires
        len * 8 < 0x1_0000_0000_0000_0000,
    ensures
        (len + padding(len).len()) % 64 == 0,
        9 <= padding(len).len() <= 72,
        padding(len)[0] == 0x80,
        0 < i < padding(len).len() - 8 ==> padding(len)[i] == 0,
        padding(len).skip(padding(len).len() - 8) == length_bytes((len * 8) as u64),
{
    let p = padding(len);
    let z = zeros(len as int);
    let bits = ((len * 8) % 0x1_0000_0000_0000_0000) as u64;
    assert(bits == (len * 8) as u64);
    assert(0 <= z < 64);
    assert((len + z + 9) % 64 == 0);
    assert(length_bytes(bits).len() == 8);
    assert(p.len() == z + 9);
    assert(p.skip(p.len() - 8) =~= length_bytes(bits));
}

/// The eight bytes of a length make it up, the highest first.
pub proof fn law_length_bytes(bits: u64)
    ensures
        length_bytes(bits).len() == 8,
        bits == length_bytes(bits)[0] * 0x100_0000_0000_0000 + length_bytes(bits)[1]
            * 0x1_0000_0000_0000 + length_bytes(bits)[2] * 0x100_0000_0000 + length_bytes(bits)[3]
            * 0x1_0000_0000 + length_bytes(bits)[4] * 0x100_0000 + length_bytes(bits)[5] * 0x1_0000
            + length_bytes(bits)[6] * 0x100 + length_bytes(bits)[7],
{
    assert(bits == ((bits >> 56u64) as u8) * 0x100_0000_0000_0000 + ((bits >> 48u64) as u8)
        * 0x1_0000_0000_0000 + ((bits >> 40u64) as u8) * 0x100_0000_0000 + ((bits >> 32u64) as u8)
        * 0x1_0000_0000 + ((bits >> 24u64) as u8) * 0x100_0000 + ((bits >> 16u64) as u8) * 0x1_0000
        + ((bits >> 8u64) as u8) * 0x100 + (bits as u8)) by (bit_vector);
}

} // verus!
