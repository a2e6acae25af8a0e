//! The checksum of payload chunks and of whole streams.
use super::frame::Frame;
use crate::ipc::wire::{get, le_limit, le_value, lemma_le_of_value};
use vstd::arithmetic::div_mod::{
    lemma_fundamental_div_mod, lemma_mod_bound, lemma_mod_multiples_vanish,
};
use vstd::prelude::*;

verus! {

/// What is left of a number in a 64-bit word.
#[verifier::opaque]
pub open spec fn wrapped(value: int) -> u64 {
    (value % 0x1_0000_0000_0000_0000) as u64
}

/// What the four lanes start from.
pub open spec fn seed(lane: int) -> u64 {
    if lane == 0 {
        0xCBF2_9CE4_8422_2325
    } else if lane == 1 {
        0x9E37_79B9_7F4A_7C15
    } else if lane == 2 {
        0xD1B5_4A32_D192_ED03
    } else {
        0xA076_1D64_78BD_642F
    }
}

/// The word at `at`, read up to the end of the payload.
pub open spec fn word_at(payload: Seq<u8>, at: int) -> u64 {
    le_value(
        payload.subrange(
            at,
            if at + 8 <= payload.len() {
                at + 8
            } else {
                payload.len() as int
            },
        ),
    ) as u64
}

/// A word, mixed with its upper bits.
pub open spec fn mixed(word: u64, shift: u64) -> u64 {
    word ^ (word >> shift)
}

/// The sum of the mixed words of one lane over the first `blocks` blocks.
pub open spec fn lane_total(payload: Seq<u8>, lane: int, blocks: int) -> int
    decreases blocks,
{
    if blocks <= 0 {
        0
    } else {
        lane_total(payload, lane, blocks - 1) + mixed(
            word_at(payload, 32 * (blocks - 1) + 8 * lane),
            (lane + 1) as u64,
        )
    }
}

/// What a lane comes to.
pub open spec fn lane_sum(payload: Seq<u8>, lane: int, blocks: int) -> u64 {
    wrapped(seed(lane) + lane_total(payload, lane, blocks))
}

/// The sum of the words from `at` on.
pub open spec fn words_total(payload: Seq<u8>, at: int) -> int
    decreases payload.len() - at,
{
    if at < 0 || at >= payload.len() {
        0
    } else if payload.len() - at <= 8 {
        word_at(payload, at) as int
    } else {
        word_at(payload, at) + words_total(payload, at + 8)
    }
}

/// `word`, rotated to the left.
pub open spec fn rotated(word: u64, by: u64) -> u64 {
    (word << by) | (word >> ((64 - by) as u64))
}

/// `a * b`, wrapping.
pub open spec fn scaled(a: u64, b: u64) -> u64 {
    wrapped(a * b)
}

/// The last mixing of a checksum.
pub open spec fn finished(sum: u64) -> u64 {
    let s1 = scaled(mixed(sum, 30), 0xBF58_476D_1CE4_E5B9);
    let s2 = scaled(mixed(s1, 27), 0x94D0_49BB_1331_11EB);
    mixed(s2, 31)
}

/// How four lanes and a tail become one word.
pub open spec fn finalized(a: u64, b: u64, c: u64, d: u64, tail: u64) -> u64 {
    finished(a ^ rotated(b, 13) ^ rotated(c, 29) ^ rotated(d, 47) ^ tail)
}

/// The checksum of a payload: four lanes over its blocks of 32 bytes, and the sum of
/// the words of what is left.
pub open spec fn checksum_of(payload: Seq<u8>) -> u64 {
    let blocks = payload.len() as int / 32;
    finalized(
        lane_sum(payload, 0, blocks),
        lane_sum(payload, 1, blocks),
        lane_sum(payload, 2, blocks),
        lane_sum(payload, 3, blocks),
        wrapped(words_total(payload, blocks * 32)),
    )
}

/// `word`, rotated to the left.
fn rotate(word: u64, by: u64) -> (result: u64)
    requires
        0 < by < 64,
    ensures
        result == rotated(word, by),
{
    (word << by) | (word >> (64 - by))
}

/// How four lanes and a tail become one word.
pub fn finalize_checksum(sums: [u64; 4], tail: u64) -> (sum: u64)
    ensures
        sum == finalized(sums@[0], sums@[1], sums@[2], sums@[3], tail),
{
    let mut sum: u64 = sums[0] ^ rotate(sums[1], 13) ^ rotate(sums[2], 29) ^ rotate(sums[3], 47)
        ^ tail;
    sum = sum ^ (sum >> 30);
    sum = times(sum, 0xBF58_476D_1CE4_E5B9);
    sum = sum ^ (sum >> 27);
    sum = times(sum, 0x94D0_49BB_1331_11EB);
    sum ^ (sum >> 31)
}

/// Numbers that differ by whole words leave the same.
proof fn lemma_whole_words(a: int, b: int, words: int)
    requires
        a == b + words * 0x1_0000_0000_0000_0000,
    ensures
        wrapped(a) == wrapped(b),
{
    reveal(wrapped);
    lemma_mod_multiples_vanish(words, b, 0x1_0000_0000_0000_0000);
}

/// What is left differs by whole words.
proof fn lemma_left(a: int) -> (words: int)
    ensures
        wrapped(a) == a - words * 0x1_0000_0000_0000_0000,
{
    reveal(wrapped);
    lemma_fundamental_div_mod(a, 0x1_0000_0000_0000_0000);
    lemma_mod_bound(a, 0x1_0000_0000_0000_0000);
    a / 0x1_0000_0000_0000_0000
}

/// Adding a word modulo the word size.
proof fn lemma_wrapping_step(total: int, word: int)
    ensures
        wrapped(wrapped(total) + word) == wrapped(total + word),
{
    let q = lemma_left(total);
    lemma_whole_words(total + word, wrapped(total) + word, q);
}

/// Adding four sums modulo the word size.
proof fn lemma_wrapping_sum(a: int, b: int, c: int, d: int)
    ensures
        wrapped(wrapped(a) + wrapped(b) + wrapped(c) + wrapped(d)) == wrapped(a + b + c + d),
        wrapped(wrapped(a + b) + wrapped(c + d)) == wrapped(a + b + c + d),
{
    let p = lemma_left(a);
    let q = lemma_left(b);
    let r = lemma_left(c);
    let t = lemma_left(d);
    lemma_whole_words(
        a + b + c + d,
        wrapped(a) + wrapped(b) + wrapped(c) + wrapped(d),
        p + q + r + t,
    );
    let u = lemma_left(a + b);
    let v = lemma_left(c + d);
    lemma_whole_words(a + b + c + d, wrapped(a + b) + wrapped(c + d), u + v);
}

/// A word is what is left of it.
proof fn lemma_word(word: u64)
    ensures
        wrapped(word as int) == word,
{
    reveal(wrapped);
}

/// Adding two words, wrapping.
fn plus(a: u64, b: u64) -> (sum: u64)
    ensures
        sum == wrapped(a + b),
{
    reveal(wrapped);
    a.wrapping_add(b)
}

/// Multiplying two words, wrapping.
fn times(a: u64, b: u64) -> (product: u64)
    ensures
        product == scaled(a, b),
{
    reveal(wrapped);
    a.wrapping_mul(b)
}

/// The word at `at`, read up to the end of the payload.
fn word(payload: &[u8], at: usize) -> (word: u64)
    requires
        at < payload@.len(),
    ensures
        word == word_at(payload@, at as int),
{
    let left: usize = payload.len() - at;
    if left >= 8 {
        get(payload, at, 8)
    } else {
        get(payload, at, left)
    }
}

/// The sum of the words of a payload from `start` on.
fn tail_sum(payload: &[u8], start: usize) -> (tail: u64)
    requires
        start <= payload@.len(),
    ensures
        tail == wrapped(words_total(payload@, start as int)),
{
    let len: usize = payload.len();
    let mut tail: u64 = 0;
    let mut at: usize = start;
    assert(0 + words_total(payload@, start as int) == words_total(payload@, start as int));
    while at < len
        invariant
            len == payload@.len(),
            start <= at <= len,
            wrapped(words_total(payload@, start as int)) == wrapped(
                tail + words_total(payload@, at as int),
            ),
        decreases len - at,
    {
        let w: u64 = word(payload, at);
        proof {
            let rest = if len - at <= 8 {
                0
            } else {
                words_total(payload@, at + 8)
            };
            lemma_wrapping_step(tail + w, rest);
            assert(wrapped(tail + w + rest) == wrapped(wrapped(tail + w) + rest));
            assert(words_total(payload@, at as int) == w + rest);
        }
        tail = plus(tail, w);
        if len - at <= 8 {
            at = len;
        } else {
            at = at + 8;
        }
    }
    proof {
        lemma_word(tail);
    }
    tail
}

/// The four mixed words of a block.
fn block(payload: &[u8], index: usize) -> (words: [u64; 4])
    requires
        32 * (index + 1) <= payload@.len(),
    ensures
        forall|lane: int|
            0 <= lane < 4 ==> #[trigger] words@[lane] == mixed(
                word_at(payload@, 32 * index + 8 * lane),
                (lane + 1) as u64,
            ),
{
    let len: usize = payload.len();
    let at: usize = index * 32;
    let w0: u64 = word(payload, at);
    let w1: u64 = word(payload, at + 8);
    let w2: u64 = word(payload, at + 16);
    let w3: u64 = word(payload, at + 24);
    let words: [u64; 4] = [w0 ^ (w0 >> 1), w1 ^ (w1 >> 2), w2 ^ (w2 >> 3), w3 ^ (w3 >> 4)];
    words
}

/// Add the words of a block to the lanes.
fn added(sums: [u64; 4], words: [u64; 4]) -> (next: [u64; 4])
    ensures
        forall|lane: int|
            0 <= lane < 4 ==> #[trigger] next@[lane] == wrapped(sums@[lane] + words@[lane]),
{
    [
        plus(sums[0], words[0]),
        plus(sums[1], words[1]),
        plus(sums[2], words[2]),
        plus(sums[3], words[3]),
    ]
}

/// The checksum of a payload, one block at a time.
pub fn checksum_scalar(payload: &[u8]) -> (sum: u64)
    ensures
        sum == checksum_of(payload@),
{
    let len: usize = payload.len();
    let blocks: usize = len / 32;
    let mut sums: [u64; 4] = [
        0xCBF2_9CE4_8422_2325,
        0x9E37_79B9_7F4A_7C15,
        0xD1B5_4A32_D192_ED03,
        0xA076_1D64_78BD_642F,
    ];
    let mut k: usize = 0;
    assert forall|lane: int| 0 <= lane < 4 implies #[trigger] sums@[lane] == lane_sum(
        payload@,
        lane,
        0,
    ) by {
        lemma_word(sums@[lane]);
    }
    while k < blocks
        invariant
            k <= blocks,
            len == payload@.len(),
            blocks == len / 32,
            forall|lane: int|
                0 <= lane < 4 ==> #[trigger] sums@[lane] == lane_sum(payload@, lane, k as int),
        decreases blocks - k,
    {
        let words: [u64; 4] = block(payload, k);
        let ghost before = sums@;
        sums = added(sums, words);
        proof {
            assert forall|lane: int| 0 <= lane < 4 implies #[trigger] sums@[lane] == lane_sum(
                payload@,
                lane,
                k + 1,
            ) by {
                lemma_wrapping_step(
                    seed(lane) + lane_total(payload@, lane, k as int),
                    words@[lane] as int,
                );
                assert(before[lane] == lane_sum(payload@, lane, k as int));
            }
        }
        k = k + 1;
    }
    finalize_checksum(sums, tail_sum(payload, blocks * 32))
}

/// The checksum of a payload, four blocks at a time: every fourth block has lanes of its
/// own, which are added up in the end.
pub fn checksum_wide(payload: &[u8]) -> (sum: u64)
    ensures
        sum == checksum_of(payload@),
{
    let len: usize = payload.len();
    let blocks: usize = len / 32;
    let mut first: [u64; 4] = [
        0xCBF2_9CE4_8422_2325,
        0x9E37_79B9_7F4A_7C15,
        0xD1B5_4A32_D192_ED03,
        0xA076_1D64_78BD_642F,
    ];
    let mut second: [u64; 4] = [0, 0, 0, 0];
    let mut third: [u64; 4] = [0, 0, 0, 0];
    let mut fourth: [u64; 4] = [0, 0, 0, 0];
    let mut k: usize = 0;
    while blocks - k >= 4
        invariant
            k <= blocks,
            len == payload@.len(),
            blocks == len / 32,
            forall|lane: int|
                0 <= lane < 4 ==> wrapped(
                    #[trigger] first@[lane] + second@[lane] + third@[lane] + fourth@[lane],
                ) == lane_sum(payload@, lane, k as int),
        decreases blocks - k,
    {
        let w0: [u64; 4] = block(payload, k);
        let w1: [u64; 4] = block(payload, k + 1);
        let w2: [u64; 4] = block(payload, k + 2);
        let w3: [u64; 4] = block(payload, k + 3);
        let ghost s0 = first@;
        let ghost s1 = second@;
        let ghost s2 = third@;
        let ghost s3 = fourth@;
        first = added(first, w0);
        second = added(second, w1);
        third = added(third, w2);
        fourth = added(fourth, w3);
        proof {
            assert forall|lane: int| 0 <= lane < 4 implies wrapped(
                #[trigger] first@[lane] + second@[lane] + third@[lane] + fourth@[lane],
            ) == lane_sum(payload@, lane, k + 4) by {
                reveal_with_fuel(lane_total, 5);
                let total = s0[lane] + s1[lane] + s2[lane] + s3[lane];
                let more = w0@[lane] + w1@[lane] + w2@[lane] + w3@[lane];
                assert(lane_total(payload@, lane, k + 4) == lane_total(payload@, lane, k as int)
                    + more);
                lemma_wrapping_sum(
                    s0[lane] + w0@[lane],
                    s1[lane] + w1@[lane],
                    s2[lane] + w2@[lane],
                    s3[lane] + w3@[lane],
                );
                lemma_wrapping_step(total, more);
                lemma_wrapping_step(seed(lane) + lane_total(payload@, lane, k as int), more);
            }
        }
        k = k + 4;
    }
    while k < blocks
        invariant
            k <= blocks,
            len == payload@.len(),
            blocks == len / 32,
            forall|lane: int|
                0 <= lane < 4 ==> wrapped(
                    #[trigger] first@[lane] + second@[lane] + third@[lane] + fourth@[lane],
                ) == lane_sum(payload@, lane, k as int),
        decreases blocks - k,
    {
        let words: [u64; 4] = block(payload, k);
        let ghost s0 = first@;
        first = added(first, words);
        proof {
            assert forall|lane: int| 0 <= lane < 4 implies wrapped(
                #[trigger] first@[lane] + second@[lane] + third@[lane] + fourth@[lane],
            ) == lane_sum(payload@, lane, k + 1) by {
                let rest = second@[lane] + third@[lane] + fourth@[lane];
                lemma_wrapping_step(s0[lane] + words@[lane], rest);
                lemma_wrapping_step(s0[lane] + rest, words@[lane] as int);
                assert(s0[lane] + words@[lane] + rest == s0[lane] + rest + words@[lane]);
                lemma_wrapping_step(
                    seed(lane) + lane_total(payload@, lane, k as int),
                    words@[lane] as int,
                );
            }
        }
        k = k + 1;
    }
    let lower: [u64; 4] = added(first, second);
    let upper: [u64; 4] = added(third, fourth);
    let sums: [u64; 4] = added(lower, upper);
    assert forall|lane: int| 0 <= lane < 4 implies #[trigger] sums@[lane] == lane_sum(
        payload@,
        lane,
        blocks as int,
    ) by {
        assert(wrapped(first@[lane] + second@[lane] + third@[lane] + fourth@[lane]) == lane_sum(
            payload@,
            lane,
            blocks as int,
        ));
        assert(lower@[lane] == wrapped(first@[lane] + second@[lane]));
        assert(upper@[lane] == wrapped(third@[lane] + fourth@[lane]));
        lemma_wrapping_sum(
            first@[lane] as int,
            second@[lane] as int,
            third@[lane] as int,
            fourth@[lane] as int,
        );
    }
    finalize_checksum(sums, tail_sum(payload, blocks * 32))
}

/// The checksum of a payload.
pub fn checksum(payload: &[u8]) -> (sum: u64)
    ensures
        sum == checksum_of(payload@),
{
    if payload.len() >= 256 {
        checksum_wide(payload)
    } else {
        checksum_scalar(payload)
    }
}

/// The checksum of a stream after one more frame.
pub open spec fn folded(aggregate: u64, frame: Frame) -> u64 {
    rotated(aggregate, 7) ^ frame.checksum ^ scaled(frame.offset, 0x9E37_79B9_7F4A_7C15)
}

/// The checksum of a stream after one more frame.
pub fn fold_checksum(aggregate: u64, frame: Frame) -> (sum: u64)
    ensures
        sum == folded(aggregate, frame),
{
    rotate(aggregate, 7) ^ frame.checksum ^ times(frame.offset, 0x9E37_79B9_7F4A_7C15)
}

/// Shifting a word by `shift` and mixing it in can be undone.
proof fn lemma_mixed_is_faithful(x: u64, y: u64, shift: u64)
    requires
        shift == 1 || shift == 2 || shift == 3 || shift == 4 || shift == 27 || shift == 30 || shift
            == 31,
        mixed(x, shift) == mixed(y, shift),
    ensures
        x == y,
{
    let d = x ^ y;
    assert((x ^ (x >> shift)) == (y ^ (y >> shift)) ==> ((x ^ y) ^ ((x ^ y) >> shift)) == 0)
        by (bit_vector);
    assert(d ^ (d >> shift) == 0 && (shift == 1 || shift == 2 || shift == 3 || shift == 4 || shift
        == 27 || shift == 30 || shift == 31) ==> d == 0) by (bit_vector);
    assert((x ^ y) == 0 ==> x == y) by (bit_vector);
}

/// Multiplying by a number that has an inverse can be undone.
proof fn lemma_scaled_is_faithful(x: u64, y: u64, factor: u64, inverse: u64, words: int)
    requires
        factor * inverse == 1 + words * 0x1_0000_0000_0000_0000,
        scaled(x, factor) == scaled(y, factor),
    ensures
        x == y,
{
    lemma_unscaled(x, factor, inverse, words);
    lemma_unscaled(y, factor, inverse, words);
}

proof fn lemma_unscaled(x: u64, factor: u64, inverse: u64, words: int)
    requires
        factor * inverse == 1 + words * 0x1_0000_0000_0000_0000,
    ensures
        wrapped(scaled(x, factor) * inverse) == x,
{
    let q = lemma_left(x * factor);
    let a = scaled(x, factor) * inverse;
    assert(scaled(x, factor) as int == x * factor - q * 0x1_0000_0000_0000_0000);
    assert(a == x + (x * words - q * inverse) * 0x1_0000_0000_0000_0000) by (nonlinear_arith)
        requires
            a == scaled(x, factor) as int * inverse as int,
            scaled(x, factor) as int == x * factor - q * 0x1_0000_0000_0000_0000,
            factor * inverse == 1 + words * 0x1_0000_0000_0000_0000,
    ;
    lemma_whole_words(a, x as int, x * words - q * inverse);
    lemma_word(x);
}

/// The last mixing of a checksum can be undone.
proof fn lemma_finish_is_faithful(x: u64, y: u64)
    requires
        finished(x) == finished(y),
    ensures
        x == y,
{
    let x1 = scaled(mixed(x, 30), 0xBF58_476D_1CE4_E5B9);
    let y1 = scaled(mixed(y, 30), 0xBF58_476D_1CE4_E5B9);
    let x2 = scaled(mixed(x1, 27), 0x94D0_49BB_1331_11EB);
    let y2 = scaled(mixed(y1, 27), 0x94D0_49BB_1331_11EB);
    lemma_mixed_is_faithful(x2, y2, 31);
    assert(0x94D0_49BB_1331_11EBu64 * 0x3196_42B2_D24D_8EC3u64 == 1 + 2077064247507883091 * 0x1_0000_0000_0000_0000);
    lemma_scaled_is_faithful(
        mixed(x1, 27),
        mixed(y1, 27),
        0x94D0_49BB_1331_11EB,
        0x3196_42B2_D24D_8EC3,
        2077064247507883091,
    );
    lemma_mixed_is_faithful(x1, y1, 27);
    assert(0xBF58_476D_1CE4_E5B9u64 * 0x96DE_1B17_3F11_9089u64 == 1 + 8125545580553827436 * 0x1_0000_0000_0000_0000);
    lemma_scaled_is_faithful(
        mixed(x, 30),
        mixed(y, 30),
        0xBF58_476D_1CE4_E5B9,
        0x96DE_1B17_3F11_9089,
        8125545580553827436,
    );
    lemma_mixed_is_faithful(x, y, 30);
}

/// A checksum depends on each of its five parts alone.
proof fn lemma_each_part_counts(
    a: u64,
    b: u64,
    c: u64,
    d: u64,
    t: u64,
    v: u64,
    w: u64,
    x: u64,
    y: u64,
    u: u64,
)
    requires
        finalized(a, b, c, d, t) == finalized(v, w, x, y, u),
        (b == w && c == x && d == y && t == u) || (a == v && c == x && d == y && t == u) || (a == v
            && b == w && d == y && t == u) || (a == v && b == w && c == x && t == u) || (a == v && b
            == w && c == x && d == y),
    ensures
        a == v && b == w && c == x && d == y && t == u,
{
    let p = a ^ rotated(b, 13) ^ rotated(c, 29) ^ rotated(d, 47) ^ t;
    let q = v ^ rotated(w, 13) ^ rotated(x, 29) ^ rotated(y, 47) ^ u;
    assert(finalized(a, b, c, d, t) == finished(p));
    assert(finalized(v, w, x, y, u) == finished(q));
    lemma_finish_is_faithful(p, q);
    let rb = rotated(b, 13);
    let rw = rotated(w, 13);
    let rc = rotated(c, 29);
    let rx = rotated(x, 29);
    let rd = rotated(d, 47);
    let ry = rotated(y, 47);
    assert((a ^ rb ^ rc ^ rd ^ t) == (v ^ rw ^ rx ^ ry ^ u) ==> {
        &&& (rb == rw && rc == rx && rd == ry && t == u ==> a == v)
        &&& (a == v && rc == rx && rd == ry && t == u ==> rb == rw)
        &&& (a == v && rb == rw && rd == ry && t == u ==> rc == rx)
        &&& (a == v && rb == rw && rc == rx && t == u ==> rd == ry)
        &&& (a == v && rb == rw && rc == rx && rd == ry ==> t == u)
    }) by (bit_vector);
    assert(((b << 13) | (b >> 51)) == ((w << 13) | (w >> 51)) ==> b == w) by (bit_vector);
    assert(((c << 29) | (c >> 35)) == ((x << 29) | (x >> 35)) ==> c == x) by (bit_vector);
    assert(((d << 47) | (d >> 17)) == ((y << 47) | (y >> 17)) ==> d == y) by (bit_vector);
}

/// Sums of words that differ by less than a whole word, and come to the same, do not differ.
proof fn lemma_small_difference(a: int, b: int)
    requires
        wrapped(a) == wrapped(b),
        -0x1_0000_0000_0000_0000 < a - b < 0x1_0000_0000_0000_0000,
    ensures
        a == b,
{
    let p = lemma_left(a);
    let q = lemma_left(b);
    assert(a - b == (p - q) * 0x1_0000_0000_0000_0000);
}

/// Whether two payloads differ in word `k` at most.
pub open spec fn differ_in_word(p: Seq<u8>, q: Seq<u8>, k: int) -> bool {
    &&& p.len() == q.len()
    &&& forall|i: int|
        0 <= i < p.len() && !(8 * k <= i < 8 * k + 8) ==> #[trigger] p[i] == q[i]
}

/// The other words are the same.
proof fn lemma_other_words(p: Seq<u8>, q: Seq<u8>, k: int, j: int)
    requires
        differ_in_word(p, q, k),
        0 <= j,
        8 * j < p.len(),
        j != k,
    ensures
        word_at(p, 8 * j) == word_at(q, 8 * j),
{
    let end = if 8 * j + 8 <= p.len() {
        8 * j + 8
    } else {
        p.len() as int
    };
    assert(p.subrange(8 * j, end) =~= q.subrange(8 * j, end));
}

/// Payloads whose words are the same in every place are the same.
proof fn lemma_word_is_faithful(p: Seq<u8>, q: Seq<u8>, k: int)
    requires
        differ_in_word(p, q, k),
        0 <= k,
        8 * k < p.len(),
        word_at(p, 8 * k) == word_at(q, 8 * k),
    ensures
        p == q,
{
    let end = if 8 * k + 8 <= p.len() {
        8 * k + 8
    } else {
        p.len() as int
    };
    let x = p.subrange(8 * k, end);
    let y = q.subrange(8 * k, end);
    lemma_le_of_value(x);
    lemma_le_of_value(y);
    reveal_with_fuel(le_limit, 9);
    assert(le_limit(x.len()) <= 0x1_0000_0000_0000_0000);
    assert(x == y);
    assert forall|i: int| 0 <= i < p.len() implies p[i] == q[i] by {
        if 8 * k <= i < 8 * k + 8 {
            assert(p[i] == x[i - 8 * k] && q[i] == y[i - 8 * k]);
        }
    }
    assert(p =~= q);
}

/// How the total of a lane changes with one word.
proof fn lemma_lane_changes(p: Seq<u8>, q: Seq<u8>, k: int, lane: int, blocks: int)
    requires
        differ_in_word(p, q, k),
        0 <= k,
        0 <= lane < 4,
        0 <= blocks,
        32 * blocks <= p.len(),
    ensures
        lane_total(p, lane, blocks) - lane_total(q, lane, blocks) == if k % 4 == lane && k / 4
            < blocks {
            mixed(word_at(p, 8 * k), (lane + 1) as u64) - mixed(
                word_at(q, 8 * k),
                (lane + 1) as u64,
            )
        } else {
            0
        },
    decreases blocks,
{
    if blocks > 0 {
        lemma_lane_changes(p, q, k, lane, blocks - 1);
        let j = 4 * (blocks - 1) + lane;
        assert(8 * j == 32 * (blocks - 1) + 8 * lane);
        if j != k {
            lemma_other_words(p, q, k, j);
            assert(!(k % 4 == lane && k / 4 == blocks - 1));
        }
    }
}

/// How the total of the words behind the blocks changes with one word.
proof fn lemma_tail_changes(p: Seq<u8>, q: Seq<u8>, k: int, j: int)
    requires
        differ_in_word(p, q, k),
        0 <= k,
        0 <= j,
    ensures
        words_total(p, 8 * j) - words_total(q, 8 * j) == if j <= k && 8 * k < p.len() {
            word_at(p, 8 * k) - word_at(q, 8 * k)
        } else {
            0
        },
    decreases p.len() - 8 * j,
{
    if 8 * j < p.len() {
        if j != k {
            lemma_other_words(p, q, k, j);
        }
        if p.len() - 8 * j > 8 {
            lemma_tail_changes(p, q, k, j + 1);
        }
    }
}

/// Corruption within one aligned word of eight bytes is always detected: payloads of the
/// same length that differ in one word alone have different checksums.
pub proof fn law_a_corrupted_word_is_detected(p: Seq<u8>, q: Seq<u8>, k: int)
    requires
        0 <= k,
        differ_in_word(p, q, k),
        p != q,
    ensures
        checksum_of(p) != checksum_of(q),
{
    if 8 * k >= p.len() {
        assert(p =~= q);
    } else if checksum_of(p) == checksum_of(q) {
        let blocks = p.len() as int / 32;
        lemma_lane_changes(p, q, k, 0, blocks);
        lemma_lane_changes(p, q, k, 1, blocks);
        lemma_lane_changes(p, q, k, 2, blocks);
        lemma_lane_changes(p, q, k, 3, blocks);
        lemma_tail_changes(p, q, k, 4 * blocks);
        assert(8 * (4 * blocks) == blocks * 32);
        let tp = wrapped(words_total(p, blocks * 32));
        let tq = wrapped(words_total(q, blocks * 32));
        lemma_each_part_counts(
            lane_sum(p, 0, blocks),
            lane_sum(p, 1, blocks),
            lane_sum(p, 2, blocks),
            lane_sum(p, 3, blocks),
            tp,
            lane_sum(q, 0, blocks),
            lane_sum(q, 1, blocks),
            lane_sum(q, 2, blocks),
            lane_sum(q, 3, blocks),
            tq,
        );
        if k / 4 < blocks {
            let lane = k % 4;
            assert(lane_sum(p, lane, blocks) == lane_sum(q, lane, blocks));
            lemma_small_difference(
                seed(lane) + lane_total(p, lane, blocks),
                seed(lane) + lane_total(q, lane, blocks),
            );
            lemma_mixed_is_faithful(word_at(p, 8 * k), word_at(q, 8 * k), (lane + 1) as u64);
        } else {
            lemma_small_difference(words_total(p, blocks * 32), words_total(q, blocks * 32));
        }
        lemma_word_is_faithful(p, q, k);
    }
}


/// The checksum of a stream depends on every chunk: another checksum of the last chunk, or of
/// what came before it, gives another one.
pub proof fn law_stream_checksums_depend_on_every_chunk(
    aggregate: u64,
    other: u64,
    frame: Frame,
    changed: Frame,
)
    requires
        changed.offset == frame.offset,
    ensures
        folded(aggregate, frame) == folded(aggregate, changed) ==> frame.checksum
            == changed.checksum,
        folded(aggregate, frame) == folded(other, frame) ==> aggregate == other,
{
    let s = scaled(frame.offset, 0x9E37_79B9_7F4A_7C15);
    let x = frame.checksum;
    let y = changed.checksum;
    let r = rotated(aggregate, 7);
    let q = rotated(other, 7);
    assert(r ^ x ^ s == r ^ y ^ s ==> x == y) by (bit_vector);
    assert(r ^ x ^ s == q ^ x ^ s ==> r == q) by (bit_vector);
    assert((aggregate << 7u64) | (aggregate >> 57u64) == (other << 7u64) | (other >> 57u64)
        ==> aggregate == other) by (bit_vector);
}

} // verus!
