use vstd::prelude::*;
use vstd::arithmetic::div_mod::lemma_fundamental_div_mod_converse;
use crate::indexer::spec_ticks_per_array;
use crate::indexer::TICK_ARRAY_SIZE;
use crate::states::TickArrayBitmapExtension;

verus! {

broadcast use vstd::array::group_array_axioms;

/// Bit `b` of one bitmap word.
pub open spec fn spec_word_bit(word: u64, b: u64) -> bool
    recommends
        b < 64,
{
    (word >> b) & 1 == 1
}

/// Bit `i` of the 1024-bit default tier, stored little-endian across
/// sixteen words: word `i / 64`, bit `i % 64`.
pub open spec fn spec_default_bit(words: Seq<u64>, i: int) -> bool
    recommends
        0 <= i < 1024,
        words.len() == 16,
{
    spec_word_bit(words[i / 64], (i % 64) as u64)
}

/// Start index encoded by default-tier bit `i`: the tier is centered, so
/// bit 512 is the array that contains tick 0.
pub open spec fn spec_default_start(i: int, tpa: int) -> int {
    (i - 512) * tpa
}

/// Bit `n` of one extension side, where `n` flattens (chunk, bit-in-chunk)
/// as `chunk * 512 + bit`: chunk `n / 512`, word `(n % 512) / 64`, bit
/// `(n % 512) % 64`.
pub open spec fn spec_chunk_bit(chunks: Seq<[u64; 8]>, n: int) -> bool
    recommends
        0 <= n < 7168,
        chunks.len() == 14,
{
    spec_word_bit(chunks[n / 512]@[(n % 512) / 64], ((n % 512) % 64) as u64)
}

/// Array offset encoded by positive-side extension bit `n`: the positive
/// side continues upward from the default tier's 512 positive offsets.
pub open spec fn spec_pos_offset(n: int) -> int {
    512 + n
}

/// Array offset encoded by negative-side extension bit `n`. The bit order
/// is reversed relative to the positive side: within chunk `c = n / 512`,
/// bit 511 is the offset nearest zero (`-513 - c * 512`) and bit 0 the
/// farthest. This asymmetry is a fixed protocol convention.
pub open spec fn spec_neg_offset(n: int) -> int {
    (n % 512) - 512 * (n / 512) - 1024
}

/// The same negative-side offset, addressed by chunk and bit within the
/// chunk instead of by flattened bit index.
pub open spec fn spec_neg_offset_in_chunk(c: int, b: int) -> int {
    b - 512 * c - 1024
}

/// Bit `m` (0..512) of a single 8-word chunk.
pub open spec fn spec_chunk_word_bit(chunk: [u64; 8], m: int) -> bool
    recommends
        0 <= m < 512,
{
    spec_word_bit(chunk@[m / 64], (m % 64) as u64)
}

/// Start indices of the default-tier bits below `n` that are set, in
/// ascending bit order.
pub open spec fn spec_default_decoded_prefix(words: Seq<u64>, n: int, tpa: int) -> Seq<i32>
    decreases n,
{
    if n <= 0 {
        Seq::empty()
    } else {
        let rest = spec_default_decoded_prefix(words, n - 1, tpa);
        if spec_default_bit(words, n - 1) {
            rest.push(spec_default_start(n - 1, tpa) as i32)
        } else {
            rest
        }
    }
}

/// Start indices of all set default-tier bits, in ascending bit order.
pub open spec fn spec_default_decoded(words: Seq<u64>, tpa: int) -> Seq<i32> {
    spec_default_decoded_prefix(words, 1024, tpa)
}

/// Start indices of the positive-side extension bits below `n` that are
/// set, in ascending bit order.
pub open spec fn spec_pos_decoded_prefix(chunks: Seq<[u64; 8]>, n: int, tpa: int) -> Seq<i32>
    decreases n,
{
    if n <= 0 {
        Seq::empty()
    } else {
        let rest = spec_pos_decoded_prefix(chunks, n - 1, tpa);
        if spec_chunk_bit(chunks, n - 1) {
            rest.push((spec_pos_offset(n - 1) * tpa) as i32)
        } else {
            rest
        }
    }
}

/// Start indices of the negative-side extension bits below `n` that are
/// set, in bit order (which is not start-index order: the side is stored
/// reversed).
pub open spec fn spec_neg_decoded_prefix(chunks: Seq<[u64; 8]>, n: int, tpa: int) -> Seq<i32>
    decreases n,
{
    if n <= 0 {
        Seq::empty()
    } else {
        let rest = spec_neg_decoded_prefix(chunks, n - 1, tpa);
        if spec_chunk_bit(chunks, n - 1) {
            rest.push((spec_neg_offset(n - 1) * tpa) as i32)
        } else {
            rest
        }
    }
}

/// Everything the extension account encodes: the positive side in bit
/// order, then the negative side in bit order.
pub open spec fn spec_extension_decoded(
    pos: Seq<[u64; 8]>,
    neg: Seq<[u64; 8]>,
    tpa: int,
) -> Seq<i32> {
    spec_pos_decoded_prefix(pos, 7168, tpa) + spec_neg_decoded_prefix(neg, 7168, tpa)
}

/// A value below `d * m` has quotient below `m`.
pub(crate) proof fn lemma_div_range(i: int, d: int, m: int)
    requires
        d > 0,
        m >= 0,
        0 <= i < d * m,
    ensures
        0 <= i / d < m,
        0 <= i % d < d,
{
    vstd::arithmetic::div_mod::lemma_fundamental_div_mod(i, d);
    vstd::arithmetic::div_mod::lemma_mod_division_less_than_divisor(i, d);
    assert(i / d < m) by {
        if i / d >= m {
            assert(d * (i / d) >= d * m) by (nonlinear_arith)
                requires
                    d > 0,
                    i / d >= m,
            ;
        }
    }
    assert(i / d >= 0) by {
        if i / d < 0 {
            assert(d * (i / d) <= -d) by (nonlinear_arith)
                requires
                    d > 0,
                    i / d < 0,
            ;
        }
    }
}

/// Splitting a flattened index: if `n == w * d + k` with `0 <= k < d`, then
/// `n / d == w` and `n % d == k`.
proof fn lemma_split_index(w: int, k: int, d: int)
    requires
        d > 0,
        0 <= k < d,
    ensures
        (w * d + k) / d == w,
        (w * d + k) % d == k,
{
    lemma_fundamental_div_mod_converse(w * d + k, d, w, k);
}

/// Start index encoded by positive-side extension bit `n`, as the `i32` the
/// decoder emits.
pub open spec fn spec_pos_start(n: int, tpa: int) -> i32 {
    (spec_pos_offset(n) * tpa) as i32
}

/// Start index encoded by negative-side extension bit `n`, as the `i32` the
/// decoder emits.
pub open spec fn spec_neg_start(n: int, tpa: int) -> i32 {
    (spec_neg_offset(n) * tpa) as i32
}

/// Start index encoded by default-tier bit `i`, as the `i32` the decoder
/// emits.
pub open spec fn spec_default_start_i32(i: int, tpa: int) -> i32 {
    spec_default_start(i, tpa) as i32
}

/// Membership in a pushed sequence: the pushed element, or anything the
/// original already held.
proof fn lemma_push_contains(s: Seq<i32>, x: i32, v: i32)
    ensures
        s.push(x).contains(v) <==> (s.contains(v) || v == x),
{
    if s.contains(v) {
        let i = choose|i: int| 0 <= i < s.len() && s[i] == v;
        assert(s.push(x)[i] == v);
    }
    if v == x {
        assert(s.push(x)[s.len() as int] == v);
    }
    if s.push(x).contains(v) && v != x {
        let i = choose|i: int| 0 <= i < s.push(x).len() && s.push(x)[i] == v;
        assert(s[i] == v);
    }
}

/// Membership in a concatenation: membership in either part.
proof fn lemma_concat_contains(a: Seq<i32>, b: Seq<i32>, v: i32)
    ensures
        (a + b).contains(v) <==> (a.contains(v) || b.contains(v)),
{
    if a.contains(v) {
        let i = choose|i: int| 0 <= i < a.len() && a[i] == v;
        assert((a + b)[i] == v);
    }
    if b.contains(v) {
        let i = choose|i: int| 0 <= i < b.len() && b[i] == v;
        assert((a + b)[a.len() + i] == v);
    }
    if (a + b).contains(v) {
        let i = choose|i: int| 0 <= i < (a + b).len() && (a + b)[i] == v;
        if i < a.len() {
            assert(a[i] == v);
        } else {
            assert(b[i - a.len()] == v);
        }
    }
}

/// Linear membership scan.
fn vec_contains(v: &Vec<i32>, x: i32) -> (r: bool)
    ensures
        r == v@.contains(x),
{
    let mut k: usize = 0;
    while k < v.len()
        invariant
            k <= v@.len(),
            !v@.take(k as int).contains(x),
        decreases v@.len() - k,
    {
        if v[k] == x {
            proof {
                assert(v@[k as int] == x);
            }
            return true;
        }
        proof {
            v@.lemma_take_succ_push(k as int);
            lemma_push_contains(v@.take(k as int), v@[k as int], x);
        }
        k = k + 1;
    }
    proof {
        v@.lemma_take_len();
    }
    false
}

/// Sets bit `b` of `word` and changes no other bit.
fn set_word_bit(word: u64, b: u64) -> (r: u64)
    requires
        b < 64,
    ensures
        forall|k: u64| k < 64 ==> spec_word_bit(r, k) == (k == b || spec_word_bit(word, k)),
{
    let r = word | (1u64 << b);
    proof {
        assert forall|k: u64| k < 64 implies spec_word_bit(r, k) == (k == b || spec_word_bit(
            word,
            k,
        )) by {
            assert(((word | (1u64 << b)) >> k) & 1 == (if k == b {
                1u64
            } else {
                (word >> k) & 1
            })) by (bit_vector)
                requires
                    k < 64,
                    b < 64,
            ;
            assert((word >> k) & 1 == 0 || (word >> k) & 1 == 1) by (bit_vector);
        }
    }
    r
}

/// A zero word has no set bit.
proof fn lemma_zero_word_bits()
    ensures
        forall|k: u64| !spec_word_bit(0u64, k),
{
    assert forall|k: u64| !spec_word_bit(0u64, k) by {
        assert((0u64 >> k) & 1 == 0) by (bit_vector);
    }
}

/// Reads the default 1024-bit bitmap: every set bit names one initialized
/// tick array, bit `i` the array at offset `i - 512` from the array that
/// contains tick 0.
pub fn read_default_bitmap(bitmap: &[u64; 16], tick_spacing: u16) -> (r: Vec<i32>)
    requires
        tick_spacing >= 1,
    ensures
        r@ == spec_default_decoded(bitmap@, spec_ticks_per_array(tick_spacing)),
{
    let ticks_per_array: i32 = TICK_ARRAY_SIZE * tick_spacing as i32;
    let ghost tpa: int = spec_ticks_per_array(tick_spacing);
    let mut initialized: Vec<i32> = Vec::new();
    let mut word_idx: usize = 0;
    while word_idx < 16
        invariant
            tick_spacing >= 1,
            ticks_per_array == tpa,
            tpa == spec_ticks_per_array(tick_spacing),
            word_idx <= 16,
            initialized@ == spec_default_decoded_prefix(bitmap@, word_idx as int * 64, tpa),
        decreases 16 - word_idx,
    {
        let word: u64 = bitmap[word_idx];
        let mut bit_idx: u64 = 0;
        while bit_idx < 64
            invariant
                tick_spacing >= 1,
                ticks_per_array == tpa,
                tpa == spec_ticks_per_array(tick_spacing),
                word_idx < 16,
                bit_idx <= 64,
                word == bitmap@[word_idx as int],
                initialized@ == spec_default_decoded_prefix(
                    bitmap@,
                    word_idx as int * 64 + bit_idx,
                    tpa,
                ),
            decreases 64 - bit_idx,
        {
            proof {
                lemma_split_index(word_idx as int, bit_idx as int, 64);
            }
            if (word >> bit_idx) & 1 == 1 {
                let global_bit_pos: i32 = (word_idx as i32) * 64 + (bit_idx as i32);
                let array_offset: i32 = global_bit_pos - 512;
                proof {
                    assert(i32::MIN <= array_offset as int * tpa <= i32::MAX) by (nonlinear_arith)
                        requires
                            -512 <= array_offset as int <= 511,
                            60 <= tpa <= 3932100,
                    ;
                }
                let start_index: i32 = array_offset * ticks_per_array;
                initialized.push(start_index);
            }
            bit_idx = bit_idx + 1;
        }
        word_idx = word_idx + 1;
    }
    initialized
}

/// Reads the extension bitmap: both fourteen-chunk sides, positive side
/// first, in each side's storage bit order.
pub fn read_extension_bitmap(extension: &TickArrayBitmapExtension, tick_spacing: u16) -> (r: Vec<
    i32,
>)
    requires
        tick_spacing >= 1,
        7680 * spec_ticks_per_array(tick_spacing) <= 2147483648,
    ensures
        r@ == spec_extension_decoded(
            extension.positive_tick_array_bitmap@,
            extension.negative_tick_array_bitmap@,
            spec_ticks_per_array(tick_spacing),
        ),
{
    let ticks_per_array: i32 = TICK_ARRAY_SIZE * tick_spacing as i32;
    let ghost tpa: int = spec_ticks_per_array(tick_spacing);
    let ghost pos: Seq<[u64; 8]> = extension.positive_tick_array_bitmap@;
    let ghost neg: Seq<[u64; 8]> = extension.negative_tick_array_bitmap@;
    let mut initialized: Vec<i32> = Vec::new();
    let mut chunk_idx: usize = 0;
    while chunk_idx < 14
        invariant
            tick_spacing >= 1,
            ticks_per_array == tpa,
            tpa == spec_ticks_per_array(tick_spacing),
            7680 * tpa <= 2147483648,
            chunk_idx <= 14,
            pos == extension.positive_tick_array_bitmap@,
            initialized@ == spec_pos_decoded_prefix(pos, chunk_idx as int * 512, tpa),
        decreases 14 - chunk_idx,
    {
        let chunk: [u64; 8] = extension.positive_tick_array_bitmap[chunk_idx];
        let mut word_idx: usize = 0;
        while word_idx < 8
            invariant
                tick_spacing >= 1,
                ticks_per_array == tpa,
                tpa == spec_ticks_per_array(tick_spacing),
                7680 * tpa <= 2147483648,
                chunk_idx < 14,
                word_idx <= 8,
                pos == extension.positive_tick_array_bitmap@,
                chunk == pos[chunk_idx as int],
                initialized@ == spec_pos_decoded_prefix(
                    pos,
                    chunk_idx as int * 512 + word_idx as int * 64,
                    tpa,
                ),
            decreases 8 - word_idx,
        {
            let word: u64 = chunk[word_idx];
            let mut bit_idx: u64 = 0;
            while bit_idx < 64
                invariant
                    tick_spacing >= 1,
                    ticks_per_array == tpa,
                    tpa == spec_ticks_per_array(tick_spacing),
                    7680 * tpa <= 2147483648,
                    chunk_idx < 14,
                    word_idx < 8,
                    bit_idx <= 64,
                    pos == extension.positive_tick_array_bitmap@,
                    chunk == pos[chunk_idx as int],
                    word == chunk@[word_idx as int],
                    initialized@ == spec_pos_decoded_prefix(
                        pos,
                        chunk_idx as int * 512 + word_idx as int * 64 + bit_idx,
                        tpa,
                    ),
                decreases 64 - bit_idx,
            {
                let ghost n: int = chunk_idx as int * 512 + word_idx as int * 64 + bit_idx;
                proof {
                    lemma_split_index(chunk_idx as int, word_idx as int * 64 + bit_idx, 512);
                    lemma_split_index(word_idx as int, bit_idx as int, 64);
                    assert(spec_chunk_bit(pos, n) == spec_word_bit(word, bit_idx));
                }
                if (word >> bit_idx) & 1 == 1 {
                    let bit_pos_in_chunk: i32 = (word_idx as i32) * 64 + (bit_idx as i32);
                    let array_offset: i32 = 512 + (chunk_idx as i32) * 512 + bit_pos_in_chunk;
                    proof {
                        assert(array_offset as int == spec_pos_offset(n));
                        assert(i32::MIN <= array_offset as int * tpa <= i32::MAX)
                            by (nonlinear_arith)
                            requires
                                512 <= array_offset as int <= 7679,
                                60 <= tpa,
                                7680 * tpa <= 2147483648,
                        ;
                    }
                    let start_index: i32 = array_offset * ticks_per_array;
                    initialized.push(start_index);
                }
                bit_idx = bit_idx + 1;
            }
            word_idx = word_idx + 1;
        }
        chunk_idx = chunk_idx + 1;
    }
    assert(initialized@ == spec_pos_decoded_prefix(pos, 7168, tpa));
    let ghost pos_part: Seq<i32> = initialized@;
    let mut chunk_idx: usize = 0;
    while chunk_idx < 14
        invariant
            tick_spacing >= 1,
            ticks_per_array == tpa,
            tpa == spec_ticks_per_array(tick_spacing),
            7680 * tpa <= 2147483648,
            chunk_idx <= 14,
            neg == extension.negative_tick_array_bitmap@,
            pos_part == spec_pos_decoded_prefix(pos, 7168, tpa),
            pos == extension.positive_tick_array_bitmap@,
            initialized@ == pos_part + spec_neg_decoded_prefix(neg, chunk_idx as int * 512, tpa),
        decreases 14 - chunk_idx,
    {
        let chunk: [u64; 8] = extension.negative_tick_array_bitmap[chunk_idx];
        let mut word_idx: usize = 0;
        while word_idx < 8
            invariant
                tick_spacing >= 1,
                ticks_per_array == tpa,
                tpa == spec_ticks_per_array(tick_spacing),
                7680 * tpa <= 2147483648,
                chunk_idx < 14,
                word_idx <= 8,
                neg == extension.negative_tick_array_bitmap@,
                pos_part == spec_pos_decoded_prefix(pos, 7168, tpa),
                pos == extension.positive_tick_array_bitmap@,
                chunk == neg[chunk_idx as int],
                initialized@ == pos_part + spec_neg_decoded_prefix(
                    neg,
                    chunk_idx as int * 512 + word_idx as int * 64,
                    tpa,
                ),
            decreases 8 - word_idx,
        {
            let word: u64 = chunk[word_idx];
            let mut bit_idx: u64 = 0;
            while bit_idx < 64
                invariant
                    tick_spacing >= 1,
                    ticks_per_array == tpa,
                    tpa == spec_ticks_per_array(tick_spacing),
                    7680 * tpa <= 2147483648,
                    chunk_idx < 14,
                    word_idx < 8,
                    bit_idx <= 64,
                    neg == extension.negative_tick_array_bitmap@,
                    pos_part == spec_pos_decoded_prefix(pos, 7168, tpa),
                    pos == extension.positive_tick_array_bitmap@,
                    chunk == neg[chunk_idx as int],
                    word == chunk@[word_idx as int],
                    initialized@ == pos_part + spec_neg_decoded_prefix(
                        neg,
                        chunk_idx as int * 512 + word_idx as int * 64 + bit_idx,
                        tpa,
                    ),
                decreases 64 - bit_idx,
            {
                let ghost n: int = chunk_idx as int * 512 + word_idx as int * 64 + bit_idx;
                proof {
                    lemma_split_index(chunk_idx as int, word_idx as int * 64 + bit_idx, 512);
                    lemma_split_index(word_idx as int, bit_idx as int, 64);
                    assert(spec_chunk_bit(neg, n) == spec_word_bit(word, bit_idx));
                }
                if (word >> bit_idx) & 1 == 1 {
                    let bit_pos_in_chunk: i32 = (word_idx as i32) * 64 + (bit_idx as i32);
                    let offset_in_bitmap: i32 = 511 - bit_pos_in_chunk;
                    let array_offset: i32 = -513 - (chunk_idx as i32) * 512 - offset_in_bitmap;
                    proof {
                        assert(array_offset as int == spec_neg_offset(n));
                        assert(i32::MIN <= array_offset as int * tpa <= i32::MAX)
                            by (nonlinear_arith)
                            requires
                                -7680 <= array_offset as int <= -513,
                                60 <= tpa,
                                7680 * tpa <= 2147483648,
                        ;
                    }
                    let start_index: i32 = array_offset * ticks_per_array;
                    initialized.push(start_index);
                }
                bit_idx = bit_idx + 1;
            }
            word_idx = word_idx + 1;
        }
        chunk_idx = chunk_idx + 1;
    }
    initialized
}

/// Builds the bit patterns that mark exactly the given start indices as
/// initialized: the inverse of the two decoders. Bit `i` of the default
/// tier ends up set if and only if the input holds the start index that
/// bit encodes, and likewise for every extension bit on both sides.
pub fn encode(start_indices: &Vec<i32>, tick_spacing: u16) -> (r: ([u64; 16],
    TickArrayBitmapExtension))
    requires
        tick_spacing >= 1,
        7680 * spec_ticks_per_array(tick_spacing) <= 2147483648,
    ensures
        forall|i: int|
            0 <= i < 1024 ==> (spec_default_bit(r.0@, i) <==> start_indices@.contains(
                (spec_default_start(i, spec_ticks_per_array(tick_spacing))) as i32,
            )),
        forall|n: int|
            0 <= n < 7168 ==> (spec_chunk_bit(r.1.positive_tick_array_bitmap@, n)
                <==> start_indices@.contains(
                (spec_pos_offset(n) * spec_ticks_per_array(tick_spacing)) as i32,
            )),
        forall|n: int|
            0 <= n < 7168 ==> (spec_chunk_bit(r.1.negative_tick_array_bitmap@, n)
                <==> start_indices@.contains(
                (spec_neg_offset(n) * spec_ticks_per_array(tick_spacing)) as i32,
            )),
{
    let ticks_per_array: i32 = TICK_ARRAY_SIZE * tick_spacing as i32;
    let ghost tpa: int = spec_ticks_per_array(tick_spacing);

    let mut default_words: [u64; 16] = [0u64; 16];
    let mut w: usize = 0;
    while w < 16
        invariant
            w <= 16,
            tick_spacing >= 1,
            ticks_per_array == tpa,
            tpa == spec_ticks_per_array(tick_spacing),
            7680 * tpa <= 2147483648,
            forall|i: int|
                0 <= i < w as int * 64 ==> (spec_default_bit(default_words@, i)
                    <==> start_indices@.contains((spec_default_start(i, tpa)) as i32)),
        decreases 16 - w,
    {
        let mut word: u64 = 0;
        let mut b: u64 = 0;
        proof {
            lemma_zero_word_bits();
        }
        while b < 64
            invariant
                b <= 64,
                w < 16,
                tick_spacing >= 1,
                ticks_per_array == tpa,
                tpa == spec_ticks_per_array(tick_spacing),
                7680 * tpa <= 2147483648,
                forall|k: u64|
                    k < b ==> spec_word_bit(word, k) == start_indices@.contains(
                        (spec_default_start(w as int * 64 + k, tpa)) as i32,
                    ),
                forall|k: u64| b <= k < 64 ==> !spec_word_bit(word, k),
            decreases 64 - b,
        {
            let global: i32 = (w as i32) * 64 + (b as i32);
            let offset: i32 = global - 512;
            proof {
                assert(i32::MIN <= offset as int * tpa <= i32::MAX) by (nonlinear_arith)
                    requires
                        -512 <= offset as int <= 511,
                        60 <= tpa <= 3932100,
                ;
            }
            let v: i32 = offset * ticks_per_array;
            if vec_contains(start_indices, v) {
                word = set_word_bit(word, b);
            }
            b = b + 1;
        }
        let ghost prev_words: Seq<u64> = default_words@;
        default_words[w] = word;
        proof {
            assert forall|i: int|
                0 <= i < (w + 1) as int * 64 implies (spec_default_bit(default_words@, i)
                <==> start_indices@.contains((spec_default_start(i, tpa)) as i32)) by {
                if i < w as int * 64 {
                    lemma_div_range(i, 64, w as int);
                    assert(default_words@[i / 64] == prev_words[i / 64]);
                    assert(spec_default_bit(prev_words, i) <==> start_indices@.contains(
                        (spec_default_start(i, tpa)) as i32,
                    ));
                } else {
                    lemma_split_index(w as int, i - w as int * 64, 64);
                    let k: u64 = (i - w as int * 64) as u64;
                    assert(spec_word_bit(word, k) == start_indices@.contains(
                        (spec_default_start(w as int * 64 + k, tpa)) as i32,
                    ));
                    assert(default_words@[i / 64] == word);
                }
            }
        }
        w = w + 1;
    }

    let mut positive: [[u64; 8]; 14] = [[0u64; 8]; 14];
    let mut c: usize = 0;
    while c < 14
        invariant
            c <= 14,
            tick_spacing >= 1,
            ticks_per_array == tpa,
            tpa == spec_ticks_per_array(tick_spacing),
            7680 * tpa <= 2147483648,
            forall|n: int|
                0 <= n < c as int * 512 ==> (spec_chunk_bit(positive@, n)
                    <==> start_indices@.contains((spec_pos_offset(n) * tpa) as i32)),
        decreases 14 - c,
    {
        let mut chunk: [u64; 8] = [0u64; 8];
        let mut w: usize = 0;
        proof {
            lemma_zero_word_bits();
        }
        while w < 8
            invariant
                w <= 8,
                c < 14,
                tick_spacing >= 1,
                ticks_per_array == tpa,
                tpa == spec_ticks_per_array(tick_spacing),
                7680 * tpa <= 2147483648,
                forall|m: int|
                    0 <= m < w as int * 64 ==> (spec_chunk_word_bit(chunk, m) == start_indices@.contains(
                        (spec_pos_offset(c as int * 512 + m) * tpa) as i32,
                    )),
            decreases 8 - w,
        {
            let mut word: u64 = 0;
            let mut b: u64 = 0;
            proof {
                lemma_zero_word_bits();
            }
            while b < 64
                invariant
                    b <= 64,
                    w < 8,
                    c < 14,
                    tick_spacing >= 1,
                    ticks_per_array == tpa,
                    tpa == spec_ticks_per_array(tick_spacing),
                    7680 * tpa <= 2147483648,
                    forall|k: u64|
                        k < b ==> spec_word_bit(word, k) == start_indices@.contains(
                            (spec_pos_offset(c as int * 512 + w as int * 64 + k) * tpa) as i32,
                        ),
                    forall|k: u64| b <= k < 64 ==> !spec_word_bit(word, k),
                decreases 64 - b,
            {
                let offset: i32 = 512 + (c as i32) * 512 + (w as i32) * 64 + (b as i32);
                proof {
                    assert(i32::MIN <= offset as int * tpa <= i32::MAX) by (nonlinear_arith)
                        requires
                            512 <= offset as int <= 7679,
                            60 <= tpa,
                            7680 * tpa <= 2147483648,
                    ;
                }
                let v: i32 = offset * ticks_per_array;
                if vec_contains(start_indices, v) {
                    word = set_word_bit(word, b);
                }
                b = b + 1;
            }
            let ghost prev_chunk: [u64; 8] = chunk;
            chunk[w] = word;
            proof {
                assert forall|m: int|
                    0 <= m < (w + 1) as int * 64 implies (spec_chunk_word_bit(chunk, m) == start_indices@.contains(
                    (spec_pos_offset(c as int * 512 + m) * tpa) as i32,
                )) by {
                    if m < w as int * 64 {
                        lemma_div_range(m, 64, w as int);
                        assert(chunk@[m / 64] == prev_chunk@[m / 64]);
                        assert(spec_chunk_word_bit(prev_chunk, m) == start_indices@.contains(
                            (spec_pos_offset(c as int * 512 + m) * tpa) as i32,
                        ));
                    } else {
                        lemma_split_index(w as int, m - w as int * 64, 64);
                        let k: u64 = (m - w as int * 64) as u64;
                        assert(spec_word_bit(word, k) == start_indices@.contains(
                            (spec_pos_offset(c as int * 512 + w as int * 64 + k) * tpa) as i32,
                        ));
                        assert(chunk@[m / 64] == word);
                    }
                }
            }
            w = w + 1;
        }
        let ghost prev_pos: Seq<[u64; 8]> = positive@;
        positive[c] = chunk;
        proof {
            assert forall|n: int|
                0 <= n < (c + 1) as int * 512 implies (spec_chunk_bit(positive@, n)
                <==> start_indices@.contains((spec_pos_offset(n) * tpa) as i32)) by {
                if n < c as int * 512 {
                    lemma_div_range(n, 512, c as int);
                    assert(positive@[n / 512] == prev_pos[n / 512]);
                    assert(spec_chunk_bit(prev_pos, n) <==> start_indices@.contains(
                        (spec_pos_offset(n) * tpa) as i32,
                    ));
                } else {
                    lemma_split_index(c as int, n - c as int * 512, 512);
                    assert(positive@[n / 512] == chunk);
                    assert(spec_chunk_word_bit(chunk, n - c as int * 512)
                        == start_indices@.contains(
                        (spec_pos_offset(c as int * 512 + (n - c as int * 512)) * tpa) as i32,
                    ));
                }
            }
        }
        c = c + 1;
    }

    let mut negative: [[u64; 8]; 14] = [[0u64; 8]; 14];
    let mut c: usize = 0;
    while c < 14
        invariant
            c <= 14,
            tick_spacing >= 1,
            ticks_per_array == tpa,
            tpa == spec_ticks_per_array(tick_spacing),
            7680 * tpa <= 2147483648,
            forall|n: int|
                0 <= n < c as int * 512 ==> (spec_chunk_bit(negative@, n)
                    <==> start_indices@.contains((spec_neg_offset(n) * tpa) as i32)),
        decreases 14 - c,
    {
        let mut chunk: [u64; 8] = [0u64; 8];
        let mut w: usize = 0;
        proof {
            lemma_zero_word_bits();
        }
        while w < 8
            invariant
                w <= 8,
                c < 14,
                tick_spacing >= 1,
                ticks_per_array == tpa,
                tpa == spec_ticks_per_array(tick_spacing),
                7680 * tpa <= 2147483648,
                forall|m: int|
                    0 <= m < w as int * 64 ==> (spec_chunk_word_bit(chunk, m) == start_indices@.contains(
                        (spec_neg_offset_in_chunk(c as int, m) * tpa) as i32,
                    )),
            decreases 8 - w,
        {
            let mut word: u64 = 0;
            let mut b: u64 = 0;
            proof {
                lemma_zero_word_bits();
            }
            while b < 64
                invariant
                    b <= 64,
                    w < 8,
                    c < 14,
                    tick_spacing >= 1,
                    ticks_per_array == tpa,
                    tpa == spec_ticks_per_array(tick_spacing),
                    7680 * tpa <= 2147483648,
                    forall|k: u64|
                        k < b ==> spec_word_bit(word, k) == start_indices@.contains(
                            (spec_neg_offset_in_chunk(c as int, w as int * 64 + k) * tpa) as i32,
                        ),
                    forall|k: u64| b <= k < 64 ==> !spec_word_bit(word, k),
                decreases 64 - b,
            {
                let bit_pos_in_chunk: i32 = (w as i32) * 64 + (b as i32);
                let offset: i32 = -513 - (c as i32) * 512 - (511 - bit_pos_in_chunk);
                proof {
                    assert(offset as int == spec_neg_offset_in_chunk(
                        c as int,
                        w as int * 64 + b as int,
                    ));
                    assert(i32::MIN <= offset as int * tpa <= i32::MAX) by (nonlinear_arith)
                        requires
                            -7680 <= offset as int <= -513,
                            60 <= tpa,
                            7680 * tpa <= 2147483648,
                    ;
                }
                let v: i32 = offset * ticks_per_array;
                if vec_contains(start_indices, v) {
                    word = set_word_bit(word, b);
                }
                b = b + 1;
            }
            let ghost prev_chunk: [u64; 8] = chunk;
            chunk[w] = word;
            proof {
                assert forall|m: int|
                    0 <= m < (w + 1) as int * 64 implies (spec_chunk_word_bit(chunk, m) == start_indices@.contains(
                    (spec_neg_offset_in_chunk(c as int, m) * tpa) as i32,
                )) by {
                    if m < w as int * 64 {
                        lemma_div_range(m, 64, w as int);
                        assert(chunk@[m / 64] == prev_chunk@[m / 64]);
                        assert(spec_chunk_word_bit(prev_chunk, m) == start_indices@.contains(
                            (spec_neg_offset_in_chunk(c as int, m) * tpa) as i32,
                        ));
                    } else {
                        lemma_split_index(w as int, m - w as int * 64, 64);
                        let k: u64 = (m - w as int * 64) as u64;
                        assert(spec_word_bit(word, k) == start_indices@.contains(
                            (spec_neg_offset_in_chunk(c as int, w as int * 64 + k) * tpa) as i32,
                        ));
                        assert(chunk@[m / 64] == word);
                    }
                }
            }
            w = w + 1;
        }
        let ghost prev_neg: Seq<[u64; 8]> = negative@;
        negative[c] = chunk;
        proof {
            assert forall|n: int|
                0 <= n < (c + 1) as int * 512 implies (spec_chunk_bit(negative@, n)
                <==> start_indices@.contains((spec_neg_offset(n) * tpa) as i32)) by {
                if n < c as int * 512 {
                    lemma_div_range(n, 512, c as int);
                    assert(negative@[n / 512] == prev_neg[n / 512]);
                    assert(spec_chunk_bit(prev_neg, n) <==> start_indices@.contains(
                        (spec_neg_offset(n) * tpa) as i32,
                    ));
                } else {
                    lemma_split_index(c as int, n - c as int * 512, 512);
                    assert(negative@[n / 512] == chunk);
                    assert(spec_neg_offset(n) == spec_neg_offset_in_chunk(
                        c as int,
                        n - c as int * 512,
                    ));
                    assert(spec_chunk_word_bit(chunk, n - c as int * 512)
                        == start_indices@.contains(
                        (spec_neg_offset_in_chunk(c as int, n - c as int * 512) * tpa) as i32,
                    ));
                }
            }
        }
        c = c + 1;
    }

    let extension = TickArrayBitmapExtension {
        positive_tick_array_bitmap: positive,
        negative_tick_array_bitmap: negative,
    };
    (default_words, extension)
}

/// Decodes both tiers and returns one sorted, deduplicated sequence of all
/// initialized start indices.
pub fn decode_all(bitmap: &[u64; 16], extension: &TickArrayBitmapExtension, tick_spacing: u16) -> (r:
    Vec<i32>)
    requires
        tick_spacing >= 1,
        7680 * spec_ticks_per_array(tick_spacing) <= 2147483648,
    ensures
        crate::sorting::spec_strictly_sorted(r@),
        forall|x: i32|
            #[trigger] r@.contains(x) <==> (spec_default_decoded(
                bitmap@,
                spec_ticks_per_array(tick_spacing),
            ).contains(x) || spec_extension_decoded(
                extension.positive_tick_array_bitmap@,
                extension.negative_tick_array_bitmap@,
                spec_ticks_per_array(tick_spacing),
            ).contains(x)),
{
    let ghost tpa: int = spec_ticks_per_array(tick_spacing);
    let default_part = read_default_bitmap(bitmap, tick_spacing);
    let extension_part = read_extension_bitmap(extension, tick_spacing);
    let ghost d: Seq<i32> = default_part@;
    let ghost e: Seq<i32> = extension_part@;
    let mut all = default_part;
    let mut ext = extension_part;
    all.append(&mut ext);
    let sorted = crate::sorting::sort_start_indices(&all);
    let deduped = crate::sorting::dedup_sorted(&sorted);
    proof {
        assert forall|x: i32| #[trigger] deduped@.contains(x) <==> (spec_default_decoded(
            bitmap@,
            tpa,
        ).contains(x) || spec_extension_decoded(
            extension.positive_tick_array_bitmap@,
            extension.negative_tick_array_bitmap@,
            tpa,
        ).contains(x)) by {
            lemma_concat_contains(d, e, x);
        }
    }
    deduped
}

/// Decoding failures: a well-formed fixed-size bitmap cannot fail to
/// decode, so the only failure is a caller handing words or chunks of the
/// wrong count.
#[derive(Clone, Copy, Debug, PartialEq, Eq, Structural)]
pub enum BitmapError {
    InvalidBitmapShape,
}

/// Decodes default-tier words supplied as a plain vector, rejecting any
/// count other than the tier's sixteen words.
pub fn decode_default_words(words: &Vec<u64>, tick_spacing: u16) -> (r: Result<
    Vec<i32>,
    BitmapError,
>)
    requires
        tick_spacing >= 1,
    ensures
        match r {
            Result::Ok(v) => words@.len() == 16 && v@ == spec_default_decoded(
                words@,
                spec_ticks_per_array(tick_spacing),
            ),
            Result::Err(e) => words@.len() != 16 && e is InvalidBitmapShape,
        },
{
    if words.len() != 16 {
        return Result::Err(BitmapError::InvalidBitmapShape);
    }
    let mut fixed: [u64; 16] = [0u64; 16];
    let mut i: usize = 0;
    while i < 16
        invariant
            i <= 16,
            words@.len() == 16,
            forall|j: int| 0 <= j < i ==> fixed@[j] == words@[j],
        decreases 16 - i,
    {
        fixed[i] = words[i];
        i = i + 1;
    }
    proof {
        assert(fixed@ =~= words@);
    }
    Result::Ok(read_default_bitmap(&fixed, tick_spacing))
}

/// Decodes extension-tier chunks supplied as plain vectors, rejecting any
/// side that is not fourteen chunks of eight words.
pub fn decode_extension_chunks(
    positive: &Vec<Vec<u64>>,
    negative: &Vec<Vec<u64>>,
    tick_spacing: u16,
) -> (r: Result<Vec<i32>, BitmapError>)
    requires
        tick_spacing >= 1,
        7680 * spec_ticks_per_array(tick_spacing) <= 2147483648,
    ensures
        match r {
            Result::Ok(v) => spec_chunks_well_shaped(positive@) && spec_chunks_well_shaped(
                negative@,
            ) && (forall|ext: TickArrayBitmapExtension|
                #![trigger spec_chunks_match(ext.positive_tick_array_bitmap@, positive@)]
                spec_chunks_match(ext.positive_tick_array_bitmap@, positive@)
                    && spec_chunks_match(ext.negative_tick_array_bitmap@, negative@)
                    ==> v@ == spec_extension_decoded(
                    ext.positive_tick_array_bitmap@,
                    ext.negative_tick_array_bitmap@,
                    spec_ticks_per_array(tick_spacing),
                )),
            Result::Err(e) => (!spec_chunks_well_shaped(positive@) || !spec_chunks_well_shaped(
                negative@,
            )) && e is InvalidBitmapShape,
        },
{
    if !chunks_well_shaped(positive) || !chunks_well_shaped(negative) {
        return Result::Err(BitmapError::InvalidBitmapShape);
    }
    let pos = chunks_to_fixed(positive);
    let neg = chunks_to_fixed(negative);
    let ext = TickArrayBitmapExtension {
        positive_tick_array_bitmap: pos,
        negative_tick_array_bitmap: neg,
    };
    let decoded = read_extension_bitmap(&ext, tick_spacing);
    proof {
        assert forall|ext2: TickArrayBitmapExtension|
            spec_chunks_match(ext2.positive_tick_array_bitmap@, positive@) && spec_chunks_match(
                ext2.negative_tick_array_bitmap@,
                negative@,
            ) implies decoded@ == spec_extension_decoded(
            ext2.positive_tick_array_bitmap@,
            ext2.negative_tick_array_bitmap@,
            spec_ticks_per_array(tick_spacing),
        ) by {
            assert forall|c: int| 0 <= c < 14 implies ext2.positive_tick_array_bitmap@[c]
                == ext.positive_tick_array_bitmap@[c] by {
                assert(ext2.positive_tick_array_bitmap@[c] =~= ext.positive_tick_array_bitmap@[c]);
            }
            assert forall|c: int| 0 <= c < 14 implies ext2.negative_tick_array_bitmap@[c]
                == ext.negative_tick_array_bitmap@[c] by {
                assert(ext2.negative_tick_array_bitmap@[c] =~= ext.negative_tick_array_bitmap@[c]);
            }
            assert(ext2.positive_tick_array_bitmap@ =~= ext.positive_tick_array_bitmap@);
            assert(ext2.negative_tick_array_bitmap@ =~= ext.negative_tick_array_bitmap@);
        }
    }
    Result::Ok(decoded)
}

/// One extension side in plain vectors has the expected shape: fourteen
/// chunks of eight words.
pub open spec fn spec_chunks_well_shaped(chunks: Seq<Vec<u64>>) -> bool {
    chunks.len() == 14 && forall|c: int| 0 <= c < 14 ==> (#[trigger] chunks[c])@.len() == 8
}

/// The fixed-size chunks hold the same words as the plain vectors.
pub open spec fn spec_chunks_match(fixed: Seq<[u64; 8]>, chunks: Seq<Vec<u64>>) -> bool {
    fixed.len() == 14 && chunks.len() == 14 && forall|c: int, w: int|
        0 <= c < 14 && 0 <= w < 8 ==> (#[trigger] fixed[c]@[w]) == chunks[c]@[w]
}

fn chunks_well_shaped(chunks: &Vec<Vec<u64>>) -> (r: bool)
    ensures
        r == spec_chunks_well_shaped(chunks@),
{
    if chunks.len() != 14 {
        return false;
    }
    let mut c: usize = 0;
    while c < 14
        invariant
            c <= 14,
            chunks@.len() == 14,
            forall|j: int| 0 <= j < c ==> (#[trigger] chunks@[j])@.len() == 8,
        decreases 14 - c,
    {
        if chunks[c].len() != 8 {
            return false;
        }
        c = c + 1;
    }
    true
}

fn chunks_to_fixed(chunks: &Vec<Vec<u64>>) -> (r: [[u64; 8]; 14])
    requires
        spec_chunks_well_shaped(chunks@),
    ensures
        spec_chunks_match(r@, chunks@),
{
    let mut fixed: [[u64; 8]; 14] = [[0u64; 8]; 14];
    let mut c: usize = 0;
    while c < 14
        invariant
            c <= 14,
            spec_chunks_well_shaped(chunks@),
            forall|j: int, w: int|
                0 <= j < c && 0 <= w < 8 ==> (#[trigger] fixed@[j]@[w]) == chunks@[j]@[w],
        decreases 14 - c,
    {
        let mut chunk: [u64; 8] = [0u64; 8];
        let mut w: usize = 0;
        while w < 8
            invariant
                w <= 8,
                c < 14,
                spec_chunks_well_shaped(chunks@),
                forall|k: int| 0 <= k < w ==> (#[trigger] chunk@[k]) == chunks@[c as int]@[k],
            decreases 8 - w,
        {
            chunk[w] = chunks[c][w];
            w = w + 1;
        }
        fixed[c] = chunk;
        c = c + 1;
    }
    fixed
}

/// Multiplying two different offsets by a positive array width gives two
/// different start indices.
proof fn lemma_mul_injective(o1: int, o2: int, tpa: int)
    requires
        tpa > 0,
        o1 < o2,
    ensures
        o1 * tpa < o2 * tpa,
{
    assert(o1 * tpa < o2 * tpa) by (nonlinear_arith)
        requires
            tpa > 0,
            o1 < o2,
    ;
}

/// A start index within the tiers' coverage fits in `i32`, so the decoder's
/// cast does not change its value.
proof fn lemma_offset_value_in_range(o: int, tpa: int)
    requires
        -7680 <= o <= 7679,
        60 <= tpa,
        7680 * tpa <= 2147483648,
    ensures
        i32::MIN <= o * tpa <= i32::MAX,
        ((o * tpa) as i32) as int == o * tpa,
{
    assert(-2147483648 <= o * tpa <= 2147483647) by (nonlinear_arith)
        requires
            -7680 <= o <= 7679,
            60 <= tpa,
            7680 * tpa <= 2147483648,
    ;
}

/// What the positive-side prefix holds: exactly the start indices of the
/// set bits below `n`.
proof fn lemma_pos_prefix_contains(chunks: Seq<[u64; 8]>, n: int, tpa: int, v: i32)
    requires
        0 <= n <= 7168,
    ensures
        spec_pos_decoded_prefix(chunks, n, tpa).contains(v) <==> exists|m: int|
            0 <= m < n && spec_chunk_bit(chunks, m) && v == spec_pos_start(m, tpa),
    decreases n,
{
    if n > 0 {
        lemma_pos_prefix_contains(chunks, n - 1, tpa, v);
        let rest = spec_pos_decoded_prefix(chunks, n - 1, tpa);
        if spec_chunk_bit(chunks, n - 1) {
            lemma_push_contains(rest, spec_pos_start(n - 1, tpa), v);
        }
        if exists|m: int| 0 <= m < n && spec_chunk_bit(chunks, m) && v == spec_pos_start(m, tpa) {
            let m = choose|m: int|
                0 <= m < n && spec_chunk_bit(chunks, m) && v == spec_pos_start(m, tpa);
            if m < n - 1 {
                assert(0 <= m < n - 1 && spec_chunk_bit(chunks, m) && v == spec_pos_start(m, tpa));
            }
            assert(spec_pos_decoded_prefix(chunks, n, tpa).contains(v));
        }
    }
}

/// What the negative-side prefix holds: exactly the start indices of the
/// set bits below `n`.
proof fn lemma_neg_prefix_contains(chunks: Seq<[u64; 8]>, n: int, tpa: int, v: i32)
    requires
        0 <= n <= 7168,
    ensures
        spec_neg_decoded_prefix(chunks, n, tpa).contains(v) <==> exists|m: int|
            0 <= m < n && spec_chunk_bit(chunks, m) && v == spec_neg_start(m, tpa),
    decreases n,
{
    if n > 0 {
        lemma_neg_prefix_contains(chunks, n - 1, tpa, v);
        let rest = spec_neg_decoded_prefix(chunks, n - 1, tpa);
        if spec_chunk_bit(chunks, n - 1) {
            lemma_push_contains(rest, spec_neg_start(n - 1, tpa), v);
        }
        if exists|m: int| 0 <= m < n && spec_chunk_bit(chunks, m) && v == spec_neg_start(m, tpa) {
            let m = choose|m: int|
                0 <= m < n && spec_chunk_bit(chunks, m) && v == spec_neg_start(m, tpa);
            if m < n - 1 {
                assert(0 <= m < n - 1 && spec_chunk_bit(chunks, m) && v == spec_neg_start(m, tpa));
            }
            assert(spec_neg_decoded_prefix(chunks, n, tpa).contains(v));
        }
    }
}

/// What the default-tier prefix holds: exactly the start indices of the
/// set bits below `n`.
pub proof fn lemma_default_prefix_contains(words: Seq<u64>, n: int, tpa: int, v: i32)
    requires
        0 <= n <= 1024,
    ensures
        spec_default_decoded_prefix(words, n, tpa).contains(v) <==> exists|m: int|
            0 <= m < n && spec_default_bit(words, m) && v == spec_default_start_i32(m, tpa),
    decreases n,
{
    if n > 0 {
        lemma_default_prefix_contains(words, n - 1, tpa, v);
        let rest = spec_default_decoded_prefix(words, n - 1, tpa);
        if spec_default_bit(words, n - 1) {
            lemma_push_contains(rest, spec_default_start_i32(n - 1, tpa), v);
        }
        if exists|m: int|
            0 <= m < n && spec_default_bit(words, m) && v == spec_default_start_i32(m, tpa) {
            let m = choose|m: int|
                0 <= m < n && spec_default_bit(words, m) && v == spec_default_start_i32(m, tpa);
            if m < n - 1 {
                assert(0 <= m < n - 1 && spec_default_bit(words, m) && v == spec_default_start_i32(
                    m,
                    tpa,
                ));
            }
            assert(spec_default_decoded_prefix(words, n, tpa).contains(v));
        }
    }
}

/// The decoded extension sequence, described bit by bit: it holds the start
/// index a positive- or negative-side bit encodes exactly when that bit is
/// set, and never holds a start index belonging to the default tier. With
/// `encode`'s contract this says that decoding an extension bitmap and
/// re-encoding the decoded start indices reproduces the identical bit
/// pattern on both sides and leaves the default tier empty.
pub proof fn lemma_extension_round_trip(pos: Seq<[u64; 8]>, neg: Seq<[u64; 8]>, tpa: int)
    requires
        60 <= tpa,
        7680 * tpa <= 2147483648,
    ensures
        forall|n: int|
            0 <= n < 7168 ==> (spec_extension_decoded(pos, neg, tpa).contains(
                #[trigger] spec_pos_start(n, tpa),
            ) <==> spec_chunk_bit(pos, n)),
        forall|n: int|
            0 <= n < 7168 ==> (spec_extension_decoded(pos, neg, tpa).contains(
                #[trigger] spec_neg_start(n, tpa),
            ) <==> spec_chunk_bit(neg, n)),
        forall|i: int|
            0 <= i < 1024 ==> !spec_extension_decoded(pos, neg, tpa).contains(
                #[trigger] spec_default_start_i32(i, tpa),
            ),
{
    let pos_part = spec_pos_decoded_prefix(pos, 7168, tpa);
    let neg_part = spec_neg_decoded_prefix(neg, 7168, tpa);
    assert forall|n: int| 0 <= n < 7168 implies (spec_extension_decoded(pos, neg, tpa).contains(
        #[trigger] spec_pos_start(n, tpa),
    ) <==> spec_chunk_bit(pos, n)) by {
        let v = spec_pos_start(n, tpa);
        lemma_concat_contains(pos_part, neg_part, v);
        lemma_pos_prefix_contains(pos, 7168, tpa, v);
        lemma_neg_prefix_contains(neg, 7168, tpa, v);
        lemma_offset_value_in_range(spec_pos_offset(n), tpa);
        if pos_part.contains(v) {
            let m = choose|m: int|
                0 <= m < 7168 && spec_chunk_bit(pos, m) && v == spec_pos_start(m, tpa);
            lemma_offset_value_in_range(spec_pos_offset(m), tpa);
            if m < n {
                lemma_mul_injective(spec_pos_offset(m), spec_pos_offset(n), tpa);
            }
            if n < m {
                lemma_mul_injective(spec_pos_offset(n), spec_pos_offset(m), tpa);
            }
            assert(m == n);
        }
        if neg_part.contains(v) {
            let m = choose|m: int|
                0 <= m < 7168 && spec_chunk_bit(neg, m) && v == spec_neg_start(m, tpa);
            lemma_offset_value_in_range(spec_neg_offset(m), tpa);
            lemma_mul_injective(spec_neg_offset(m), spec_pos_offset(n), tpa);
            assert(false);
        }
        if spec_chunk_bit(pos, n) {
            assert(0 <= n < 7168 && spec_chunk_bit(pos, n) && v == spec_pos_start(n, tpa));
            assert(pos_part.contains(v));
        }
    }
    assert forall|n: int| 0 <= n < 7168 implies (spec_extension_decoded(pos, neg, tpa).contains(
        #[trigger] spec_neg_start(n, tpa),
    ) <==> spec_chunk_bit(neg, n)) by {
        let v = spec_neg_start(n, tpa);
        lemma_concat_contains(pos_part, neg_part, v);
        lemma_pos_prefix_contains(pos, 7168, tpa, v);
        lemma_neg_prefix_contains(neg, 7168, tpa, v);
        lemma_offset_value_in_range(spec_neg_offset(n), tpa);
        if pos_part.contains(v) {
            let m = choose|m: int|
                0 <= m < 7168 && spec_chunk_bit(pos, m) && v == spec_pos_start(m, tpa);
            lemma_offset_value_in_range(spec_pos_offset(m), tpa);
            lemma_mul_injective(spec_neg_offset(n), spec_pos_offset(m), tpa);
            assert(false);
        }
        if neg_part.contains(v) {
            let m = choose|m: int|
                0 <= m < 7168 && spec_chunk_bit(neg, m) && v == spec_neg_start(m, tpa);
            lemma_offset_value_in_range(spec_neg_offset(m), tpa);
            if m != n {
                lemma_neg_offset_injective(m, n);
                if spec_neg_offset(m) < spec_neg_offset(n) {
                    lemma_mul_injective(spec_neg_offset(m), spec_neg_offset(n), tpa);
                } else {
                    lemma_mul_injective(spec_neg_offset(n), spec_neg_offset(m), tpa);
                }
            }
            assert(m == n);
        }
        if spec_chunk_bit(neg, n) {
            assert(0 <= n < 7168 && spec_chunk_bit(neg, n) && v == spec_neg_start(n, tpa));
            assert(neg_part.contains(v));
        }
    }
    assert forall|i: int| 0 <= i < 1024 implies !spec_extension_decoded(pos, neg, tpa).contains(
        #[trigger] spec_default_start_i32(i, tpa),
    ) by {
        let v = spec_default_start_i32(i, tpa);
        lemma_concat_contains(pos_part, neg_part, v);
        lemma_pos_prefix_contains(pos, 7168, tpa, v);
        lemma_neg_prefix_contains(neg, 7168, tpa, v);
        lemma_offset_value_in_range(i - 512, tpa);
        if pos_part.contains(v) {
            let m = choose|m: int|
                0 <= m < 7168 && spec_chunk_bit(pos, m) && v == spec_pos_start(m, tpa);
            lemma_offset_value_in_range(spec_pos_offset(m), tpa);
            lemma_mul_injective(i - 512, spec_pos_offset(m), tpa);
            assert(false);
        }
        if neg_part.contains(v) {
            let m = choose|m: int|
                0 <= m < 7168 && spec_chunk_bit(neg, m) && v == spec_neg_start(m, tpa);
            lemma_offset_value_in_range(spec_neg_offset(m), tpa);
            lemma_mul_injective(spec_neg_offset(m), i - 512, tpa);
            assert(false);
        }
    }
}

/// Two different negative-side bits encode two different offsets: the
/// chunk and reversed bit position are recovered uniquely from the offset.
proof fn lemma_neg_offset_injective(m: int, n: int)
    requires
        0 <= m < 7168,
        0 <= n < 7168,
        m != n,
    ensures
        spec_neg_offset(m) != spec_neg_offset(n),
{
    lemma_div_range(m, 512, 14);
    lemma_div_range(n, 512, 14);
    if m / 512 == n / 512 {
        vstd::arithmetic::div_mod::lemma_fundamental_div_mod(m, 512);
        vstd::arithmetic::div_mod::lemma_fundamental_div_mod(n, 512);
        assert(m % 512 != n % 512);
    } else {
        assert((m % 512) - 512 * (m / 512) != (n % 512) - 512 * (n / 512)) by (nonlinear_arith)
            requires
                0 <= m % 512 < 512,
                0 <= n % 512 < 512,
                m / 512 != n / 512,
        ;
    }
}

/// Low `n` bits of two words that agree bitwise below `n` are equal.
proof fn lemma_low_bits_eq(x: u64, y: u64, n: u64)
    requires
        n < 64,
        forall|b: u64| b < n ==> spec_word_bit(x, b) == spec_word_bit(y, b),
    ensures
        x & (((1u64 << n) - 1) as u64) == y & (((1u64 << n) - 1) as u64),
    decreases n,
{
    if n == 0 {
        assert(x & (((1u64 << 0u64) - 1) as u64) == y & (((1u64 << 0u64) - 1) as u64)) by (bit_vector);
    } else {
        lemma_low_bits_eq(x, y, (n - 1) as u64);
        let k: u64 = (n - 1) as u64;
        assert(spec_word_bit(x, k) == spec_word_bit(y, k));
        assert((x >> k) & 1 == 0 || (x >> k) & 1 == 1) by (bit_vector);
        assert((y >> k) & 1 == 0 || (y >> k) & 1 == 1) by (bit_vector);
        assert(x & (((1u64 << n) - 1) as u64) == y & (((1u64 << n) - 1) as u64)) by (bit_vector)
            requires
                1 <= n < 64,
                x & (((1u64 << (n - 1) as u64) - 1) as u64) == y & (((1u64 << (n - 1) as u64) - 1) as u64),
                (x >> (n - 1) as u64) & 1 == (y >> (n - 1) as u64) & 1,
        ;
    }
}

/// Two words that agree on every bit are the same word.
pub proof fn lemma_word_bits_eq(x: u64, y: u64)
    requires
        forall|b: u64| b < 64 ==> spec_word_bit(x, b) == spec_word_bit(y, b),
    ensures
        x == y,
{
    lemma_low_bits_eq(x, y, 63);
    assert(spec_word_bit(x, 63) == spec_word_bit(y, 63));
    assert((x >> 63u64) & 1 == 0 || (x >> 63u64) & 1 == 1) by (bit_vector);
    assert((y >> 63u64) & 1 == 0 || (y >> 63u64) & 1 == 1) by (bit_vector);
    assert(x == y) by (bit_vector)
        requires
            x & (((1u64 << 63u64) - 1) as u64) == y & (((1u64 << 63u64) - 1) as u64),
            (x >> 63u64) & 1 == (y >> 63u64) & 1,
    ;
}

/// Bit patterns that satisfy the encoder's contract for the decoded
/// extension sequence are the original extension bitmap itself, chunk for
/// chunk on both sides, with an all-zero default tier: the word-level form
/// of the encode-after-decode round trip.
pub proof fn lemma_encode_of_decoded_is_identity(
    pos: Seq<[u64; 8]>,
    neg: Seq<[u64; 8]>,
    tpa: int,
    enc_default: Seq<u64>,
    enc_pos: Seq<[u64; 8]>,
    enc_neg: Seq<[u64; 8]>,
)
    requires
        pos.len() == 14,
        neg.len() == 14,
        enc_default.len() == 16,
        enc_pos.len() == 14,
        enc_neg.len() == 14,
        60 <= tpa,
        7680 * tpa <= 2147483648,
        forall|i: int|
            0 <= i < 1024 ==> (spec_default_bit(enc_default, i) <==> spec_extension_decoded(
                pos,
                neg,
                tpa,
            ).contains(#[trigger] spec_default_start_i32(i, tpa))),
        forall|n: int|
            0 <= n < 7168 ==> (spec_chunk_bit(enc_pos, n) <==> spec_extension_decoded(
                pos,
                neg,
                tpa,
            ).contains(#[trigger] spec_pos_start(n, tpa))),
        forall|n: int|
            0 <= n < 7168 ==> (spec_chunk_bit(enc_neg, n) <==> spec_extension_decoded(
                pos,
                neg,
                tpa,
            ).contains(#[trigger] spec_neg_start(n, tpa))),
    ensures
        forall|w: int| 0 <= w < 16 ==> enc_default[w] == 0u64,
        forall|c: int| 0 <= c < 14 ==> enc_pos[c] == pos[c],
        forall|c: int| 0 <= c < 14 ==> enc_neg[c] == neg[c],
{
    lemma_extension_round_trip(pos, neg, tpa);
    lemma_zero_word_bits();
    assert forall|w: int| 0 <= w < 16 implies enc_default[w] == 0u64 by {
        assert forall|k: u64| k < 64 implies spec_word_bit(enc_default[w], k) == spec_word_bit(
            0u64,
            k,
        ) by {
            lemma_split_index(w, k as int, 64);
            assert(spec_default_bit(enc_default, w * 64 + k) == spec_word_bit(enc_default[w], k));
            assert(!spec_extension_decoded(pos, neg, tpa).contains(
                spec_default_start_i32(w * 64 + k, tpa),
            ));
        }
        lemma_word_bits_eq(enc_default[w], 0u64);
    }
    assert forall|c: int| 0 <= c < 14 implies enc_pos[c] == pos[c] by {
        assert forall|w: int| 0 <= w < 8 implies enc_pos[c]@[w] == pos[c]@[w] by {
            assert forall|k: u64| k < 64 implies spec_word_bit(enc_pos[c]@[w], k) == spec_word_bit(
                pos[c]@[w],
                k,
            ) by {
                let n = c * 512 + w * 64 + k;
                lemma_split_index(c, w * 64 + k as int, 512);
                lemma_split_index(w, k as int, 64);
                assert(spec_chunk_bit(enc_pos, n) == spec_word_bit(enc_pos[c]@[w], k));
                assert(spec_chunk_bit(pos, n) == spec_word_bit(pos[c]@[w], k));
                assert(spec_extension_decoded(pos, neg, tpa).contains(spec_pos_start(n, tpa))
                    == spec_chunk_bit(pos, n));
            }
            lemma_word_bits_eq(enc_pos[c]@[w], pos[c]@[w]);
        }
        assert(enc_pos[c] =~= pos[c]);
    }
    assert forall|c: int| 0 <= c < 14 implies enc_neg[c] == neg[c] by {
        assert forall|w: int| 0 <= w < 8 implies enc_neg[c]@[w] == neg[c]@[w] by {
            assert forall|k: u64| k < 64 implies spec_word_bit(enc_neg[c]@[w], k) == spec_word_bit(
                neg[c]@[w],
                k,
            ) by {
                let n = c * 512 + w * 64 + k;
                lemma_split_index(c, w * 64 + k as int, 512);
                lemma_split_index(w, k as int, 64);
                assert(spec_chunk_bit(enc_neg, n) == spec_word_bit(enc_neg[c]@[w], k));
                assert(spec_chunk_bit(neg, n) == spec_word_bit(neg[c]@[w], k));
                assert(spec_extension_decoded(pos, neg, tpa).contains(spec_neg_start(n, tpa))
                    == spec_chunk_bit(neg, n));
            }
            lemma_word_bits_eq(enc_neg[c]@[w], neg[c]@[w]);
        }
        assert(enc_neg[c] =~= neg[c]);
    }
}

} // verus!
