//! First-occurrence search of a byte pattern with an optional single-byte
//! wildcard, using the bit-parallel BNDM scan over a 64-bit word.
use vstd::prelude::*;

verus! {

pub const MASKS_TABLE_SIZE: usize = 256;

pub const WORD_SIZE_IN_BITS: usize = 64;

/// Bit `b` of `x`.
pub open spec fn bit_of(x: u64, b: u64) -> bool {
    (x >> b) & 1u64 == 1u64
}

/// A pattern byte `p` accepts the source byte `s`.
pub open spec fn byte_matches(p: u8, s: u8, wildcard: Option<u8>) -> bool {
    p == s || wildcard == Some(p)
}

/// `len` pattern bytes from `p0` accept the `len` source bytes from `s0`.
pub open spec fn factor_matches(
    source: Seq<u8>,
    s0: int,
    pattern: Seq<u8>,
    p0: int,
    len: int,
    wildcard: Option<u8>,
) -> bool {
    forall|t: int|
        0 <= t < len ==> byte_matches(#[trigger] pattern[p0 + t], source[s0 + t], wildcard)
}

/// The whole pattern occurs in `source` at index `i`.
pub open spec fn matches_at(source: Seq<u8>, pattern: Seq<u8>, wildcard: Option<u8>, i: int) -> bool {
    &&& 0 <= i
    &&& i + pattern.len() <= source.len()
    &&& factor_matches(source, i, pattern, 0, pattern.len() as int, wildcard)
}

/// `i` is the smallest index at which the pattern occurs.
pub open spec fn is_first_match(
    source: Seq<u8>,
    pattern: Seq<u8>,
    wildcard: Option<u8>,
    i: int,
) -> bool {
    &&& matches_at(source, pattern, wildcard, i)
    &&& forall|k: int| 0 <= k < i ==> !matches_at(source, pattern, wildcard, k)
}

/// What a search of a non-empty pattern returns; an empty pattern is never found.
pub open spec fn search_result(
    source: Seq<u8>,
    pattern: Seq<u8>,
    wildcard: Option<u8>,
    r: Option<usize>,
) -> bool {
    match r {
        Some(i) => pattern.len() > 0 && is_first_match(source, pattern, wildcard, i as int),
        None => pattern.len() == 0 || forall|k: int| !matches_at(source, pattern, wildcard, k),
    }
}

/// Number of leading pattern bytes that take part in the bit-parallel scan.
pub open spec fn window_len(n: int) -> int {
    if n < WORD_SIZE_IN_BITS as int {
        n
    } else {
        WORD_SIZE_IN_BITS as int
    }
}

/// Bit `b` of the mask of source byte `c`: position `m - 1 - b` of the pattern accepts `c`.
pub open spec fn mask_bit(pattern: Seq<u8>, wildcard: Option<u8>, c: u8, b: u64) -> bool {
    let m = window_len(pattern.len() as int);
    (b as int) < m && byte_matches(pattern[m - 1 - b], c, wildcard)
}

/// Bits of the wildcard mask built from the first `k` pattern bytes.
pub open spec fn wildcard_bit(pattern: Seq<u8>, wildcard: Option<u8>, k: int, b: u64) -> bool {
    (b as int) < k && wildcard == Some(pattern[k - 1 - b])
}

/// `d` holds, for every pattern factor of length `len` ending inside the window,
/// whether it accepts the `len` source bytes from `s0`.
pub open spec fn window_bits(
    d: u64,
    source: Seq<u8>,
    pattern: Seq<u8>,
    wildcard: Option<u8>,
    s0: int,
    len: int,
    m: int,
) -> bool {
    forall|b: u64|
        b < 64 ==> (#[trigger] bit_of(d, b) <==> ((b as int) < m && (b as int) >= len - 1
            && factor_matches(source, s0, pattern, m - 1 - b, len, wildcard)))
}

pub struct BndmConfig {
    pub masks: Vec<u64>,
    pub wildcard: Option<u8>,
    pub pattern: Vec<u8>,
}

impl BndmConfig {
    /// The mask table agrees with the pattern and the wildcard.
    pub open spec fn wf(&self) -> bool {
        &&& self.masks@.len() == MASKS_TABLE_SIZE
        &&& forall|c: u8, b: u64|
            b < 64 ==> (#[trigger] bit_of(self.masks@[c as int], b) <==> mask_bit(
                self.pattern@,
                self.wildcard,
                c,
                b,
            ))
    }

    pub fn new(search_pattern: &[u8], wildcard: Option<u8>) -> (r: BndmConfig)
        ensures
            r.wf(),
            r.pattern@ == search_pattern@,
            r.wildcard == wildcard,
    {
        let len = get_pattern_length_within_cpu_word(search_pattern.len());
        let masks = generate_masks(search_pattern, len, wildcard);
        let mut pattern: Vec<u8> = Vec::new();
        let mut k: usize = 0;
        while k < search_pattern.len()
            invariant
                k <= search_pattern@.len(),
                pattern@ == search_pattern@.subrange(0, k as int),
            decreases search_pattern@.len() - k,
        {
            pattern.push(search_pattern[k]);
            k += 1;
        }
        assert(pattern@ == search_pattern@);
        BndmConfig { masks, wildcard, pattern }
    }
}

proof fn lemma_bit_zero(b: u64)
    requires
        b < 64,
    ensures
        !bit_of(0u64, b),
{
    assert(((0u64 >> b) & 1u64) != 1u64) by (bit_vector)
        requires
            b < 64,
    ;
}

proof fn lemma_bit_shl_and(d: u64, x: u64, b: u64)
    requires
        b < 64,
    ensures
        bit_of((d << 1u64) & x, b) <==> (b > 0 && bit_of(d, (b - 1) as u64) && bit_of(x, b)),
{
    if b == 0 {
        assert((((d << 1u64) & x) >> 0u64) & 1u64 != 1u64) by (bit_vector);
    } else {
        let c = (b - 1) as u64;
        assert(((((d << 1u64) & x) >> b) & 1u64 == 1u64) <==> (((d >> c) & 1u64 == 1u64) && ((x
            >> b) & 1u64 == 1u64))) by (bit_vector)
            requires
                0 < b < 64,
                c == b - 1,
        ;
    }
}

proof fn lemma_bit_shl_or(x: u64, y: u64, b: u64)
    requires
        b < 64,
        y <= 1,
    ensures
        bit_of((x << 1u64) | y, b) <==> (if b == 0 {
            y == 1
        } else {
            bit_of(x, (b - 1) as u64)
        }),
{
    if b == 0 {
        assert(((((x << 1u64) | y) >> 0u64) & 1u64 == 1u64) <==> (y == 1u64)) by (bit_vector)
            requires
                y <= 1,
        ;
    } else {
        let c = (b - 1) as u64;
        assert(((((x << 1u64) | y) >> b) & 1u64 == 1u64) <==> ((x >> c) & 1u64 == 1u64))
            by (bit_vector)
            requires
                0 < b < 64,
                c == b - 1,
                y <= 1,
        ;
    }
}

proof fn lemma_bit_or_single(x: u64, t: u64, b: u64)
    requires
        b < 64,
        t < 64,
    ensures
        bit_of(x | (1u64 << t), b) <==> (bit_of(x, b) || b == t),
{
    assert((((x | (1u64 << t)) >> b) & 1u64 == 1u64) <==> (((x >> b) & 1u64 == 1u64) || b == t))
        by (bit_vector)
        requires
            b < 64,
            t < 64,
    ;
}

proof fn lemma_bit_test(d: u64, t: u64)
    requires
        t < 64,
    ensures
        ((d & (1u64 << t)) != 0) <==> bit_of(d, t),
{
    assert(((d & (1u64 << t)) != 0u64) <==> ((d >> t) & 1u64 == 1u64)) by (bit_vector)
        requires
            t < 64,
    ;
}

/// One more source byte, read in front of the window, extends every factor by one.
proof fn lemma_window_step(
    d: u64,
    x: u64,
    source: Seq<u8>,
    pattern: Seq<u8>,
    wildcard: Option<u8>,
    s0: int,
    len: int,
    m: int,
)
    requires
        window_bits(d, source, pattern, wildcard, s0, len, m),
        1 <= len < m <= 64,
        1 <= s0,
        m <= pattern.len(),
        forall|b: u64|
            b < 64 ==> (#[trigger] bit_of(x, b) <==> ((b as int) < m && byte_matches(
                pattern[m - 1 - b],
                source[s0 - 1],
                wildcard,
            ))),
    ensures
        window_bits((d << 1u64) & x, source, pattern, wildcard, s0 - 1, len + 1, m),
{
    let nd = (d << 1u64) & x;
    assert forall|b: u64| b < 64 implies (#[trigger] bit_of(nd, b) <==> ((b as int) < m && (b as int)
        >= len && factor_matches(source, s0 - 1, pattern, m - 1 - b, len + 1, wildcard))) by {
        lemma_bit_shl_and(d, x, b);
        if b > 0 {
            let c = (b - 1) as u64;
            assert(bit_of(d, c) <==> ((c as int) < m && (c as int) >= len - 1 && factor_matches(
                source,
                s0,
                pattern,
                m - 1 - c,
                len,
                wildcard,
            )));
            let p = m - 1 - b;
            if (b as int) < m && (b as int) >= len {
                if factor_matches(source, s0 - 1, pattern, p, len + 1, wildcard) {
                    assert(byte_matches(pattern[p + 0], source[s0 - 1 + 0], wildcard));
                    assert forall|t: int| 0 <= t < len implies byte_matches(
                        #[trigger] pattern[p + 1 + t],
                        source[s0 + t],
                        wildcard,
                    ) by {
                        assert(byte_matches(pattern[p + (t + 1)], source[s0 - 1 + (t + 1)], wildcard));
                        assert(p + (t + 1) == p + 1 + t);
                    }
                    assert(factor_matches(source, s0, pattern, m - 1 - c, len, wildcard));
                }
                if bit_of(d, c) && bit_of(x, b) {
                    assert(factor_matches(source, s0, pattern, p + 1, len, wildcard));
                    assert forall|t: int| 0 <= t < len + 1 implies byte_matches(
                        #[trigger] pattern[p + t],
                        source[s0 - 1 + t],
                        wildcard,
                    ) by {
                        if t > 0 {
                            assert(byte_matches(pattern[p + 1 + (t - 1)], source[s0 + (t - 1)], wildcard));
                        }
                    }
                }
            }
        }
    }
}

pub fn get_pattern_length_within_cpu_word(search_pattern_length: usize) -> (r: usize)
    ensures
        r as int == window_len(search_pattern_length as int),
{
    if search_pattern_length < WORD_SIZE_IN_BITS {
        search_pattern_length
    } else {
        WORD_SIZE_IN_BITS
    }
}

/// The mask whose bit `len - 1 - j` is set where byte `j` of the window is the wildcard.
pub fn calculate_wildcard_mask(search_pattern: &[u8], len: usize, wildcard: Option<u8>) -> (r: u64)
    requires
        len <= search_pattern@.len(),
        len <= 64,
    ensures
        forall|b: u64| b < 64 ==> (#[trigger] bit_of(r, b) <==> wildcard_bit(search_pattern@, wildcard, len as int, b)),
{
    let mut mask: u64 = 0;
    let mut k: usize = 0;
    assert forall|b: u64| b < 64 implies !#[trigger] bit_of(mask, b) by {
        lemma_bit_zero(b);
    }
    while k < len
        invariant
            k <= len <= search_pattern@.len(),
            len <= 64,
            forall|b: u64| b < 64 ==> (#[trigger] bit_of(mask, b) <==> wildcard_bit(search_pattern@, wildcard, k as int, b)),
        decreases len - k,
    {
        let is_wildcard: u64 = match wildcard {
            Some(w) => if search_pattern[k] == w { 1 } else { 0 },
            None => 0,
        };
        let old_mask = mask;
        mask = (mask << 1u64) | is_wildcard;
        assert forall|b: u64| b < 64 implies (#[trigger] bit_of(mask, b) <==> wildcard_bit(search_pattern@, wildcard, k + 1, b)) by {
            lemma_bit_shl_or(old_mask, is_wildcard, b);
            if b > 0 {
                let c = (b - 1) as u64;
                assert(bit_of(old_mask, c) <==> wildcard_bit(search_pattern@, wildcard, k as int, c));
                assert(k + 1 - 1 - b == k - 1 - c);
            }
        }
        k += 1;
    }
    mask
}

/// The table of 256 masks of the first `len` pattern bytes.
pub fn generate_masks(search_pattern: &[u8], len: usize, wildcard: Option<u8>) -> (masks: Vec<u64>)
    requires
        len as int == window_len(search_pattern@.len() as int),
    ensures
        masks@.len() == MASKS_TABLE_SIZE,
        forall|c: u8, b: u64|
            b < 64 ==> (#[trigger] bit_of(masks@[c as int], b) <==> mask_bit(search_pattern@, wildcard, c, b)),
{
    let default_mask = calculate_wildcard_mask(search_pattern, len, wildcard);
    let mut masks: Vec<u64> = Vec::new();
    let mut c: usize = 0;
    while c < MASKS_TABLE_SIZE
        invariant
            c <= MASKS_TABLE_SIZE,
            masks@.len() == c,
            forall|i: int| 0 <= i < c ==> masks@[i] == default_mask,
        decreases MASKS_TABLE_SIZE - c,
    {
        masks.push(default_mask);
        c += 1;
    }
    let ghost pat = search_pattern@;
    let ghost m = len as int;
    let mut j: usize = 0;
    while j < len
        invariant
            len as int == window_len(pat.len() as int),
            m == len,
            pat == search_pattern@,
            j <= len,
            masks@.len() == MASKS_TABLE_SIZE,
            forall|c: u8, b: u64|
                b < 64 ==> (#[trigger] bit_of(masks@[c as int], b) <==> ((b as int) < m && (
                wildcard == Some(pat[m - 1 - b]) || (m - 1 - b < j && pat[m - 1 - b] == c)))),
        decreases len - j,
    {
        let byte = search_pattern[j];
        let t: u64 = (len - 1 - j) as u64;
        let ghost old_masks = masks@;
        let updated = masks[byte as usize] | (1u64 << t);
        masks.set(byte as usize, updated);
        assert forall|c: u8, b: u64| b < 64 implies (#[trigger] bit_of(masks@[c as int], b) <==> ((b as int) < m && (
            wildcard == Some(pat[m - 1 - b]) || (m - 1 - b < j + 1 && pat[m - 1 - b] == c)))) by {
            if c == byte {
                lemma_bit_or_single(old_masks[c as int], t, b);
            } else {
                assert(masks@[c as int] == old_masks[c as int]);
            }
        }
        j += 1;
    }
    masks
}

fn get_mask(source: &[u8], config: &BndmConfig, index: usize) -> (r: u64)
    requires
        config.wf(),
        index < source@.len(),
    ensures
        forall|b: u64| b < 64 ==> (#[trigger] bit_of(r, b) <==> mask_bit(config.pattern@, config.wildcard, source@[index as int], b)),
{
    config.masks[source[index] as usize]
}

/// The pattern bytes past the scanned word accept the source bytes at the same
/// distance from `start_index`.
fn find_remaining(source: &[u8], config: &BndmConfig, start_index: usize) -> (r: bool)
    requires
        start_index + config.pattern@.len() <= source@.len(),
    ensures
        r <==> forall|k: int| WORD_SIZE_IN_BITS <= k < config.pattern@.len() ==> byte_matches(
            #[trigger] config.pattern@[k],
            source@[start_index + k],
            config.wildcard,
        ),
{
    let mut k: usize = WORD_SIZE_IN_BITS;
    while k < config.pattern.len()
        invariant
            WORD_SIZE_IN_BITS <= k,
            start_index + config.pattern@.len() <= source.len(),
            forall|q: int| WORD_SIZE_IN_BITS <= q < k && q < config.pattern@.len() ==> byte_matches(
                #[trigger] config.pattern@[q],
                source@[start_index + q],
                config.wildcard,
            ),
        decreases config.pattern@.len() - k,
    {
        let pattern_byte = config.pattern[k];
        let source_byte = source[start_index + k];
        let accepted = pattern_byte == source_byte || match config.wildcard {
            Some(w) => pattern_byte == w,
            None => false,
        };
        if !accepted {
            return false;
        }
        k += 1;
    }
    true
}

/// Returns the smallest index at which the pattern occurs in `source`.
pub fn find_pattern(source: &[u8], config: &BndmConfig) -> (r: Option<usize>)
    requires
        config.wf(),
    ensures
        search_result(source@, config.pattern@, config.wildcard, r),
{
    let n = config.pattern.len();
    if n == 0 {
        None
    } else if n == 1 {
        find_single_byte(source, config)
    } else {
        find_pattern_bndm(source, config)
    }
}

fn find_single_byte(source: &[u8], config: &BndmConfig) -> (r: Option<usize>)
    requires
        config.pattern@.len() == 1,
    ensures
        search_result(source@, config.pattern@, config.wildcard, r),
{
    let p = config.pattern[0];
    let any_byte = match config.wildcard {
        Some(w) => w == p,
        None => false,
    };
    let mut i: usize = 0;
    while i < source.len()
        invariant
            i <= source@.len(),
            config.pattern@.len() == 1,
            p == config.pattern@[0],
            any_byte == (config.wildcard == Some(p)),
            forall|k: int| 0 <= k < i ==> !matches_at(source@, config.pattern@, config.wildcard, k),
        decreases source@.len() - i,
    {
        if any_byte || source[i] == p {
            assert(byte_matches(config.pattern@[0], source@[i + 0], config.wildcard));
            return Some(i);
        }
        assert(!byte_matches(config.pattern@[0], source@[i + 0], config.wildcard));
        assert(!matches_at(source@, config.pattern@, config.wildcard, i as int)) by {
            let t: int = 0;
            if matches_at(source@, config.pattern@, config.wildcard, i as int) {
                assert(byte_matches(config.pattern@[0 + t], source@[i + t], config.wildcard));
            }
        }
        i += 1;
    }
    None
}

fn find_pattern_bndm(source: &[u8], config: &BndmConfig) -> (r: Option<usize>)
    requires
        config.wf(),
        config.pattern@.len() >= 2,
    ensures
        search_result(source@, config.pattern@, config.wildcard, r),
{
    let n = config.pattern.len();
    if n > source.len() {
        return None;
    }
    let ghost src = source@;
    let ghost pat = config.pattern@;
    let ghost w = config.wildcard;
    let m = get_pattern_length_within_cpu_word(n);
    let len = m - 1;
    let end = source.len() - n;
    let df: u64 = 1u64 << (len as u64);
    let mut i: usize = 0;

    while i <= end
        invariant
            config.wf(),
            src == source@,
            pat == config.pattern@,
            w == config.wildcard,
            n == pat.len(),
            2 <= m <= 64,
            m as int == window_len(n as int),
            len == m - 1,
            end == src.len() - n,
            df == 1u64 << (len as u64),
            forall|k: int| 0 <= k < i ==> !matches_at(src, pat, w, k),
            i <= src.len(),
            src.len() == source.len(),
        decreases src.len() - i,
    {
        let mut j: usize = len;
        let mut last: usize = len;
        assert(i + len < src.len());
        let d0 = get_mask(source, config, i + j);
        assert(window_bits(d0, src, pat, w, i + len, 1, m as int)) by {
            assert forall|b: u64| b < 64 implies (#[trigger] bit_of(d0, b) <==> ((b as int) < m && (b as int) >= 1 - 1
                && factor_matches(src, i + len, pat, m - 1 - b, 1, w))) by {
                if (b as int) < m {
                    if factor_matches(src, i + len, pat, m - 1 - b, 1, w) {
                        assert(byte_matches(pat[m - 1 - b + 0], src[i + len + 0], w));
                    }
                    if bit_of(d0, b) {
                        assert forall|t: int| 0 <= t < 1 implies byte_matches(#[trigger] pat[m - 1 - b + t], src[i + len + t], w) by {
                            assert(t == 0);
                        }
                    }
                }
            }
        }
        let x0 = get_mask(source, config, i + j - 1);
        proof {
            lemma_window_step(d0, x0, src, pat, w, i + len, 1, m as int);
        }
        let mut d: u64 = (d0 << 1u64) & x0;

        loop
            invariant_except_break
                1 <= j <= last <= len,
                window_bits(d, src, pat, w, i + j - 1, m - j + 1, m as int),
                forall|k: int| j <= k < last ==> !#[trigger] matches_at(src, pat, w, i + k),
            invariant
                config.wf(),
                src == source@,
                pat == config.pattern@,
                w == config.wildcard,
                n == pat.len(),
                2 <= m <= 64,
                m as int == window_len(n as int),
                len == m - 1,
                i <= end,
                end == src.len() - n,
                df == 1u64 << (len as u64),
                forall|k: int| 0 <= k < i ==> !matches_at(src, pat, w, k),
                src.len() == source.len(),
            ensures
                1 <= last <= len,
                forall|k: int| 0 <= k < last ==> !#[trigger] matches_at(src, pat, w, i + k),
            decreases j,
        {
            if d == 0 {
                assert forall|k: int| 0 <= k < j implies !#[trigger] matches_at(src, pat, w, i + k) by {
                    // A match at i + k would leave a bit of d set.
                    if matches_at(src, pat, w, i + k) {
                        let b = (m - j + k) as u64;
                        lemma_bit_zero(b);
                        assert forall|t: int| 0 <= t < m - j + 1 implies byte_matches(
                            #[trigger] pat[m - 1 - b + t],
                            src[i + j - 1 + t],
                            w,
                        ) by {
                            assert(byte_matches(pat[0 + (j - 1 - k + t)], src[i + k + (j - 1 - k + t)], w));
                        }
                    }
                }
                break;
            }
            j -= 1;
            proof {
                lemma_bit_test(d, len as u64);
            }
            if d & df != 0 {
                // The pattern's first m - j bytes accept the window from i + j.
                assert(factor_matches(src, i + j, pat, 0, m - j, w));
                if j == 0 {
                    if find_remaining(source, config, i) {
                        assert(matches_at(src, pat, w, i as int)) by {
                            assert forall|t: int| 0 <= t < n implies byte_matches(#[trigger] pat[0 + t], src[i + t], w) by {
                                if t < m {
                                    assert(byte_matches(pat[0 + t], src[i + j + t], w));
                                } else {
                                    assert(byte_matches(pat[t], src[i + t], w));
                                }
                            }
                        }
                        return Some(i);
                    }
                    assert(!matches_at(src, pat, w, i as int)) by {
                        if matches_at(src, pat, w, i as int) {
                            assert forall|k: int| WORD_SIZE_IN_BITS <= k < n implies byte_matches(
                                #[trigger] pat[k],
                                src[i + k],
                                w,
                            ) by {
                                assert(byte_matches(pat[0 + k], src[i + k], w));
                            }
                        }
                    }
                    last = 1;
                    break;
                }
                last = j;
            } else {
                assert(!matches_at(src, pat, w, i + j)) by {
                    if matches_at(src, pat, w, i + j) {
                        assert forall|t: int| 0 <= t < m - j implies byte_matches(
                            #[trigger] pat[m - 1 - len + t],
                            src[i + j + t],
                            w,
                        ) by {
                            assert(byte_matches(pat[0 + t], src[i + j + t], w));
                        }
                    }
                }
                if j == 0 {
                    break;
                }
            }
            let x = get_mask(source, config, i + j - 1);
            proof {
                lemma_window_step(d, x, src, pat, w, i + j, m - j, m as int);
            }
            d = (d << 1u64) & x;
        }
        assert forall|k: int| 0 <= k < i + last implies !matches_at(src, pat, w, k) by {
            if k >= i {
                assert(!matches_at(src, pat, w, i + (k - i)));
            }
        }
        i += last;
    }
    None
}

/// A reported index is an occurrence: every source byte from it equals the pattern
/// byte at the same distance, or that pattern byte is the wildcard; no smaller index
/// is an occurrence.
pub proof fn lemma_found_is_first_occurrence(
    source: Seq<u8>,
    pattern: Seq<u8>,
    wildcard: Option<u8>,
    i: usize,
)
    requires
        search_result(source, pattern, wildcard, Some(i)),
    ensures
        i + pattern.len() <= source.len(),
        forall|k: int|
            0 <= k < pattern.len() ==> source[i + k] == #[trigger] pattern[k] || wildcard == Some(
                pattern[k],
            ),
        forall|j: int| 0 <= j < i ==> !matches_at(source, pattern, wildcard, j),
{
    assert forall|k: int| 0 <= k < pattern.len() implies source[i + k] == #[trigger] pattern[k]
        || wildcard == Some(pattern[k]) by {
        assert(byte_matches(pattern[0 + k], source[i + k], wildcard));
    }
}

/// An empty pattern is never found.
pub proof fn lemma_empty_pattern_not_found(
    source: Seq<u8>,
    pattern: Seq<u8>,
    wildcard: Option<u8>,
    r: Option<usize>,
)
    requires
        search_result(source, pattern, wildcard, r),
        pattern.len() == 0,
    ensures
        r is None,
{
}

/// A pattern longer than the source is never found.
pub proof fn lemma_long_pattern_not_found(
    source: Seq<u8>,
    pattern: Seq<u8>,
    wildcard: Option<u8>,
    r: Option<usize>,
)
    requires
        search_result(source, pattern, wildcard, r),
        pattern.len() > source.len(),
    ensures
        r is None,
{
}

proof fn lemma_matches_shifted(
    prefix: Seq<u8>,
    source: Seq<u8>,
    pattern: Seq<u8>,
    wildcard: Option<u8>,
    k: int,
)
    requires
        0 <= k,
    ensures
        matches_at(source, pattern, wildcard, k) <==> matches_at(
            prefix + source,
            pattern,
            wildcard,
            k + prefix.len(),
        ),
{
    let whole = prefix + source;
    if matches_at(source, pattern, wildcard, k) {
        assert forall|t: int| 0 <= t < pattern.len() implies byte_matches(
            #[trigger] pattern[0 + t],
            whole[k + prefix.len() + t],
            wildcard,
        ) by {
            assert(whole[k + prefix.len() + t] == source[k + t]);
        }
    }
    if matches_at(whole, pattern, wildcard, k + prefix.len()) {
        assert forall|t: int| 0 <= t < pattern.len() implies byte_matches(
            #[trigger] pattern[0 + t],
            source[k + t],
            wildcard,
        ) by {
            assert(whole[k + prefix.len() + t] == source[k + t]);
        }
    }
}

/// Putting in front of the source a prefix at which no occurrence starts moves the
/// first occurrence by the prefix's length, and keeps a missing one missing.
pub proof fn lemma_search_after_prefix(
    prefix: Seq<u8>,
    source: Seq<u8>,
    pattern: Seq<u8>,
    wildcard: Option<u8>,
    i: int,
)
    requires
        forall|k: int| 0 <= k < prefix.len() ==> !matches_at(prefix + source, pattern, wildcard, k),
    ensures
        is_first_match(source, pattern, wildcard, i) <==> is_first_match(
            prefix + source,
            pattern,
            wildcard,
            i + prefix.len(),
        ),
        (forall|k: int| !matches_at(source, pattern, wildcard, k)) <==> (forall|k: int|
            !matches_at(prefix + source, pattern, wildcard, k)),
{
    let whole = prefix + source;
    let n = prefix.len() as int;
    assert forall|k: int| 0 <= k implies (matches_at(source, pattern, wildcard, k) <==> #[trigger] matches_at(whole, pattern, wildcard, k + n)) by {
        lemma_matches_shifted(prefix, source, pattern, wildcard, k);
    }
    if is_first_match(source, pattern, wildcard, i) {
        assert forall|k: int| 0 <= k < i + n implies !matches_at(whole, pattern, wildcard, k) by {
            if k >= n {
                assert(matches_at(whole, pattern, wildcard, (k - n) + n) == matches_at(source, pattern, wildcard, k - n));
            }
        }
    }
    if is_first_match(whole, pattern, wildcard, i + n) {
        assert(matches_at(whole, pattern, wildcard, i + n));
        assert(i >= 0);
        assert forall|k: int| 0 <= k < i implies !matches_at(source, pattern, wildcard, k) by {
            assert(!matches_at(whole, pattern, wildcard, k + n));
        }
    }
    if forall|k: int| !matches_at(source, pattern, wildcard, k) {
        assert forall|k: int| !matches_at(whole, pattern, wildcard, k) by {
            if k >= n {
                assert(matches_at(whole, pattern, wildcard, (k - n) + n) == matches_at(source, pattern, wildcard, k - n));
            }
        }
    }
    if forall|k: int| !matches_at(whole, pattern, wildcard, k) {
        assert forall|k: int| !matches_at(source, pattern, wildcard, k) by {
            if k >= 0 {
                assert(!matches_at(whole, pattern, wildcard, k + n));
            }
        }
    }
}

} // verus!
