//! Signatures: named sequences of sub-patterns, how they are built from the
//! configuration text and how they are searched for in a file's bytes.
use vstd::prelude::*;

use crate::bndm::{find_pattern, is_first_match, matches_at, search_result, BndmConfig};
use crate::format::{
    add_signature_view, close_block, config_fold, config_header_from, end_marker, flush_lines,
    group_fold, group_step, groups_sub_patterns, hex_pair, hex_value, info_fold,
    info_header_from, info_tag_line, is_separator_word, is_wildcard_word, joined,
    min_length_line, name_line, parse_config, parse_info, split_fold, value_groups,
    value_sub_patterns, words_of, InfoView, SignatureView, SubPatternView,
};
use crate::text::{
    ascii_space, chars_of, eq_ignore_case, same_ignoring_case, string_of, trim,
    trimmed, upper, upper_code,
};

verus! {

/// The token value that stands for a wildcard position before a byte is chosen for it.
pub const CMD_WILDCARD: u16 = 0x100;

/// What a sub-pattern is: its bytes and the byte that stands for "any byte".
pub open spec fn sub_pattern_view(c: BndmConfig) -> (Seq<u8>, Option<u8>) {
    (c.pattern@, c.wildcard)
}

pub open spec fn sub_patterns_view(s: Seq<BndmConfig>) -> Seq<(Seq<u8>, Option<u8>)> {
    s.map_values(|c: BndmConfig| sub_pattern_view(c))
}

pub open spec fn all_wf(s: Seq<BndmConfig>) -> bool {
    forall|k: int| 0 <= k < s.len() ==> (#[trigger] s[k]).wf()
}

/// The smallest byte value from `v` on that the token sequence does not hold.
pub open spec fn first_unused_from(tokens: Seq<u16>, v: int) -> Option<u8>
    decreases 256 - v,
{
    if v < 0 || v >= 256 {
        None
    } else if !tokens.contains(v as u16) {
        Some(v as u8)
    } else {
        first_unused_from(tokens, v + 1)
    }
}

/// The wildcard chosen for a token sequence: the smallest byte value it does not use.
pub open spec fn chosen_wildcard(tokens: Seq<u16>) -> Option<u8> {
    first_unused_from(tokens, 0)
}

/// A token sequence becomes a sub-pattern unless it is empty, or uses `??` while
/// every byte value is taken by its literals.
pub open spec fn group_accepted(tokens: Seq<u16>) -> bool {
    tokens.len() > 0 && !(tokens.contains(CMD_WILDCARD) && chosen_wildcard(tokens) is None)
}

/// The byte a token stands for, given the chosen wildcard.
pub open spec fn token_byte(token: u16, wildcard: Option<u8>) -> u8 {
    if token == CMD_WILDCARD {
        wildcard.unwrap_or(0)
    } else {
        token as u8
    }
}

/// The bytes of the sub-pattern: each `??` replaced by the chosen wildcard.
pub open spec fn substituted(tokens: Seq<u16>) -> Seq<u8> {
    let w = chosen_wildcard(tokens);
    tokens.map_values(|token: u16| token_byte(token, w))
}

pub open spec fn tokens_in_range(tokens: Seq<u16>) -> bool {
    forall|k: int| 0 <= k < tokens.len() ==> #[trigger] tokens[k] <= CMD_WILDCARD
}

proof fn lemma_first_unused(tokens: Seq<u16>, v: int)
    requires
        0 <= v <= 256,
    ensures
        first_unused_from(tokens, v) matches Some(w) ==> v <= w && !tokens.contains(w as u16)
            && forall|u: int| v <= u < w ==> #[trigger] tokens.contains(u as u16),
        first_unused_from(tokens, v) is None ==> forall|u: int|
            v <= u < 256 ==> #[trigger] tokens.contains(u as u16),
    decreases 256 - v,
{
    if v < 256 && tokens.contains(v as u16) {
        lemma_first_unused(tokens, v + 1);
    }
}

/// The wildcard chosen for a sub-pattern is the smallest byte value that none of
/// its literals takes; there is none exactly when the literals take all 256 values.
pub proof fn lemma_wildcard_is_smallest_unused(tokens: Seq<u16>)
    ensures
        chosen_wildcard(tokens) matches Some(w) ==> !tokens.contains(w as u16) && forall|u: u8|
            u < w ==> #[trigger] tokens.contains(u as u16),
        chosen_wildcard(tokens) is None <==> forall|u: u8| #[trigger] tokens.contains(u as u16),
{
    lemma_first_unused(tokens, 0);
    if chosen_wildcard(tokens) is None {
        assert forall|u: u8| #[trigger] tokens.contains(u as u16) by {
            assert(0 <= u as int && (u as int) < 256);
            assert((u as int) as u16 == u as u16);
        }
    }
    if forall|u: u8| #[trigger] tokens.contains(u as u16) {
        if let Some(w) = chosen_wildcard(tokens) {
            assert(tokens.contains(w as u16));
        }
    }
    if let Some(w) = chosen_wildcard(tokens) {
        assert forall|u: u8| u < w implies #[trigger] tokens.contains(u as u16) by {
            assert((u as int) as u16 == u as u16);
        }
    }
}

/// A sub-pattern that uses `??` while its literals take every byte value is dropped.
pub proof fn lemma_saturated_wildcard_group_dropped(tokens: Seq<u16>)
    requires
        tokens.contains(CMD_WILDCARD),
        forall|u: u8| #[trigger] tokens.contains(u as u16),
    ensures
        !group_accepted(tokens),
{
    lemma_wildcard_is_smallest_unused(tokens);
}

pub struct SignatureConfig {
    pub bndm_configs: Vec<BndmConfig>,
    pub signature_name: String,
}

impl View for SignatureConfig {
    type V = SignatureView;

    open spec fn view(&self) -> SignatureView {
        (self.signature_name@, sub_patterns_view(self.bndm_configs@))
    }
}

impl SignatureConfig {
    /// Every sub-pattern's mask table agrees with its pattern.
    pub open spec fn wf(&self) -> bool {
        all_wf(self.bndm_configs@)
    }
}

/// The index of the first occurrence of a non-empty pattern, if any.
pub open spec fn first_match(source: Seq<u8>, pattern: Seq<u8>, wildcard: Option<u8>) -> Option<int> {
    if pattern.len() > 0 && exists|i: int| is_first_match(source, pattern, wildcard, i) {
        Some(choose|i: int| is_first_match(source, pattern, wildcard, i))
    } else {
        None
    }
}

/// The absolute offsets of the sub-patterns, each searched from the end of the
/// previous match, starting at `cursor`; `None` when one is not found.
pub open spec fn match_offsets(source: Seq<u8>, cursor: int, subs: Seq<SubPatternView>) -> Option<
    Seq<int>,
>
    decreases subs.len(),
{
    if subs.len() == 0 {
        Some(Seq::empty())
    } else if cursor < 0 || cursor > source.len() {
        None
    } else {
        match first_match(source.subrange(cursor, source.len() as int), subs[0].0, subs[0].1) {
            Some(index) => match match_offsets(
                source,
                cursor + index + subs[0].0.len(),
                subs.drop_first(),
            ) {
                Some(rest) => Some(seq![cursor + index] + rest),
                None => None,
            },
            None => None,
        }
    }
}

/// A match record as plain values: the name and the offsets.
pub open spec fn match_view(m: SignatureMatch) -> (Seq<char>, Seq<int>) {
    (m.signature_name@, m.indexes@.map_values(|x: usize| x as int))
}

pub open spec fn matches_view(s: Seq<SignatureMatch>) -> Seq<(Seq<char>, Seq<int>)> {
    s.map_values(|m: SignatureMatch| match_view(m))
}

/// The signatures that match, in order; only the first one unless `multi`.
pub open spec fn scan_signatures(
    source: Seq<u8>,
    start: int,
    sigs: Seq<SignatureView>,
    multi: bool,
) -> Seq<(Seq<char>, Seq<int>)>
    decreases sigs.len(),
{
    if sigs.len() == 0 {
        Seq::empty()
    } else {
        match match_offsets(source, start, sigs[0].1) {
            Some(offsets) => if multi {
                seq![(sigs[0].0, offsets)] + scan_signatures(source, start, sigs.drop_first(), multi)
            } else {
                seq![(sigs[0].0, offsets)]
            },
            None => scan_signatures(source, start, sigs.drop_first(), multi),
        }
    }
}

/// Consecutive records with the same name reduced to the first of them.
pub open spec fn dedup_names(m: Seq<(Seq<char>, Seq<int>)>) -> Seq<(Seq<char>, Seq<int>)>
    decreases m.len(),
{
    if m.len() == 0 {
        m
    } else {
        let d = dedup_names(m.drop_last());
        if d.len() > 0 && d.last().0 == m.last().0 {
            d
        } else {
            d.push(m.last())
        }
    }
}

proof fn lemma_first_match(source: Seq<u8>, pattern: Seq<u8>, wildcard: Option<u8>, r: Option<usize>)
    requires
        search_result(source, pattern, wildcard, r),
    ensures
        first_match(source, pattern, wildcard) == match r {
            Some(i) => Some(i as int),
            None => None::<int>,
        },
{
    if let Some(i) = r {
        assert(is_first_match(source, pattern, wildcard, i as int));
        let j = choose|j: int| is_first_match(source, pattern, wildcard, j);
        if j < i {
            assert(!matches_at(source, pattern, wildcard, j));
        } else if j > i {
            assert(!matches_at(source, pattern, wildcard, i as int));
        }
    }
}

proof fn lemma_first_match_in_range(source: Seq<u8>, pattern: Seq<u8>, wildcard: Option<u8>)
    ensures
        first_match(source, pattern, wildcard) matches Some(i) ==> is_first_match(
            source,
            pattern,
            wildcard,
            i,
        ) && 0 <= i && i + pattern.len() <= source.len(),
{
}

/// The sub-patterns of a signature are found left to right and never overlap: each
/// offset lies at or past the end of the previous match, the first at or past the
/// cursor, and every match lies inside the source.
pub proof fn lemma_offsets_ordered(source: Seq<u8>, cursor: int, subs: Seq<SubPatternView>)
    requires
        match_offsets(source, cursor, subs) is Some,
    ensures
        ({
            let o = match_offsets(source, cursor, subs)->0;
            &&& o.len() == subs.len()
            &&& o.len() > 0 ==> cursor <= o[0]
            &&& forall|k: int| 0 <= k < o.len() ==> #[trigger] o[k] + subs[k].0.len() <= source.len()
            &&& forall|k: int|
                0 <= k < o.len() - 1 ==> #[trigger] o[k + 1] >= o[k] + subs[k].0.len()
        }),
    decreases subs.len(),
{
    if subs.len() > 0 {
        let tail = source.subrange(cursor, source.len() as int);
        lemma_first_match_in_range(tail, subs[0].0, subs[0].1);
        let index = first_match(tail, subs[0].0, subs[0].1)->0;
        let next = cursor + index + subs[0].0.len();
        lemma_offsets_ordered(source, next, subs.drop_first());
        let o = match_offsets(source, cursor, subs)->0;
        let rest = match_offsets(source, next, subs.drop_first())->0;
        assert(o == seq![cursor + index] + rest);
        assert forall|k: int| 0 <= k < o.len() implies #[trigger] o[k] + subs[k].0.len() <= source.len() by {
            if k > 0 {
                assert(o[k] == rest[k - 1]);
                assert(subs[k] == subs.drop_first()[k - 1]);
            }
        }
        assert forall|k: int| 0 <= k < o.len() - 1 implies #[trigger] o[k + 1] >= o[k] + subs[k].0.len() by {
            assert(o[k + 1] == rest[k]);
            if k > 0 {
                assert(o[k] == rest[k - 1]);
                assert(subs[k] == subs.drop_first()[k - 1]);
                assert(rest[(k - 1) + 1] >= rest[k - 1] + subs.drop_first()[k - 1].0.len());
            }
        }
    }
}

/// Where the payload starts at `start` and its first occurrence of the signature's
/// first sub-pattern lies `r` bytes into it, the reported offset is `start + r`; a
/// signature of that one sub-pattern is reported at exactly that offset.
pub proof fn lemma_offset_is_payload_relative(
    source: Seq<u8>,
    start: int,
    subs: Seq<SubPatternView>,
    r: int,
)
    requires
        0 <= start <= source.len(),
        subs.len() >= 1,
        first_match(source.subrange(start, source.len() as int), subs[0].0, subs[0].1) == Some(r),
    ensures
        match_offsets(source, start, subs) matches Some(o) ==> o[0] == start + r,
        subs.len() == 1 ==> match_offsets(source, start, subs) == Some(seq![start + r]),
{
    if subs.len() == 1 {
        let tail = source.subrange(start, source.len() as int);
        lemma_first_match_in_range(tail, subs[0].0, subs[0].1);
        assert(subs.drop_first().len() == 0);
        assert(match_offsets(source, start + r + subs[0].0.len(), subs.drop_first()) == Some(
            Seq::<int>::empty(),
        ));
        assert(seq![start + r] + Seq::<int>::empty() == seq![start + r]);
    }
}

/// With only the first match asked for, exactly one record is returned when any
/// signature matches, and none otherwise.
pub proof fn lemma_single_scan_reports_one(source: Seq<u8>, start: int, sigs: Seq<SignatureView>)
    ensures
        dedup_names(scan_signatures(source, start, sigs, false)).len() == if exists|k: int|
            0 <= k < sigs.len() && (#[trigger] match_offsets(source, start, sigs[k].1)) is Some {
            1int
        } else {
            0int
        },
    decreases sigs.len(),
{
    let found = scan_signatures(source, start, sigs, false);
    if sigs.len() > 0 {
        lemma_single_scan_reports_one(source, start, sigs.drop_first());
        if match_offsets(source, start, sigs[0].1) is Some {
            assert(found.len() == 1);
            assert(found.drop_last().len() == 0);
            assert(dedup_names(found.drop_last()).len() == 0);
        } else {
            if exists|k: int| 0 <= k < sigs.len() && (#[trigger] match_offsets(source, start, sigs[k].1)) is Some {
                let k = choose|k: int| 0 <= k < sigs.len() && (#[trigger] match_offsets(source, start, sigs[k].1)) is Some;
                assert(k > 0);
                assert(sigs.drop_first()[k - 1] == sigs[k]);
            }
            if exists|k: int| 0 <= k < sigs.drop_first().len() && (#[trigger] match_offsets(source, start, sigs.drop_first()[k].1)) is Some {
                let k = choose|k: int| 0 <= k < sigs.drop_first().len() && (#[trigger] match_offsets(source, start, sigs.drop_first()[k].1)) is Some;
                assert(sigs[k + 1] == sigs.drop_first()[k]);
            }
        }
    } else {
        assert(found.len() == 0);
    }
}

pub struct SignatureMatch {
    pub signature_name: String,
    pub indexes: Vec<usize>,
}

/// An info block: the signature name and its tag lines.
pub type SignatureInfo = (String, Vec<String>);

pub open spec fn lines_view(lines: Seq<String>) -> Seq<Seq<char>> {
    lines.map_values(|l: String| l@)
}

pub open spec fn signatures_view(s: Seq<SignatureConfig>) -> Seq<SignatureView> {
    s.map_values(|c: SignatureConfig| c@)
}

pub open spec fn all_signatures_wf(s: Seq<SignatureConfig>) -> bool {
    forall|k: int| 0 <= k < s.len() ==> (#[trigger] s[k]).wf()
}

pub open spec fn info_view(info: SignatureInfo) -> InfoView {
    (info.0@, lines_view(info.1@))
}

pub open spec fn infos_view(s: Seq<SignatureInfo>) -> Seq<InfoView> {
    s.map_values(|i: SignatureInfo| info_view(i))
}

/// The block's name equals the given one up to ASCII case.
pub open spec fn same_ignoring_case_info(info: SignatureInfo, name: Seq<char>) -> bool {
    same_ignoring_case(info.0@, name)
}

pub open spec fn filter_view(filter: Option<&String>) -> Option<Seq<char>> {
    match filter {
        Some(f) => Some(f@),
        None => None,
    }
}

pub open spec fn chars_view(lines: Seq<Vec<char>>) -> Seq<Seq<char>> {
    lines.map_values(|l: Vec<char>| l@)
}

pub open spec fn option_chars(filter: &Option<Vec<char>>) -> Option<Seq<char>> {
    match filter {
        Some(f) => Some(f@),
        None => None,
    }
}

/// The lines joined by single spaces.
pub fn join_with_spaces(lines: &Vec<Vec<char>>) -> (r: Vec<char>)
    ensures
        r@ == joined(chars_view(lines@)),
{
    let ghost pending = chars_view(lines@);
    let mut text: Vec<char> = Vec::new();
    let mut k: usize = 0;
    while k < lines.len()
        invariant
            k <= lines@.len(),
            pending == chars_view(lines@),
            text@ == joined(pending.subrange(0, k as int)),
        decreases lines@.len() - k,
    {
        let ghost prefix = pending.subrange(0, k + 1);
        assert(prefix.drop_last() == pending.subrange(0, k as int));
        if k > 0 {
            text.push(' ');
        }
        let line = &lines[k];
        let mut q: usize = 0;
        let ghost base = text@;
        while q < line.len()
            invariant
                q <= line@.len(),
                text@ == base + line@.subrange(0, q as int),
            decreases line@.len() - q,
        {
            text.push(line[q]);
            q += 1;
        }
        assert(line@.subrange(0, line@.len() as int) == line@);
        assert(prefix.last() == line@);
        if k == 0 {
            assert(prefix.len() == 1);
            assert(text@ == line@);
        }
        k += 1;
    }
    assert(pending.subrange(0, pending.len() as int) == pending);
    text
}

pub struct Signature {}

impl Signature {
    fn hex_digit(c: char) -> (r: Option<u16>)
        ensures
            r == hex_value(c),
    {
        let u = c as u32;
        if 0x30 <= u && u <= 0x39 {
            Some((u - 0x30) as u16)
        } else if 0x41 <= u && u <= 0x46 {
            Some((u - 0x37) as u16)
        } else if 0x61 <= u && u <= 0x66 {
            Some((u - 0x57) as u16)
        } else {
            None
        }
    }

    /// The two characters read as a hexadecimal number, or 0 where they do not parse.
    pub fn convert_hex_to_bin(digit_string: &[char]) -> (r: u16)
        requires
            digit_string@.len() == 2,
        ensures
            r == hex_pair(digit_string@[0], digit_string@[1]),
            r < CMD_WILDCARD,
    {
        match (Self::hex_digit(digit_string[0]), Self::hex_digit(digit_string[1])) {
            (Some(x), Some(y)) => x * 16 + y,
            (None, Some(y)) => if digit_string[0] == '+' {
                y
            } else {
                0
            },
            _ => 0,
        }
    }

    pub(crate) fn is_keyword(word: &[char], a: char, b: char, c: char) -> (r: bool)
        requires
            upper_code(a) == a as u32,
            upper_code(b) == b as u32,
            upper_code(c) == c as u32,
        ensures
            r == same_ignoring_case(word@, seq![a, b, c]),
    {
        let r = word.len() == 3 && upper(word[0]) == a as u32 && upper(word[1]) == b as u32 && upper(
            word[2],
        ) == c as u32;
        proof {
            let kw = seq![a, b, c];
            if word@.len() == 3 {
                assert(kw[0] == a && kw[1] == b && kw[2] == c);
                if r {
                    assert forall|k: int| 0 <= k < 3 implies upper_code(#[trigger] word@[k]) == upper_code(kw[k]) by {
                        if k == 0 {
                        } else if k == 1 {
                        } else {
                        }
                    }
                }
                if same_ignoring_case(word@, kw) {
                    assert(upper_code(word@[0]) == upper_code(kw[0]));
                    assert(upper_code(word@[1]) == upper_code(kw[1]));
                    assert(upper_code(word@[2]) == upper_code(kw[2]));
                }
            }
        }
        r
    }

    /// Applies one word of a value line to the sub-pattern in progress.
    fn apply_word(
        word: &[char],
        tokens: &mut Vec<u16>,
        bndm_configs: &mut Vec<BndmConfig>,
        Ghost(groups): Ghost<Seq<Seq<u16>>>,
    )
        requires
            tokens_in_range(old(tokens)@),
            all_wf(old(bndm_configs)@),
            sub_patterns_view(old(bndm_configs)@) == groups_sub_patterns(groups),
        ensures
            tokens_in_range(final(tokens)@),
            all_wf(final(bndm_configs)@),
            (groups_sub_patterns(group_step((groups, old(tokens)@), word@).0), final(tokens)@) == (
            sub_patterns_view(final(bndm_configs)@), group_step((groups, old(tokens)@), word@).1),
    {
        if word.len() < 2 {
            return;
        }
        let wildcard = word.len() == 2 && word[0] == '?' && word[1] == '?';
        assert(wildcard == is_wildcard_word(word@)) by {
            if word@.len() == 2 && word@[0] == '?' && word@[1] == '?' {
                assert(word@ == seq!['?', '?']);
            }
        }
        if wildcard {
            tokens.push(CMD_WILDCARD);
            assert forall|k: int| 0 <= k < tokens@.len() implies #[trigger] tokens@[k] <= CMD_WILDCARD by {
                if k < old(tokens)@.len() {
                    assert(tokens@[k] == old(tokens)@[k]);
                }
            }
            return;
        }
        let and_word = Self::is_keyword(word, 'A', 'N', 'D');
        let end_word = Self::is_keyword(word, 'E', 'N', 'D');
        let amp_word = word.len() == 2 && word[0] == '&' && word[1] == '&';
        assert(amp_word == (word@ == seq!['&', '&'])) by {
            if word@.len() == 2 && word@[0] == '&' && word@[1] == '&' {
                assert(word@ == seq!['&', '&']);
            }
        }
        assert(is_separator_word(word@) == (and_word || amp_word || end_word));
        if and_word || end_word || amp_word {
            Self::add_signature(tokens.as_slice(), bndm_configs);
            assert(groups.push(old(tokens)@).drop_last() == groups);
            tokens.clear();
            return;
        }
        let mut pair: Vec<char> = Vec::new();
        pair.push(word[0]);
        pair.push(word[1]);
        let value = Self::convert_hex_to_bin(pair.as_slice());
        tokens.push(value);
        assert forall|k: int| 0 <= k < tokens@.len() implies #[trigger] tokens@[k] <= CMD_WILDCARD by {
            if k < old(tokens)@.len() {
                assert(tokens@[k] == old(tokens)@[k]);
            }
        }
    }
    pub fn is_signature_min_length(signature_text_line: &str) -> (r: bool)
        ensures
            r == min_length_line(signature_text_line@),
    {
        chars_of(signature_text_line).len() >= 2
    }

    pub fn is_info_tag(signature_text_line: &str) -> (r: bool)
        ensures
            r == info_tag_line(signature_text_line@),
    {
        Self::is_info_tag_chars(chars_of(signature_text_line).as_slice())
    }

    pub fn is_signature_name(signature_text_line: &str) -> (r: bool)
        ensures
            r == name_line(signature_text_line@),
    {
        Self::is_signature_name_chars(chars_of(signature_text_line).as_slice())
    }

    pub fn has_end_marker(text: &str) -> (r: bool)
        ensures
            r == end_marker(text@),
    {
        Self::has_end_marker_chars(chars_of(text).as_slice())
    }

    pub(crate) fn is_info_tag_chars(s: &[char]) -> (r: bool)
        ensures
            r == info_tag_line(s@),
    {
        if s.len() < 11 {
            return false;
        }
        if s[9] == ':' && s[10] == ' ' {
            return true;
        }
        let mut k: usize = 0;
        while k < 11
            invariant
                s@.len() >= 11,
                !(s@[9] == ':' && s@[10] == ' '),
                k <= 11,
                forall|q: int| 0 <= q < k ==> #[trigger] s@[q] == ' ',
            decreases 11 - k,
        {
            if s[k] != ' ' {
                assert(s@[k as int] != ' ');
                return false;
            }
            k += 1;
        }
        true
    }

    pub(crate) fn is_signature_name_chars(s: &[char]) -> (r: bool)
        ensures
            r == name_line(s@),
    {
        if s.len() < 3 || s[2] == ' ' {
            return false;
        }
        s.len() > 3 || !(Self::is_keyword(s, 'E', 'N', 'D') || Self::is_keyword(s, 'A', 'N', 'D'))
    }

    pub(crate) fn has_end_marker_chars(s: &[char]) -> (r: bool)
        ensures
            r == end_marker(s@),
    {
        let n = s.len();
        if n < 3 {
            return false;
        }
        let mut tail: Vec<char> = Vec::new();
        tail.push(s[n - 3]);
        tail.push(s[n - 2]);
        tail.push(s[n - 1]);
        assert(tail@ == s@.subrange(n - 3, n as int));
        Self::is_keyword(tail.as_slice(), 'E', 'N', 'D')
    }

    /// Builds the signature of one value text and keeps it when the filter allows.
    fn process_signature_line(
        signature_name_to_filter: &Option<Vec<char>>,
        signatures: &mut Vec<SignatureConfig>,
        signature_name: &[char],
        signature_text: &[char],
    )
        requires
            all_signatures_wf(old(signatures)@),
        ensures
            all_signatures_wf(final(signatures)@),
            signatures_view(final(signatures)@) == add_signature_view(
                signatures_view(old(signatures)@),
                option_chars(signature_name_to_filter),
                signature_name@,
                signature_text@,
            ),
    {
        let signature = Self::process_signature_value(signature_name, signature_text);
        let keep = match signature_name_to_filter {
            None => true,
            Some(f) => eq_ignore_case(f.as_slice(), signature_name),
        };
        if keep {
            let ghost before = signatures@;
            signatures.push(signature);
            assert(signatures@ == before.push(signature));
            assert(signatures_view(signatures@) == signatures_view(before).push(signature@));
            assert forall|k: int| 0 <= k < signatures@.len() implies (#[trigger] signatures@[k]).wf() by {
                if k < before.len() {
                    assert(signatures@[k] == before[k]);
                }
            }
        }
    }

    /// Each pending value line becomes a signature of its own.
    fn process_multi_signatures(
        signature_name_to_filter: &Option<Vec<char>>,
        signatures: &mut Vec<SignatureConfig>,
        signature_name: &[char],
        signature_lines: &mut Vec<Vec<char>>,
    )
        requires
            all_signatures_wf(old(signatures)@),
        ensures
            all_signatures_wf(final(signatures)@),
            signatures_view(final(signatures)@) == flush_lines(
                signatures_view(old(signatures)@),
                option_chars(signature_name_to_filter),
                signature_name@,
                chars_view(old(signature_lines)@),
            ),
            final(signature_lines)@.len() == 0,
    {
        let ghost pending = chars_view(signature_lines@);
        let ghost start = signatures_view(signatures@);
        let ghost filter = option_chars(signature_name_to_filter);
        let mut k: usize = 0;
        assert(pending.subrange(0, 0) =~= Seq::<Seq<char>>::empty());
        while k < signature_lines.len()
            invariant
                k <= signature_lines@.len(),
                pending == chars_view(signature_lines@),
                filter == option_chars(signature_name_to_filter),
                all_signatures_wf(signatures@),
                signatures_view(signatures@) == flush_lines(start, filter, signature_name@, pending.subrange(0, k as int)),
            decreases signature_lines@.len() - k,
        {
            Self::process_signature_line(signature_name_to_filter, signatures, signature_name, signature_lines[k].as_slice());
            assert(pending.subrange(0, k + 1).drop_last() == pending.subrange(0, k as int));
            assert(pending.subrange(0, k + 1).last() == signature_lines@[k as int]@);
            k += 1;
        }
        assert(pending.subrange(0, pending.len() as int) == pending);
        signature_lines.clear();
    }

    /// The pending value lines, joined by spaces, become one signature.
    fn process_single_signature(
        signature_name_to_filter: &Option<Vec<char>>,
        signatures: &mut Vec<SignatureConfig>,
        signature_name: &[char],
        signature_lines: &mut Vec<Vec<char>>,
    )
        requires
            all_signatures_wf(old(signatures)@),
        ensures
            all_signatures_wf(final(signatures)@),
            signatures_view(final(signatures)@) == add_signature_view(
                signatures_view(old(signatures)@),
                option_chars(signature_name_to_filter),
                signature_name@,
                joined(chars_view(old(signature_lines)@)),
            ),
            final(signature_lines)@.len() == 0,
    {
        let text = join_with_spaces(signature_lines);
        Self::process_signature_line(signature_name_to_filter, signatures, signature_name, text.as_slice());
        signature_lines.clear();
    }

    /// Searches the sub-patterns of one signature in order, from `start_offset` on.
    fn match_signature(source: &[u8], start_offset: usize, signature: &SignatureConfig) -> (r:
        Option<Vec<usize>>)
        requires
            signature.wf(),
        ensures
            match r {
                Some(v) => match_offsets(source@, start_offset as int, signature@.1) == Some(
                    v@.map_values(|x: usize| x as int),
                ),
                None => match_offsets(source@, start_offset as int, signature@.1) is None,
            },
    {
        let ghost subs = signature@.1;
        let ghost whole = match_offsets(source@, start_offset as int, subs);
        let mut indexes: Vec<usize> = Vec::new();
        let mut last_index: usize = start_offset;
        let mut k: usize = 0;
        assert(subs.subrange(0, subs.len() as int) == subs);
        assert(indexes@.map_values(|x: usize| x as int) =~= Seq::<int>::empty());
        while k < signature.bndm_configs.len()
            invariant
                subs == signature@.1,
                subs.len() == signature.bndm_configs@.len(),
                signature.wf(),
                k <= subs.len(),
                whole == match_offsets(source@, start_offset as int, subs),
                whole == match match_offsets(source@, last_index as int, subs.subrange(k as int, subs.len() as int)) {
                    Some(rest) => Some(indexes@.map_values(|x: usize| x as int) + rest),
                    None => None,
                },
                k > 0 ==> last_index <= source@.len(),
            decreases subs.len() - k,
        {
            let ghost rest = subs.subrange(k as int, subs.len() as int);
            assert(rest[0] == subs[k as int]);
            assert(rest.drop_first() == subs.subrange(k + 1, subs.len() as int));
            let config = &signature.bndm_configs[k];
            assert(config.wf());
            assert(sub_pattern_view(*config) == subs[k as int]);
            if last_index > source.len() {
                return None;
            }
            let (_, tail) = source.split_at(last_index);
            match find_pattern(tail, config) {
                Some(index) => {
                    proof {
                        lemma_first_match(tail@, config.pattern@, config.wildcard, Some(index));
                    }
                    let ghost before = indexes@;
                    indexes.push(last_index + index);
                    assert(indexes@.map_values(|x: usize| x as int) == before.map_values(|x: usize| x as int).push(last_index + index));
                    last_index = last_index + index + config.pattern.len();
                },
                None => {
                    proof {
                        lemma_first_match(tail@, config.pattern@, config.wildcard, None);
                    }
                    return None;
                },
            }
            k += 1;
        }
        assert(subs.subrange(subs.len() as int, subs.len() as int) =~= Seq::<SubPatternView>::empty());
        assert(indexes@.map_values(|x: usize| x as int) + Seq::<int>::empty() == indexes@.map_values(|x: usize| x as int));
        Some(indexes)
    }

    /// The signatures found in `source` past `start_offset`, in order, with the
    /// offsets of their sub-patterns; only the first unless `scan_for_multiple`;
    /// consecutive records of one name reduced to the first.
    pub fn find_signatures(
        source: &[u8],
        start_offset: usize,
        signatures: &Vec<SignatureConfig>,
        scan_for_multiple: bool,
    ) -> (r: Vec<SignatureMatch>)
        requires
            all_signatures_wf(signatures@),
        ensures
            matches_view(r@) == dedup_names(
                scan_signatures(source@, start_offset as int, signatures_view(signatures@), scan_for_multiple),
            ),
    {
        let ghost sigs = signatures_view(signatures@);
        let ghost all = scan_signatures(source@, start_offset as int, sigs, scan_for_multiple);
        let ghost mut found: Seq<(Seq<char>, Seq<int>)> = Seq::empty();
        let mut matches: Vec<SignatureMatch> = Vec::new();
        let mut k: usize = 0;
        assert(sigs.subrange(0, sigs.len() as int) == sigs);
        assert(matches_view(matches@) =~= dedup_names(found));
        while k < signatures.len()
            invariant
                sigs == signatures_view(signatures@),
                all == scan_signatures(source@, start_offset as int, sigs, scan_for_multiple),
                all_signatures_wf(signatures@),
                k <= sigs.len(),
                all == found + scan_signatures(source@, start_offset as int, sigs.subrange(k as int, sigs.len() as int), scan_for_multiple),
                matches_view(matches@) == dedup_names(found),
            decreases sigs.len() - k,
        {
            let ghost rest = sigs.subrange(k as int, sigs.len() as int);
            assert(rest[0] == signatures@[k as int]@);
            assert(rest.drop_first() == sigs.subrange(k + 1, sigs.len() as int));
            let signature = &signatures[k];
            assert(signature.wf());
            match Self::match_signature(source, start_offset, signature) {
                Some(indexes) => {
                    let m = SignatureMatch { signature_name: signature.signature_name.clone(), indexes };
                    let ghost entry = match_view(m);
                    assert(entry == (rest[0].0, match_offsets(source@, start_offset as int, rest[0].1)->0));
                    let duplicate = match matches.last() {
                        Some(previous) => previous.signature_name == m.signature_name,
                        None => false,
                    };
                    proof {
                        assert(found.push(entry).drop_last() == found);
                        if matches@.len() > 0 {
                            assert(matches_view(matches@).last() == match_view(matches@.last()));
                        }
                    }
                    if !duplicate {
                        let ghost before = matches@;
                        matches.push(m);
                        assert(matches_view(matches@) == matches_view(before).push(entry));
                    }
                    proof {
                        found = found.push(entry);
                    }
                    if !scan_for_multiple {
                        assert(all == found);
                        return matches;
                    }
                    assert(seq![entry] + scan_signatures(source@, start_offset as int, rest.drop_first(), scan_for_multiple) == scan_signatures(source@, start_offset as int, rest, scan_for_multiple));
                    assert(found + scan_signatures(source@, start_offset as int, rest.drop_first(), scan_for_multiple) == found.drop_last() + (seq![entry] + scan_signatures(source@, start_offset as int, rest.drop_first(), scan_for_multiple)));
                },
                None => {},
            }
            k += 1;
        }
        assert(sigs.subrange(sigs.len() as int, sigs.len() as int) =~= Seq::<SignatureView>::empty());
        assert(found + Seq::<(Seq<char>, Seq<int>)>::empty() == found);
        matches
    }

    /// The signatures that configuration lines define, in file order, kept by the
    /// optional name filter; an error when the lines do not start like a configuration.
    pub fn read_config_lines(
        config_lines: &Vec<String>,
        signature_name_to_filter: Option<&String>,
    ) -> (r: Result<Vec<SignatureConfig>, String>)
        ensures
            r is Err <==> !config_header_from(lines_view(config_lines@), 0),
            r matches Err(e) ==> e@ == "Not an config file."@,
            r matches Ok(sigs) ==> signatures_view(sigs@) == parse_config(
                lines_view(config_lines@),
                filter_view(signature_name_to_filter),
            ) && all_signatures_wf(sigs@),
    {
        if !Self::is_config_file(config_lines.as_slice()) {
            return Err("Not an config file.".to_owned());
        }
        let filter: Option<Vec<char>> = match signature_name_to_filter {
            Some(f) => Some(chars_of(f.as_str())),
            None => None,
        };
        let ghost fv = filter_view(signature_name_to_filter);
        assert(option_chars(&filter) == fv);
        let ghost lines = lines_view(config_lines@);
        let mut signatures: Vec<SignatureConfig> = Vec::new();
        let mut signature_name: Vec<char> = Vec::new();
        let mut signature_lines: Vec<Vec<char>> = Vec::new();
        assert(lines.subrange(0, 0) =~= Seq::<Seq<char>>::empty());
        assert(signatures_view(signatures@) =~= Seq::<SignatureView>::empty());
        assert(chars_view(signature_lines@) =~= Seq::<Seq<char>>::empty());
        let mut i: usize = 0;
        while i < config_lines.len()
            invariant
                i <= config_lines@.len(),
                lines == lines_view(config_lines@),
                option_chars(&filter) == fv,
                all_signatures_wf(signatures@),
                (signatures_view(signatures@), signature_name@, chars_view(signature_lines@))
                    == config_fold(lines.subrange(0, i as int), fv),
            decreases config_lines@.len() - i,
        {
            assert(lines.subrange(0, i + 1).drop_last() == lines.subrange(0, i as int));
            assert(lines.subrange(0, i + 1).last() == config_lines@[i as int]@);
            let signature_text = trim(chars_of(config_lines[i].as_str()).as_slice());
            if signature_text.len() >= 2 {
                if Self::is_signature_name_chars(signature_text.as_slice()) {
                    Self::process_multi_signatures(&filter, &mut signatures, signature_name.as_slice(), &mut signature_lines);
                    signature_name = signature_text;
                } else {
                    let end = Self::has_end_marker_chars(signature_text.as_slice());
                    let ghost before = signature_lines@;
                    signature_lines.push(signature_text);
                    assert(chars_view(signature_lines@) == chars_view(before).push(signature_lines@.last()@));
                    if end {
                        Self::process_single_signature(&filter, &mut signatures, signature_name.as_slice(), &mut signature_lines);
                    }
                }
            } else {
                Self::process_multi_signatures(&filter, &mut signatures, signature_name.as_slice(), &mut signature_lines);
                signature_name = Vec::new();
            }
            assert(signature_name@ == config_fold(lines.subrange(0, i + 1), fv).1);
            i += 1;
        }
        assert(lines.subrange(0, lines.len() as int) == lines);
        Self::process_multi_signatures(&filter, &mut signatures, signature_name.as_slice(), &mut signature_lines);
        Ok(signatures)
    }

    /// Adds the current info block when one is open.
    fn close_info_block(signature_infos: &mut Vec<SignatureInfo>, signature_name: String, info_lines: Vec<String>)
        ensures
            infos_view(final(signature_infos)@) == close_block(
                (infos_view(old(signature_infos)@), signature_name@, lines_view(info_lines@)),
            ),
    {
        if !signature_name.as_str().is_empty() || info_lines.len() > 0 {
            let ghost before = signature_infos@;
            let ghost entry = (signature_name, info_lines);
            signature_infos.push((signature_name, info_lines));
            assert(infos_view(signature_infos@) == infos_view(before).push(info_view(entry)));
        }
    }

    /// The info blocks that info lines define, in file order; an error when the lines
    /// do not start like an info file.
    pub fn read_info_lines(lines: &Vec<String>) -> (r: Result<Vec<SignatureInfo>, String>)
        ensures
            r is Err <==> !info_header_from(lines_view(lines@), 0),
            r matches Err(e) ==> e@ == "Not an info file."@,
            r matches Ok(infos) ==> infos_view(infos@) == parse_info(lines_view(lines@)),
    {
        if !Self::is_info_file(lines.as_slice()) {
            return Err("Not an info file.".to_owned());
        }
        let ghost lv = lines_view(lines@);
        let mut signature_infos: Vec<SignatureInfo> = Vec::new();
        let mut signature_name: String = String::new();
        let mut info_lines: Vec<String> = Vec::new();
        assert(lv.subrange(0, 0) =~= Seq::<Seq<char>>::empty());
        assert(infos_view(signature_infos@) =~= Seq::<InfoView>::empty());
        assert(lines_view(info_lines@) =~= Seq::<Seq<char>>::empty());
        let mut i: usize = 0;
        while i < lines.len()
            invariant
                i <= lines@.len(),
                lv == lines_view(lines@),
                (infos_view(signature_infos@), signature_name@, lines_view(info_lines@))
                    == info_fold(lv.subrange(0, i as int)),
            decreases lines@.len() - i,
        {
            assert(lv.subrange(0, i + 1).drop_last() == lv.subrange(0, i as int));
            assert(lv.subrange(0, i + 1).last() == lines@[i as int]@);
            let line = &lines[i];
            let chars = chars_of(line.as_str());
            let ghost before = signature_infos@;
            let ghost before_lines = info_lines@;
            if chars.len() >= 2 {
                if Self::is_info_tag_chars(chars.as_slice()) {
                    info_lines.push(line.clone());
                    assert(lines_view(info_lines@) == lines_view(before_lines).push(line@));
                } else if Self::is_signature_name_chars(chars.as_slice()) {
                    if !signature_name.as_str().is_empty() {
                        let ghost entry = (signature_name, info_lines);
                        signature_infos.push((signature_name, info_lines));
                        assert(infos_view(signature_infos@) == infos_view(before).push(info_view(entry)));
                    }
                    info_lines = Vec::new();
                    signature_name = line.clone();
                } else {
                    Self::close_info_block(&mut signature_infos, signature_name, info_lines);
                    info_lines = Vec::new();
                    signature_name = String::new();
                }
            } else {
                Self::close_info_block(&mut signature_infos, signature_name, info_lines);
                info_lines = Vec::new();
                signature_name = String::new();
            }
            assert(lines_view(info_lines@) == info_fold(lv.subrange(0, i + 1)).2);
            i += 1;
        }
        assert(lv.subrange(0, lv.len() as int) == lv);
        if info_lines.len() > 0 {
            let ghost before = signature_infos@;
            let ghost entry = (signature_name, info_lines);
            signature_infos.push((signature_name, info_lines));
            assert(infos_view(signature_infos@) == infos_view(before).push(info_view(entry)));
        }
        Ok(signature_infos)
    }

    /// The first info block whose name equals the given one up to ASCII case.
    pub fn find_signature_info<'a>(signature_infos: &'a [SignatureInfo], signature_name: &str) -> (r:
        Option<&'a SignatureInfo>)
        ensures
            r is None <==> forall|i: int|
                0 <= i < signature_infos@.len() ==> !#[trigger] same_ignoring_case_info(
                    signature_infos@[i],
                    signature_name@,
                ),
            r matches Some(info) ==> exists|i: int|
                0 <= i < signature_infos@.len() && *info == signature_infos@[i]
                    && same_ignoring_case_info(signature_infos@[i], signature_name@) && forall|j: int|
                    0 <= j < i ==> !#[trigger] same_ignoring_case_info(signature_infos@[j], signature_name@),
    {
        let name = chars_of(signature_name);
        let mut i: usize = 0;
        while i < signature_infos.len()
            invariant
                i <= signature_infos@.len(),
                name@ == signature_name@,
                forall|j: int| 0 <= j < i ==> !#[trigger] same_ignoring_case_info(signature_infos@[j], signature_name@),
            decreases signature_infos@.len() - i,
        {
            let info = &signature_infos[i];
            let info_name = chars_of(info.0.as_str());
            if eq_ignore_case(info_name.as_slice(), name.as_slice()) {
                assert(same_ignoring_case_info(signature_infos@[i as int], signature_name@));
                return Some(info);
            }
            i += 1;
        }
        None
    }

    fn is_blank(line: &String) -> (r: bool)
        ensures
            r == (trimmed(line@).len() == 0),
    {
        trim(chars_of(line.as_str()).as_slice()).len() == 0
    }

    /// The first line that is not blank names a signature and the next one holds a value.
    pub fn is_config_file(config_lines: &[String]) -> (r: bool)
        ensures
            r == config_header_from(lines_view(config_lines@), 0),
    {
        let ghost lines = lines_view(config_lines@);
        let mut i: usize = 0;
        while i < config_lines.len()
            invariant
                i <= config_lines@.len(),
                lines == lines_view(config_lines@),
                config_header_from(lines, 0) == config_header_from(lines, i as int),
            decreases config_lines@.len() - i,
        {
            if !Self::is_blank(&config_lines[i]) {
                let line = chars_of(config_lines[i].as_str());
                if line.len() >= 2 && Self::is_signature_name_chars(line.as_slice()) && i + 1 < config_lines.len() {
                    let next = chars_of(config_lines[i + 1].as_str());
                    return next.len() >= 2 && !Self::is_signature_name_chars(next.as_slice());
                }
                return false;
            }
            i += 1;
        }
        false
    }

    /// The first line that is not blank names a signature and the next one is a tag line.
    pub fn is_info_file(info_lines: &[String]) -> (r: bool)
        ensures
            r == info_header_from(lines_view(info_lines@), 0),
    {
        let ghost lines = lines_view(info_lines@);
        let mut i: usize = 0;
        while i < info_lines.len()
            invariant
                i <= info_lines@.len(),
                lines == lines_view(info_lines@),
                info_header_from(lines, 0) == info_header_from(lines, i as int),
            decreases info_lines@.len() - i,
        {
            if !Self::is_blank(&info_lines[i]) {
                let line = chars_of(info_lines[i].as_str());
                if line.len() >= 2 && Self::is_signature_name_chars(line.as_slice())
                    && !Self::is_info_tag_chars(line.as_slice()) && i + 1 < info_lines.len() {
                    let next = chars_of(info_lines[i + 1].as_str());
                    return next.len() >= 2 && Self::is_info_tag_chars(next.as_slice());
                }
                return false;
            }
            i += 1;
        }
        false
    }

    /// The signature that a value text defines under the given name.
    fn process_signature_value(signature_name: &[char], signature_text: &[char]) -> (r: SignatureConfig)
        ensures
            r@ == (signature_name@, value_sub_patterns(signature_text@)),
            r.wf(),
    {
        let ghost text = signature_text@;
        let mut bndm_configs: Vec<BndmConfig> = Vec::new();
        let mut tokens: Vec<u16> = Vec::new();
        let mut word: Vec<char> = Vec::new();
        let ghost mut words: Seq<Seq<char>> = Seq::empty();
        let ghost mut groups: Seq<Seq<u16>> = Seq::empty();
        assert(text.subrange(0, 0) =~= Seq::<char>::empty());
        assert(sub_patterns_view(bndm_configs@) =~= Seq::<SubPatternView>::empty());
        let mut i: usize = 0;
        while i < signature_text.len()
            invariant
                text == signature_text@,
                i <= text.len(),
                (words, word@) == split_fold(text.subrange(0, i as int)),
                (groups, tokens@) == group_fold(words),
                sub_patterns_view(bndm_configs@) == groups_sub_patterns(groups),
                tokens_in_range(tokens@),
                all_wf(bndm_configs@),
            decreases text.len() - i,
        {
            let c = signature_text[i];
            assert(text.subrange(0, i + 1).drop_last() == text.subrange(0, i as int));
            assert(text.subrange(0, i + 1).last() == c);
            if ascii_space(c) {
                if word.len() > 0 {
                    Self::apply_word(word.as_slice(), &mut tokens, &mut bndm_configs, Ghost(groups));
                    proof {
                        assert(words.push(word@).drop_last() == words);
                        groups = group_step((groups, group_fold(words).1), word@).0;
                        words = words.push(word@);
                    }
                }
                word = Vec::new();
            } else {
                word.push(c);
            }
            i += 1;
        }
        assert(text.subrange(0, text.len() as int) == text);
        if word.len() > 0 {
            Self::apply_word(word.as_slice(), &mut tokens, &mut bndm_configs, Ghost(groups));
            proof {
                assert(words.push(word@).drop_last() == words);
                groups = group_step((groups, group_fold(words).1), word@).0;
                words = words.push(word@);
            }
        }
        assert(words == words_of(text));
        if tokens.len() > 0 {
            Self::add_signature(tokens.as_slice(), &mut bndm_configs);
            proof {
                assert(groups.push(tokens@).drop_last() == groups);
                groups = groups.push(tokens@);
            }
        }
        assert(groups == value_groups(text));
        SignatureConfig { bndm_configs, signature_name: crate::text::string_of(signature_name) }
    }

    /// Whether the tokens use `??`, and the smallest byte value that no literal takes.
    pub fn calculate_wildcard(signature: &[u16]) -> (r: (bool, Option<u8>))
        requires
            tokens_in_range(signature@),
        ensures
            r.0 == signature@.contains(CMD_WILDCARD),
            r.1 == chosen_wildcard(signature@),
    {
        let mut bytes_used: Vec<bool> = Vec::new();
        let mut k: usize = 0;
        while k <= CMD_WILDCARD as usize
            invariant
                k <= CMD_WILDCARD + 1,
                bytes_used@.len() == k,
                forall|x: int| 0 <= x < k ==> !bytes_used@[x],
            decreases CMD_WILDCARD + 1 - k,
        {
            bytes_used.push(false);
            k += 1;
        }
        let ghost tokens = signature@;
        let mut k: usize = 0;
        while k < signature.len()
            invariant
                tokens == signature@,
                tokens_in_range(tokens),
                k <= tokens.len(),
                bytes_used@.len() == CMD_WILDCARD + 1,
                forall|x: int|
                    0 <= x <= CMD_WILDCARD ==> (bytes_used@[x] <==> tokens.subrange(
                        0,
                        k as int,
                    ).contains(x as u16)),
            decreases tokens.len() - k,
        {
            let value = signature[k];
            bytes_used.set(value as usize, true);
            assert forall|x: int| 0 <= x <= CMD_WILDCARD implies (bytes_used@[x] <==> tokens.subrange(
                0,
                k + 1,
            ).contains(x as u16)) by {
                let before = tokens.subrange(0, k as int);
                let after = tokens.subrange(0, k + 1);
                assert(after == before.push(value));
                if before.contains(x as u16) {
                    let j = choose|j: int| 0 <= j < before.len() && before[j] == x as u16;
                    assert(after[j] == x as u16);
                }
                if after.contains(x as u16) && x != value as int {
                    let j = choose|j: int| 0 <= j < after.len() && after[j] == x as u16;
                    assert(before[j] == x as u16);
                }
                if x == value as int {
                    assert(after[k as int] == x as u16);
                }
            }
            k += 1;
        }
        assert(tokens.subrange(0, tokens.len() as int) == tokens);
        let mut wildcard: u16 = 0;
        while wildcard < CMD_WILDCARD && bytes_used[wildcard as usize]
            invariant
                wildcard <= CMD_WILDCARD,
                bytes_used@.len() == CMD_WILDCARD + 1,
                forall|x: int|
                    0 <= x <= CMD_WILDCARD ==> (bytes_used@[x] <==> tokens.contains(x as u16)),
                first_unused_from(tokens, wildcard as int) == first_unused_from(tokens, 0),
            decreases CMD_WILDCARD - wildcard,
        {
            wildcard += 1;
        }
        let used = bytes_used[CMD_WILDCARD as usize];
        if wildcard == CMD_WILDCARD {
            (used, None)
        } else {
            (used, Some(wildcard as u8))
        }
    }

    /// Appends the sub-pattern of the tokens, unless it is empty or cannot have a
    /// wildcard that it needs.
    pub fn add_signature(signature: &[u16], bndm_configs: &mut Vec<BndmConfig>)
        requires
            tokens_in_range(signature@),
        ensures
            all_wf(old(bndm_configs)@) ==> all_wf(final(bndm_configs)@),
            sub_patterns_view(final(bndm_configs)@) == if group_accepted(signature@) {
                sub_patterns_view(old(bndm_configs)@).push(
                    (substituted(signature@), chosen_wildcard(signature@)),
                )
            } else {
                sub_patterns_view(old(bndm_configs)@)
            },
    {
        let (wildcard_used, calculated_wildcard) = Self::calculate_wildcard(signature);
        if signature.len() == 0 || (wildcard_used && calculated_wildcard.is_none()) {
            return;
        }
        let fill: u8 = match calculated_wildcard {
            Some(w) => w,
            None => 0,
        };
        let mut new_signature: Vec<u8> = Vec::new();
        let mut k: usize = 0;
        while k < signature.len()
            invariant
                k <= signature@.len(),
                fill == chosen_wildcard(signature@).unwrap_or(0),
                new_signature@ == substituted(signature@).subrange(0, k as int),
            decreases signature@.len() - k,
        {
            let value = signature[k];
            if value == CMD_WILDCARD {
                new_signature.push(fill);
            } else {
                new_signature.push(value as u8);
            }
            assert(new_signature@ == substituted(signature@).subrange(0, k + 1));
            k += 1;
        }
        assert(new_signature@ == substituted(signature@));
        let config = BndmConfig::new(new_signature.as_slice(), calculated_wildcard);
        let ghost before = bndm_configs@;
        bndm_configs.push(config);
        assert(bndm_configs@ == before.push(config));
        assert(sub_patterns_view(bndm_configs@) == sub_patterns_view(before).push(sub_pattern_view(config)));
        assert forall|k: int| all_wf(before) && 0 <= k < bndm_configs@.len() implies (#[trigger] bndm_configs@[k]).wf() by {
            if k < before.len() {
                assert(bndm_configs@[k] == before[k]);
            }
        }
    }
}

} // verus!
