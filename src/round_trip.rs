//! Writing a parsed configuration back as text and parsing it again gives the same
//! signatures.
use vstd::prelude::*;

use crate::format::{
    config_fold, config_step, end_marker, flush_lines, group_fold, group_step,
    groups_sub_patterns, hex_pair, hex_value, is_separator_word, joined, min_length_line,
    name_line, parse_config, split_fold, value_groups, value_sub_patterns, words_of,
    SignatureView, SubPatternView,
};
use crate::player::{
    byte_text, converted_text, emit_fold, hex_chars, join_with, separator_text, sub_pattern_text,
    value_text,
};
use crate::signature::{chosen_wildcard, group_accepted, substituted, tokens_in_range, CMD_WILDCARD};
use crate::text::{is_ascii_space, is_white_space, lemma_trimmed_idempotent, same_ignoring_case, trim_end, trim_start, trimmed, upper_code};

verus! {


proof fn lemma_split_after_space(a: Seq<char>)
    ensures
        split_fold(a + seq![' ']) == (words_of(a), Seq::<char>::empty()),
{
    assert((a + seq![' ']).drop_last() == a);
    assert((a + seq![' ']).last() == ' ');
}

/// Splitting continues from a state with no word in progress.
proof fn lemma_split_from_clean(a: Seq<char>, b: Seq<char>)
    requires
        split_fold(a).1.len() == 0,
    ensures
        split_fold(a + b) == (split_fold(a).0 + split_fold(b).0, split_fold(b).1),
    decreases b.len(),
{
    if b.len() == 0 {
        assert(a + b == a);
        assert(split_fold(a).0 + Seq::<Seq<char>>::empty() == split_fold(a).0);
    } else {
        lemma_split_from_clean(a, b.drop_last());
        assert((a + b).drop_last() == a + b.drop_last());
        assert((a + b).last() == b.last());
        let w = split_fold(a).0;
        let sb = split_fold(b.drop_last());
        if is_ascii_space(b.last()) && sb.1.len() > 0 {
            assert(w + sb.0.push(sb.1) == (w + sb.0).push(sb.1));
        }
    }
}

/// Two characters other than spaces make one word.
proof fn lemma_words_of_pair(x: char, y: char)
    requires
        !is_ascii_space(x),
        !is_ascii_space(y),
    ensures
        words_of(seq![x, y]) == seq![seq![x, y]],
{
    lemma_split_pair(x, y);
}

proof fn lemma_split_pair(x: char, y: char)
    requires
        !is_ascii_space(x),
        !is_ascii_space(y),
    ensures
        split_fold(seq![x, y]) == (Seq::<Seq<char>>::empty(), seq![x, y]),
{
    let s = seq![x, y];
    assert(s.drop_last() == seq![x]);
    assert(seq![x].drop_last() == Seq::<char>::empty());
    assert(split_fold(Seq::<char>::empty()) == (Seq::<Seq<char>>::empty(), Seq::<char>::empty()));
    assert(Seq::<char>::empty().push(x) == seq![x]);
    assert(split_fold(seq![x]) == (Seq::<Seq<char>>::empty(), seq![x]));
    assert(seq![x].push(y) == s);
}

pub open spec fn pair_text(t: Seq<char>) -> bool {
    t.len() == 2 && !is_ascii_space(t[0]) && !is_ascii_space(t[1])
}

/// Texts of two non-space characters, joined by spaces, split back into themselves.
proof fn lemma_words_of_joined(parts: Seq<Seq<char>>)
    requires
        forall|k: int| 0 <= k < parts.len() ==> pair_text(#[trigger] parts[k]),
    ensures
        words_of(join_with(parts, seq![' '])) == parts,
    decreases parts.len(),
{
    if parts.len() == 0 {
        assert(split_fold(Seq::<char>::empty()) == (Seq::<Seq<char>>::empty(), Seq::<char>::empty()));
    } else if parts.len() == 1 {
        let p = parts[0];
        assert(p == seq![p[0], p[1]]);
        lemma_words_of_pair(p[0], p[1]);
        assert(parts == seq![p]);
    } else {
        let init = parts.drop_last();
        let p = parts.last();
        assert forall|k: int| 0 <= k < init.len() implies pair_text(#[trigger] init[k]) by {
            assert(init[k] == parts[k]);
        }
        lemma_words_of_joined(init);
        let a = join_with(init, seq![' ']);
        lemma_split_after_space(a);
        assert(p == seq![p[0], p[1]]);
        lemma_words_of_pair(p[0], p[1]);
        assert(join_with(parts, seq![' ']) == (a + seq![' ']) + p);
        lemma_split_from_clean(a + seq![' '], p);
        lemma_split_pair(p[0], p[1]);
        assert(init + Seq::<Seq<char>>::empty() == init);
        assert(init.push(p) == parts);
    }
}

proof fn lemma_hex_char(n: int)
    requires
        0 <= n < 16,
    ensures
        hex_value(hex_chars()[n]) == Some(n as u16),
        !is_ascii_space(hex_chars()[n]),
        hex_chars()[n] != '?' && hex_chars()[n] != '&',
{
    let h = hex_chars();
    if n == 0 { assert(h[0] == '0'); } else if n == 1 { assert(h[1] == '1'); }
    else if n == 2 { assert(h[2] == '2'); } else if n == 3 { assert(h[3] == '3'); }
    else if n == 4 { assert(h[4] == '4'); } else if n == 5 { assert(h[5] == '5'); }
    else if n == 6 { assert(h[6] == '6'); } else if n == 7 { assert(h[7] == '7'); }
    else if n == 8 { assert(h[8] == '8'); } else if n == 9 { assert(h[9] == '9'); }
    else if n == 10 { assert(h[10] == 'A'); } else if n == 11 { assert(h[11] == 'B'); }
    else if n == 12 { assert(h[12] == 'C'); } else if n == 13 { assert(h[13] == 'D'); }
    else if n == 14 { assert(h[14] == 'E'); } else { assert(h[15] == 'F'); }
}

/// The token a byte of a written sub-pattern reads back as.
pub open spec fn read_token(b: u8, wildcard: Option<u8>) -> u16 {
    if wildcard == Some(b) {
        CMD_WILDCARD
    } else {
        b as u16
    }
}

/// A written byte is one word that reads back as its token.
proof fn lemma_byte_text(b: u8, wildcard: Option<u8>, st: (Seq<Seq<u16>>, Seq<u16>))
    ensures
        pair_text(byte_text(b, wildcard)),
        group_step(st, byte_text(b, wildcard)) == (st.0, st.1.push(read_token(b, wildcard))),
{
    let t = byte_text(b, wildcard);
    if wildcard == Some(b) {
        assert(t == seq!['?', '?']);
    } else {
        let hi = b as int / 16;
        let lo = b as int % 16;
        lemma_hex_char(hi);
        lemma_hex_char(lo);
        assert(hi * 16 + lo == b as int);
        assert(!is_separator_word(t)) by {
            if same_ignoring_case(t, seq!['A', 'N', 'D']) || same_ignoring_case(t, seq!['E', 'N', 'D']) {
                assert(t.len() == 3);
            }
            if t == seq!['&', '&'] {
                assert(t[0] == '&');
            }
        }
        assert(t != seq!['?', '?']) by {
            if t == seq!['?', '?'] {
                assert(t[0] == '?');
            }
        }
    }
}

/// A run of non-space characters is one word in progress.
proof fn lemma_split_word(w: Seq<char>)
    requires
        forall|i: int| 0 <= i < w.len() ==> !is_ascii_space(#[trigger] w[i]),
    ensures
        split_fold(w) == (Seq::<Seq<char>>::empty(), w),
    decreases w.len(),
{
    if w.len() > 0 {
        lemma_split_word(w.drop_last());
        assert(w.drop_last().push(w.last()) == w);
    }
}

/// A separator word between spaces is a word of its own between the words around it.
proof fn lemma_words_around_separator(x: Seq<char>, sep: Seq<char>, y: Seq<char>)
    requires
        sep.len() > 0,
        forall|i: int| 0 <= i < sep.len() ==> !is_ascii_space(#[trigger] sep[i]),
    ensures
        words_of(x + (seq![' '] + sep + seq![' ']) + y) == words_of(x) + seq![sep] + words_of(y),
{
    let a = x + seq![' '];
    lemma_split_after_space(x);
    lemma_split_word(sep);
    lemma_split_after_space(sep);
    assert(words_of(sep) == seq![sep]) by {
        assert(Seq::<Seq<char>>::empty().push(sep) == seq![sep]);
    }
    let b = sep + seq![' '];
    lemma_split_from_clean(b, y);
    lemma_split_from_clean(a, b + y);
    assert(x + (seq![' '] + sep + seq![' ']) + y == a + (b + y));
    let sy = split_fold(y);
    assert(words_of(x) + (seq![sep] + sy.0) == words_of(x) + seq![sep] + sy.0);
    if sy.1.len() > 0 {
        assert((words_of(x) + seq![sep] + sy.0).push(sy.1) == words_of(x) + seq![sep] + sy.0.push(sy.1));
    }
}

/// The words of texts joined by a separator word: each text's words, with the separator
/// word between them.
pub open spec fn interleave(parts: Seq<Seq<Seq<char>>>, sep: Seq<char>) -> Seq<Seq<char>>
    decreases parts.len(),
{
    if parts.len() == 0 {
        Seq::empty()
    } else if parts.len() == 1 {
        parts[0]
    } else {
        interleave(parts.drop_last(), sep) + seq![sep] + parts.last()
    }
}

proof fn lemma_words_of_separated(texts: Seq<Seq<char>>, sep: Seq<char>)
    requires
        sep.len() > 0,
        forall|i: int| 0 <= i < sep.len() ==> !is_ascii_space(#[trigger] sep[i]),
    ensures
        words_of(join_with(texts, seq![' '] + sep + seq![' '])) == interleave(
            texts.map_values(|t: Seq<char>| words_of(t)),
            sep,
        ),
    decreases texts.len(),
{
    let parts = texts.map_values(|t: Seq<char>| words_of(t));
    if texts.len() == 0 {
        assert(split_fold(Seq::<char>::empty()) == (Seq::<Seq<char>>::empty(), Seq::<char>::empty()));
    } else if texts.len() > 1 {
        lemma_words_of_separated(texts.drop_last(), sep);
        assert(parts.drop_last() == texts.drop_last().map_values(|t: Seq<char>| words_of(t)));
        lemma_words_around_separator(join_with(texts.drop_last(), seq![' '] + sep + seq![' ']), sep, texts.last());
    }
}

pub open spec fn group_fold_from(st: (Seq<Seq<u16>>, Seq<u16>), ws: Seq<Seq<char>>) -> (Seq<Seq<u16>>, Seq<u16>)
    decreases ws.len(),
{
    if ws.len() == 0 {
        st
    } else {
        group_step(group_fold_from(st, ws.drop_last()), ws.last())
    }
}

proof fn lemma_group_fold_concat(a: Seq<Seq<char>>, b: Seq<Seq<char>>)
    ensures
        group_fold(a + b) == group_fold_from(group_fold(a), b),
    decreases b.len(),
{
    if b.len() == 0 {
        assert(a + b == a);
    } else {
        lemma_group_fold_concat(a, b.drop_last());
        assert((a + b).drop_last() == a + b.drop_last());
        assert((a + b).last() == b.last());
    }
}

proof fn lemma_group_fold_from_bytes(st: (Seq<Seq<u16>>, Seq<u16>), bytes: Seq<u8>, wildcard: Option<u8>)
    ensures
        group_fold_from(st, bytes.map_values(|b: u8| byte_text(b, wildcard))) == (
            st.0,
            st.1 + bytes.map_values(|b: u8| read_token(b, wildcard)),
        ),
    decreases bytes.len(),
{
    let ws = bytes.map_values(|b: u8| byte_text(b, wildcard));
    if bytes.len() == 0 {
        assert(st.1 + bytes.map_values(|b: u8| read_token(b, wildcard)) == st.1);
    } else {
        lemma_group_fold_from_bytes(st, bytes.drop_last(), wildcard);
        assert(ws.drop_last() == bytes.drop_last().map_values(|b: u8| byte_text(b, wildcard)));
        let inner = group_fold_from(st, ws.drop_last());
        lemma_byte_text(bytes.last(), wildcard, inner);
        assert((st.1 + bytes.drop_last().map_values(|b: u8| read_token(b, wildcard))).push(read_token(bytes.last(), wildcard))
            == st.1 + bytes.map_values(|b: u8| read_token(b, wildcard)));
    }
}

/// The sub-pattern the parser builds from an accepted group of tokens.
pub open spec fn group_sub_pattern(g: Seq<u16>) -> SubPatternView {
    (substituted(g), chosen_wildcard(g))
}

pub open spec fn parser_groups(groups: Seq<Seq<u16>>) -> bool {
    forall|i: int| 0 <= i < groups.len() ==> tokens_in_range(#[trigger] groups[i]) && group_accepted(groups[i])
}

proof fn lemma_groups_sub_patterns_map(groups: Seq<Seq<u16>>)
    requires
        parser_groups(groups),
    ensures
        groups_sub_patterns(groups) == groups.map_values(|g: Seq<u16>| group_sub_pattern(g)),
    decreases groups.len(),
{
    if groups.len() > 0 {
        assert(parser_groups(groups.drop_last())) by {
            assert forall|i: int| 0 <= i < groups.drop_last().len() implies tokens_in_range(#[trigger] groups.drop_last()[i]) && group_accepted(groups.drop_last()[i]) by {
                assert(groups.drop_last()[i] == groups[i]);
            }
        }
        lemma_groups_sub_patterns_map(groups.drop_last());
        assert(group_accepted(groups[groups.len() - 1]));
        assert(groups.drop_last().map_values(|g: Seq<u16>| group_sub_pattern(g)).push(group_sub_pattern(groups.last()))
            == groups.map_values(|g: Seq<u16>| group_sub_pattern(g)));
    }
}

/// The words of an accepted group's written sub-pattern, and the tokens they read back as.
proof fn lemma_group_words(g: Seq<u16>)
    requires
        tokens_in_range(g),
        group_accepted(g),
    ensures
        words_of(sub_pattern_text(group_sub_pattern(g))) == substituted(g).map_values(
            |b: u8| byte_text(b, chosen_wildcard(g)),
        ),
        substituted(g).map_values(|b: u8| read_token(b, chosen_wildcard(g))) == g,
{
    let w = chosen_wildcard(g);
    let bytes = substituted(g);
    let parts = bytes.map_values(|b: u8| byte_text(b, w));
    assert forall|k: int| 0 <= k < parts.len() implies pair_text(#[trigger] parts[k]) by {
        lemma_byte_text(bytes[k], w, (Seq::empty(), Seq::empty()));
    }
    lemma_words_of_joined(parts);
    crate::signature::lemma_wildcard_is_smallest_unused(g);
    let tokens = bytes.map_values(|b: u8| read_token(b, w));
    assert forall|k: int| 0 <= k < g.len() implies #[trigger] tokens[k] == g[k] by {
        assert(g[k] <= CMD_WILDCARD);
        if g[k] == CMD_WILDCARD {
            assert(g.contains(CMD_WILDCARD));
        } else {
            assert(g.contains(g[k]));
            assert((g[k] as u8) as u16 == g[k]);
            if w == Some(g[k] as u8) {
                assert(!g.contains((g[k] as u8) as u16));
            }
        }
    }
    assert(tokens =~= g);
}

/// Reading the words of the first `n` written sub-patterns, with separator words between
/// them, closes all groups but the last, which stays in progress.
proof fn lemma_group_fold_interleaved(groups: Seq<Seq<u16>>, sep: Seq<char>, n: int)
    requires
        parser_groups(groups),
        1 <= n <= groups.len(),
        sep.len() >= 2,
        is_separator_word(sep),
        sep != seq!['?', '?'],
    ensures
        group_fold(interleave(
            groups.subrange(0, n).map_values(|g: Seq<u16>| words_of(sub_pattern_text(group_sub_pattern(g)))),
            sep,
        )) == (groups.subrange(0, n - 1), groups[n - 1]),
    decreases n,
{
    let parts = groups.subrange(0, n).map_values(|g: Seq<u16>| words_of(sub_pattern_text(group_sub_pattern(g))));
    let g = groups[n - 1];
    assert(tokens_in_range(g) && group_accepted(g));
    lemma_group_words(g);
    let bytes = substituted(g);
    let w = chosen_wildcard(g);
    let last_words = bytes.map_values(|b: u8| byte_text(b, w));
    assert(parts.last() == last_words);
    if n == 1 {
        assert(interleave(parts, sep) == parts[0]);
        lemma_group_fold_concat(Seq::<Seq<char>>::empty(), last_words);
        assert(Seq::<Seq<char>>::empty() + last_words == last_words);
        assert(group_fold(Seq::<Seq<char>>::empty()) == (Seq::<Seq<u16>>::empty(), Seq::<u16>::empty()));
        lemma_group_fold_from_bytes((Seq::<Seq<u16>>::empty(), Seq::<u16>::empty()), bytes, w);
        assert(Seq::<u16>::empty() + g == g);
        assert(groups.subrange(0, 0) =~= Seq::<Seq<u16>>::empty());
    } else {
        lemma_group_fold_interleaved(groups, sep, n - 1);
        assert(parts.drop_last() == groups.subrange(0, n - 1).map_values(|g: Seq<u16>| words_of(sub_pattern_text(group_sub_pattern(g)))));
        let head = interleave(parts.drop_last(), sep);
        let before = group_fold(head);
        assert(before == (groups.subrange(0, n - 2), groups[n - 2]));
        lemma_group_fold_concat(head + seq![sep], last_words);
        assert((head + seq![sep]).drop_last() == head);
        assert(group_fold(head + seq![sep]) == (groups.subrange(0, n - 1), Seq::<u16>::empty())) by {
            assert(groups.subrange(0, n - 2).push(groups[n - 2]) == groups.subrange(0, n - 1));
        }
        lemma_group_fold_from_bytes((groups.subrange(0, n - 1), Seq::<u16>::empty()), bytes, w);
        assert(Seq::<u16>::empty() + g == g);
    }
}

/// A value line that the converter writes for parser-built sub-patterns reads back as
/// those sub-patterns, in either form.
pub proof fn lemma_value_line_reads_back(groups: Seq<Seq<u16>>, new_format: bool)
    requires
        groups.len() > 0,
        parser_groups(groups),
    ensures
        value_sub_patterns(value_text(groups_sub_patterns(groups), new_format)) == groups_sub_patterns(groups),
{
    lemma_groups_sub_patterns_map(groups);
    let subs = groups.map_values(|g: Seq<u16>| group_sub_pattern(g));
    let texts = subs.map_values(|p: SubPatternView| sub_pattern_text(p));
    let sep_word = if new_format { seq!['&', '&'] } else { seq!['A', 'N', 'D'] };
    assert(separator_text(new_format) == seq![' '] + sep_word + seq![' ']);
    assert(is_separator_word(sep_word)) by {
        if !new_format {
            let kw = seq!['A', 'N', 'D'];
            assert(same_ignoring_case(sep_word, kw)) by {
                assert forall|k: int| 0 <= k < 3 implies crate::text::upper_code(#[trigger] sep_word[k]) == crate::text::upper_code(kw[k]) by {}
            }
        }
    }
    lemma_words_of_separated(texts, sep_word);
    let n = groups.len() as int;
    assert(groups.subrange(0, n) == groups);
    assert(texts.map_values(|t: Seq<char>| words_of(t)) == groups.subrange(0, n).map_values(|g: Seq<u16>| words_of(sub_pattern_text(group_sub_pattern(g)))));
    lemma_group_fold_interleaved(groups, sep_word, n);
    let body = join_with(texts, separator_text(new_format));
    let ws = words_of(body);
    assert(group_fold(ws) == (groups.subrange(0, n - 1), groups[n - 1]));
    assert(groups.subrange(0, n - 1).push(groups[n - 1]) == groups);
    if new_format {
        assert(value_text(subs, new_format) == body);
        assert(groups[n - 1].len() > 0);
        assert(value_groups(body) == groups);
    } else {
        let end = seq![' ', 'E', 'N', 'D'];
        assert(value_text(subs, new_format) == body + end);
        let end_word = seq!['E', 'N', 'D'];
        lemma_split_after_space(body);
        lemma_split_word(end_word);
        lemma_split_from_clean(body + seq![' '], end_word);
        assert(body + end == (body + seq![' ']) + end_word);
        assert(words_of(body + end) == ws.push(end_word)) by {
            assert(ws + Seq::<Seq<char>>::empty() == ws);
        }
        lemma_group_fold_concat(ws, seq![end_word]);
        assert(seq![end_word].drop_last() =~= Seq::<Seq<char>>::empty());
        assert(is_separator_word(end_word)) by {
            let kw = seq!['E', 'N', 'D'];
            assert(same_ignoring_case(end_word, kw)) by {
                assert forall|k: int| 0 <= k < 3 implies crate::text::upper_code(#[trigger] end_word[k]) == crate::text::upper_code(kw[k]) by {}
            }
        }
        assert(end_word != seq!['?', '?']) by {
            assert(end_word.len() == 3);
        }
        assert(ws.push(end_word) == ws + seq![end_word]);
        let st = group_fold(ws);
        assert(group_fold_from(st, Seq::<Seq<char>>::empty()) == st);
        assert(seq![end_word].last() == end_word);
        assert(group_fold_from(st, seq![end_word]) == group_step(st, end_word));
        assert(group_step(st, end_word) == (groups, Seq::<u16>::empty()));
        assert(group_fold(words_of(body + end)) == (groups, Seq::<u16>::empty()));
        assert(value_groups(body + end) == groups);
    }
}


/// The lines of a configuration written back as text; the blank line before a new
/// name is a line of its own.
pub open spec fn emit_lines(sigs: Seq<SignatureView>, new_format: bool) -> Seq<Seq<char>>
    decreases sigs.len(),
{
    if sigs.len() == 0 {
        Seq::empty()
    } else {
        let before = emit_lines(sigs.drop_last(), new_format);
        let prev = emit_fold(sigs.drop_last(), new_format).1;
        let name = sigs.last().0;
        let v = value_text(sigs.last().1, new_format);
        if name != prev {
            if before.len() > 0 && !(name.len() > 0 && name[0] == '(') {
                before.push(Seq::empty()).push(name).push(v)
            } else {
                before.push(name).push(v)
            }
        } else {
            before.push(v)
        }
    }
}

proof fn lemma_join_push(a: Seq<Seq<char>>, x: Seq<char>, sep: Seq<char>)
    ensures
        join_with(a.push(x), sep) == if a.len() == 0 {
            x
        } else {
            join_with(a, sep) + sep + x
        },
{
    assert(a.push(x).drop_last() == a);
    if a.len() == 0 {
        assert(a.push(x)[0] == x);
    }
}

/// The written text is its lines, each ended by CRLF.
pub proof fn lemma_emit_lines_join(sigs: Seq<SignatureView>, new_format: bool)
    ensures
        emit_lines(sigs, new_format).len() > 0 <==> sigs.len() > 0,
        emit_fold(sigs, new_format).0.len() > 0 <==> sigs.len() > 0,
        join_with(emit_fold(sigs, new_format).0, seq!['\r', '\n']) == join_with(
            emit_lines(sigs, new_format),
            seq!['\r', '\n'],
        ),
        converted_text(sigs, new_format) == join_with(emit_lines(sigs, new_format), seq!['\r', '\n'])
            + seq!['\r', '\n'],
    decreases sigs.len(),
{
    let crlf = seq!['\r', '\n'];
    if sigs.len() > 0 {
        lemma_emit_lines_join(sigs.drop_last(), new_format);
        let st = emit_fold(sigs.drop_last(), new_format);
        let f = st.0;
        let e = emit_lines(sigs.drop_last(), new_format);
        let name = sigs.last().0;
        let v = value_text(sigs.last().1, new_format);
        assert(join_with(f, crlf) == join_with(e, crlf));
        if name != st.1 {
            if e.len() > 0 && !(name.len() > 0 && name[0] == '(') {
                let x = crlf + name;
                lemma_join_push(f, x, crlf);
                lemma_join_push(f.push(x), v, crlf);
                lemma_join_push(e, Seq::empty(), crlf);
                lemma_join_push(e.push(Seq::empty()), name, crlf);
                lemma_join_push(e.push(Seq::empty()).push(name), v, crlf);
                assert(join_with(e, crlf) + crlf + x + crlf + v =~= join_with(e, crlf) + crlf + Seq::<char>::empty() + crlf + name + crlf + v);
            } else {
                lemma_join_push(f, name, crlf);
                lemma_join_push(f.push(name), v, crlf);
                lemma_join_push(e, name, crlf);
                lemma_join_push(e.push(name), v, crlf);
            }
        } else {
            lemma_join_push(f, v, crlf);
            lemma_join_push(e, v, crlf);
        }
    }
}

/// A written line: at least two characters, no white space at either end, and a
/// space as its third character and as its third character from the end.
pub open spec fn line_shape(t: Seq<char>) -> bool {
    &&& t.len() >= 2
    &&& !is_white_space(t[0])
    &&& !is_white_space(t.last())
    &&& t.len() >= 3 ==> t[2] == ' ' && t[t.len() - 3] == ' '
}

proof fn lemma_hex_char_not_white(n: int)
    requires
        0 <= n < 16,
    ensures
        !is_white_space(hex_chars()[n]),
{
    let h = hex_chars();
    if n == 0 { assert(h[0] == '0'); } else if n == 1 { assert(h[1] == '1'); }
    else if n == 2 { assert(h[2] == '2'); } else if n == 3 { assert(h[3] == '3'); }
    else if n == 4 { assert(h[4] == '4'); } else if n == 5 { assert(h[5] == '5'); }
    else if n == 6 { assert(h[6] == '6'); } else if n == 7 { assert(h[7] == '7'); }
    else if n == 8 { assert(h[8] == '8'); } else if n == 9 { assert(h[9] == '9'); }
    else if n == 10 { assert(h[10] == 'A'); } else if n == 11 { assert(h[11] == 'B'); }
    else if n == 12 { assert(h[12] == 'C'); } else if n == 13 { assert(h[13] == 'D'); }
    else if n == 14 { assert(h[14] == 'E'); } else { assert(h[15] == 'F'); }
}

proof fn lemma_byte_text_shape(b: u8, wildcard: Option<u8>)
    ensures
        byte_text(b, wildcard).len() == 2,
        !is_white_space(byte_text(b, wildcard)[0]),
        !is_white_space(byte_text(b, wildcard)[1]),
{
    if wildcard != Some(b) {
        lemma_hex_char_not_white(b as int / 16);
        lemma_hex_char_not_white(b as int % 16);
    }
}

proof fn lemma_join_pairs_shape(parts: Seq<Seq<char>>)
    requires
        parts.len() > 0,
        forall|k: int|
            0 <= k < parts.len() ==> (#[trigger] parts[k]).len() == 2 && !is_white_space(parts[k][0])
                && !is_white_space(parts[k][1]),
    ensures
        line_shape(join_with(parts, seq![' '])),
    decreases parts.len(),
{
    if parts.len() > 1 {
        let init = parts.drop_last();
        assert forall|k: int| 0 <= k < init.len() implies (#[trigger] init[k]).len() == 2
            && !is_white_space(init[k][0]) && !is_white_space(init[k][1]) by {
            assert(init[k] == parts[k]);
        }
        lemma_join_pairs_shape(init);
        let x = join_with(init, seq![' ']);
        let p = parts.last();
        let r = x + seq![' '] + p;
        assert(r == join_with(parts, seq![' ']));
        assert(r[0] == x[0]);
        assert(r.last() == p[1]);
        if x.len() >= 3 {
            assert(r[2] == x[2]);
        } else {
            assert(r[2] == ' ');
        }
        assert(r[r.len() - 3] == ' ');
    } else {
        assert(join_with(parts, seq![' ']) == parts[0]);
    }
}

proof fn lemma_join_lines_shape(parts: Seq<Seq<char>>, w: Seq<char>)
    requires
        parts.len() > 0,
        w.len() > 0,
        forall|k: int| 0 <= k < parts.len() ==> line_shape(#[trigger] parts[k]),
    ensures
        line_shape(join_with(parts, seq![' '] + w + seq![' '])),
    decreases parts.len(),
{
    let sep = seq![' '] + w + seq![' '];
    if parts.len() > 1 {
        let init = parts.drop_last();
        assert forall|k: int| 0 <= k < init.len() implies line_shape(#[trigger] init[k]) by {
            assert(init[k] == parts[k]);
        }
        lemma_join_lines_shape(init, w);
        let x = join_with(init, sep);
        let p = parts[parts.len() - 1];
        assert(line_shape(p));
        let r = x + sep + p;
        assert(r == join_with(parts, sep));
        assert(r[0] == x[0]);
        assert(r.last() == p.last());
        if x.len() >= 3 {
            assert(r[2] == x[2]);
        } else {
            assert(r[2] == sep[0]);
        }
        if p.len() >= 3 {
            assert(r[r.len() - 3] == p[p.len() - 3]);
        } else {
            assert(r[r.len() - 3] == sep[sep.len() - 1]);
        }
    } else {
        assert(join_with(parts, sep) == parts[0]);
    }
}

proof fn lemma_trimmed_self(t: Seq<char>)
    requires
        t.len() > 0,
        !is_white_space(t[0]),
        !is_white_space(t.last()),
    ensures
        trimmed(t) == t,
{
    assert(trim_start(t) == t);
    assert(trim_end(t) == t);
}

/// A written value line of parser-built sub-patterns keeps the shape of a value line.
proof fn lemma_value_text_shape(groups: Seq<Seq<u16>>, new_format: bool)
    requires
        groups.len() > 0,
        parser_groups(groups),
    ensures
        line_shape(join_with(
            groups_sub_patterns(groups).map_values(|p: SubPatternView| sub_pattern_text(p)),
            separator_text(new_format),
        )),
{
    lemma_groups_sub_patterns_map(groups);
    let subs = groups.map_values(|g: Seq<u16>| group_sub_pattern(g));
    let texts = subs.map_values(|p: SubPatternView| sub_pattern_text(p));
    assert forall|k: int| 0 <= k < texts.len() implies line_shape(#[trigger] texts[k]) by {
        let g = groups[k];
        assert(tokens_in_range(g) && group_accepted(g));
        let w = chosen_wildcard(g);
        let bytes = substituted(g);
        let parts = bytes.map_values(|b: u8| byte_text(b, w));
        assert forall|q: int| 0 <= q < parts.len() implies (#[trigger] parts[q]).len() == 2
            && !is_white_space(parts[q][0]) && !is_white_space(parts[q][1]) by {
            lemma_byte_text_shape(bytes[q], w);
        }
        assert(parts.len() == g.len());
        lemma_join_pairs_shape(parts);
        assert(texts[k] == sub_pattern_text(group_sub_pattern(g)));
    }
    let w = if new_format { seq!['&', '&'] } else { seq!['A', 'N', 'D'] };
    assert(separator_text(new_format) == seq![' '] + w + seq![' ']);
    lemma_join_lines_shape(texts, w);
}

/// A name as the parser keeps it: empty, or a trimmed name line.
pub open spec fn name_ok(n: Seq<char>) -> bool {
    n.len() == 0 || (trimmed(n) == n && name_line(n))
}

/// A signature as the parser builds it; in the new form it has a sub-pattern.
pub open spec fn sig_ok(sig: SignatureView, new_format: bool) -> bool {
    &&& name_ok(sig.0)
    &&& exists|groups: Seq<Seq<u16>>|
        parser_groups(groups) && sig.1 == groups_sub_patterns(groups) && (new_format ==> groups.len()
            > 0)
}

proof fn lemma_name_step(st: (Seq<SignatureView>, Seq<char>, Seq<Seq<char>>), n: Seq<char>)
    requires
        name_ok(n),
    ensures
        config_step(st, None, n) == (flush_lines(st.0, None, st.1, st.2), n, Seq::<Seq<char>>::empty()),
{
    if n.len() == 0 {
        assert(trim_start(n) == n);
        assert(trim_end(n) == n);
    }
}

proof fn lemma_not_end(v: Seq<char>)
    requires
        v.len() >= 3,
        v[v.len() - 3] == ' ',
    ensures
        !end_marker(v),
{
    let tail = v.subrange(v.len() - 3, v.len() as int);
    let kw = seq!['E', 'N', 'D'];
    if same_ignoring_case(tail, kw) {
        assert(upper_code(tail[0]) == upper_code(kw[0]));
    }
}

proof fn lemma_value_step_new(st: (Seq<SignatureView>, Seq<char>, Seq<Seq<char>>), groups: Seq<Seq<u16>>)
    requires
        groups.len() > 0,
        parser_groups(groups),
    ensures
        config_step(st, None, value_text(groups_sub_patterns(groups), true)) == (
            st.0,
            st.1,
            st.2.push(value_text(groups_sub_patterns(groups), true)),
        ),
{
    lemma_value_text_shape(groups, true);
    let v = value_text(groups_sub_patterns(groups), true);
    lemma_trimmed_self(v);
    if v.len() >= 3 {
        lemma_not_end(v);
    }
}

proof fn lemma_value_step_old(st: (Seq<SignatureView>, Seq<char>, Seq<Seq<char>>), groups: Seq<Seq<u16>>)
    requires
        parser_groups(groups),
        st.2.len() == 0,
    ensures
        config_step(st, None, value_text(groups_sub_patterns(groups), false)) == (
            st.0.push((st.1, groups_sub_patterns(groups))),
            st.1,
            Seq::<Seq<char>>::empty(),
        ),
{
    let subs = groups_sub_patterns(groups);
    let v = value_text(subs, false);
    let end = seq![' ', 'E', 'N', 'D'];
    let kw = seq!['E', 'N', 'D'];
    if groups.len() > 0 {
        lemma_value_text_shape(groups, false);
        let body = join_with(subs.map_values(|p: SubPatternView| sub_pattern_text(p)), separator_text(false));
        assert(v == body + end);
        assert(v[0] == body[0]);
        assert(v.last() == 'D');
        lemma_trimmed_self(v);
        if body.len() >= 3 {
            assert(v[2] == body[2]);
        } else {
            assert(v[2] == ' ');
        }
        assert(v.subrange(v.len() - 3, v.len() as int) == kw);
        assert(same_ignoring_case(kw, kw));
        assert(st.2.push(v) == seq![v]);
        assert(joined(seq![v]) == v);
        lemma_value_line_reads_back(groups, false);
    } else {
        assert(subs.len() == 0);
        assert(v == end) by {
            assert(join_with(subs.map_values(|p: SubPatternView| sub_pattern_text(p)), separator_text(false)) == Seq::<char>::empty());
        }
        assert(trim_start(v) == kw) by {
            assert(v.drop_first() == kw);
            assert(trim_start(kw) == kw);
        }
        assert(trim_end(kw) == kw);
        assert(trimmed(v) == kw);
        assert(kw.subrange(0, 3) == kw);
        assert(same_ignoring_case(kw, kw));
        assert(end_marker(kw));
        assert(!name_line(kw));
        assert(st.2.push(kw) == seq![kw]);
        assert(joined(seq![kw]) == kw);
        lemma_split_end_word();
        assert(groups_sub_patterns(seq![Seq::<u16>::empty()]) == Seq::<SubPatternView>::empty()) by {
            assert(seq![Seq::<u16>::empty()].drop_last() =~= Seq::<Seq<u16>>::empty());
            assert(groups_sub_patterns(Seq::<Seq<u16>>::empty()) == Seq::<SubPatternView>::empty());
            assert(!group_accepted(Seq::<u16>::empty()));
        }
    }
}

/// `END` alone is one empty group.
proof fn lemma_split_end_word()
    ensures
        value_groups(seq!['E', 'N', 'D']) == seq![Seq::<u16>::empty()],
{
    let kw = seq!['E', 'N', 'D'];
    assert forall|i: int| 0 <= i < kw.len() implies !is_ascii_space(#[trigger] kw[i]) by {
        if i == 0 {} else if i == 1 {} else {}
    }
    lemma_split_word(kw);
    assert(Seq::<Seq<char>>::empty().push(kw) == seq![kw]);
    assert(words_of(kw) == seq![kw]);
    assert(seq![kw].drop_last() =~= Seq::<Seq<char>>::empty());
    assert(group_fold(Seq::<Seq<char>>::empty()) == (Seq::<Seq<u16>>::empty(), Seq::<u16>::empty()));
    assert(same_ignoring_case(kw, kw));
    assert(group_fold(seq![kw]) == (seq![Seq::<u16>::empty()], Seq::<u16>::empty())) by {
        assert(Seq::<Seq<u16>>::empty().push(Seq::<u16>::empty()) == seq![Seq::<u16>::empty()]);
    }
}

proof fn lemma_flush_push(sigs: Seq<SignatureView>, name: Seq<char>, pending: Seq<Seq<char>>, v: Seq<char>)
    ensures
        flush_lines(sigs, None, name, pending.push(v)) == flush_lines(sigs, None, name, pending).push(
            (name, value_sub_patterns(v)),
        ),
{
    assert(pending.push(v).drop_last() == pending);
    assert(pending.push(v).last() == v);
}

/// A name line, with or without a blank line before it, closes what is pending and
/// starts the named signature.
proof fn lemma_head_lines(before: Seq<Seq<char>>, name: Seq<char>, pre: Seq<SignatureView>, blank: bool)
    requires
        name_ok(name),
        ({
            let st = config_fold(before, None);
            flush_lines(st.0, None, st.1, st.2) == pre
        }),
    ensures
        config_fold(
            if blank {
                before.push(Seq::<char>::empty()).push(name)
            } else {
                before.push(name)
            },
            None,
        ) == (pre, name, Seq::<Seq<char>>::empty()),
{
    let st = config_fold(before, None);
    let empty_pending = Seq::<Seq<char>>::empty();
    if blank {
        let l1 = before.push(Seq::<char>::empty());
        let l2 = l1.push(name);
        assert(l1.drop_last() == before);
        assert(l2.drop_last() == l1);
        assert(l1.last() == Seq::<char>::empty());
        assert(l2.last() == name);
        lemma_name_step(st, Seq::<char>::empty());
        let s1 = config_step(st, None, Seq::<char>::empty());
        assert(s1 == (pre, Seq::<char>::empty(), empty_pending));
        assert(config_fold(l1, None) == s1);
        lemma_name_step(s1, name);
        assert(flush_lines(pre, None, Seq::<char>::empty(), empty_pending) == pre);
    } else {
        let l1 = before.push(name);
        assert(l1.drop_last() == before);
        assert(l1.last() == name);
        lemma_name_step(st, name);
    }
}

/// Parsing the lines written for the first `k` signatures gives back those signatures.
#[verifier::rlimit(40)]
proof fn lemma_parse_emitted(sigs: Seq<SignatureView>, new_format: bool, k: int)
    requires
        0 <= k <= sigs.len(),
        forall|i: int| 0 <= i < sigs.len() ==> sig_ok(#[trigger] sigs[i], new_format),
    ensures
        ({
            let st = config_fold(emit_lines(sigs.subrange(0, k), new_format), None);
            &&& st.1 == emit_fold(sigs.subrange(0, k), new_format).1
            &&& flush_lines(st.0, None, st.1, st.2) == sigs.subrange(0, k)
            &&& !new_format ==> st.2.len() == 0
        }),
    decreases k,
{
    let cur = sigs.subrange(0, k);
    if k == 0 {
        assert(cur =~= Seq::<SignatureView>::empty());
        assert(emit_lines(cur, new_format) == Seq::<Seq<char>>::empty());
        assert(config_fold(Seq::<Seq<char>>::empty(), None) == (Seq::<SignatureView>::empty(), Seq::<char>::empty(), Seq::<Seq<char>>::empty()));
    } else {
        lemma_parse_emitted(sigs, new_format, k - 1);
        let pre = sigs.subrange(0, k - 1);
        assert(cur.drop_last() == pre);
        assert(cur.last() == sigs[k - 1]);
        let sig = sigs[k - 1];
        assert(sig_ok(sig, new_format));
        let groups = choose|g: Seq<Seq<u16>>|
            parser_groups(g) && sig.1 == groups_sub_patterns(g) && (new_format ==> g.len() > 0);
        let before = emit_lines(pre, new_format);
        let prev = emit_fold(pre, new_format).1;
        let st = config_fold(before, None);
        let name = sig.0;
        let v = value_text(sig.1, new_format);
        assert(cur == pre.push(sig));
        assert(emit_fold(cur, new_format).1 == name);
        if new_format {
            lemma_value_line_reads_back(groups, true);
        }
        // the state once the name of this signature is in place
        let named = if name != prev {
            if before.len() > 0 && !(name.len() > 0 && name[0] == '(') {
                lemma_head_lines(before, name, pre, true);
                before.push(Seq::<char>::empty()).push(name)
            } else {
                lemma_head_lines(before, name, pre, false);
                before.push(name)
            }
        } else {
            before
        };
        let sn = config_fold(named, None);
        assert(sn.1 == name);
        assert(flush_lines(sn.0, None, sn.1, sn.2) == pre);
        assert(!new_format ==> sn.2.len() == 0);
        let all = named.push(v);
        assert(all.drop_last() == named);
        assert(all == emit_lines(cur, new_format));
        if new_format {
            lemma_value_step_new(sn, groups);
            lemma_flush_push(sn.0, sn.1, sn.2, v);
        } else {
            lemma_value_step_old(sn, groups);
            assert(flush_lines(sn.0, None, sn.1, sn.2) == sn.0);
        }
    }
}

proof fn lemma_group_fold_in_range(ws: Seq<Seq<char>>)
    ensures
        forall|i: int| 0 <= i < group_fold(ws).0.len() ==> tokens_in_range(#[trigger] group_fold(ws).0[i]),
        tokens_in_range(group_fold(ws).1),
    decreases ws.len(),
{
    if ws.len() > 0 {
        lemma_group_fold_in_range(ws.drop_last());
        let st = group_fold(ws.drop_last());
        let w = ws.last();
        let next = group_step(st, w);
        assert(next == group_fold(ws));
        if w.len() >= 2 && !(w == seq!['?', '?']) && !crate::format::is_separator_word(w) {
            let v = hex_pair(w[0], w[1]);
            assert(v < CMD_WILDCARD) by {
                match (hex_value(w[0]), hex_value(w[1])) {
                    (Some(x), Some(y)) => {
                        assert(x < 16 && y < 16);
                    },
                    _ => {},
                }
            }
            assert forall|k: int| 0 <= k < next.1.len() implies #[trigger] next.1[k] <= CMD_WILDCARD by {
                if k < st.1.len() {
                    assert(next.1[k] == st.1[k]);
                }
            }
        } else if w.len() >= 2 && w == seq!['?', '?'] {
            assert forall|k: int| 0 <= k < next.1.len() implies #[trigger] next.1[k] <= CMD_WILDCARD by {
                if k < st.1.len() {
                    assert(next.1[k] == st.1[k]);
                }
            }
        } else if w.len() >= 2 {
            assert forall|i: int| 0 <= i < next.0.len() implies tokens_in_range(#[trigger] next.0[i]) by {
                if i < st.0.len() {
                    assert(next.0[i] == st.0[i]);
                }
            }
            assert(tokens_in_range(next.1));
        }
    }
}

/// The groups that become sub-patterns, in order.
pub open spec fn accepted_groups(h: Seq<Seq<u16>>) -> Seq<Seq<u16>>
    decreases h.len(),
{
    if h.len() == 0 {
        h
    } else {
        let a = accepted_groups(h.drop_last());
        if group_accepted(h.last()) {
            a.push(h.last())
        } else {
            a
        }
    }
}

proof fn lemma_accepted_groups(h: Seq<Seq<u16>>)
    requires
        forall|i: int| 0 <= i < h.len() ==> tokens_in_range(#[trigger] h[i]),
    ensures
        parser_groups(accepted_groups(h)),
        groups_sub_patterns(accepted_groups(h)) == groups_sub_patterns(h),
    decreases h.len(),
{
    if h.len() > 0 {
        let init = h.drop_last();
        assert forall|i: int| 0 <= i < init.len() implies tokens_in_range(#[trigger] init[i]) by {
            assert(init[i] == h[i]);
        }
        lemma_accepted_groups(init);
        let a = accepted_groups(init);
        let g = h.last();
        assert(tokens_in_range(h[h.len() - 1]));
        if group_accepted(g) {
            assert(a.push(g).drop_last() == a);
            assert forall|i: int| 0 <= i < a.push(g).len() implies tokens_in_range(#[trigger] a.push(g)[i]) && group_accepted(a.push(g)[i]) by {
                if i < a.len() {
                    assert(a.push(g)[i] == a[i]);
                }
            }
        }
    }
}

/// Sub-patterns that some accepted groups give.
pub open spec fn subs_ok(subs: Seq<SubPatternView>) -> bool {
    exists|groups: Seq<Seq<u16>>| parser_groups(groups) && subs == groups_sub_patterns(groups)
}

proof fn lemma_value_subs_ok(x: Seq<char>)
    ensures
        subs_ok(value_sub_patterns(x)),
{
    let ws = words_of(x);
    lemma_group_fold_in_range(ws);
    let st = group_fold(ws);
    let h = value_groups(x);
    assert forall|i: int| 0 <= i < h.len() implies tokens_in_range(#[trigger] h[i]) by {
        if i < st.0.len() {
            assert(h[i] == st.0[i]);
        }
    }
    lemma_accepted_groups(h);
    let g = accepted_groups(h);
    assert(parser_groups(g) && value_sub_patterns(x) == groups_sub_patterns(g));
}

pub open spec fn parsed_ok(sigs: Seq<SignatureView>) -> bool {
    forall|i: int| 0 <= i < sigs.len() ==> name_ok((#[trigger] sigs[i]).0) && subs_ok(sigs[i].1)
}

proof fn lemma_flush_ok(sigs: Seq<SignatureView>, name: Seq<char>, pending: Seq<Seq<char>>)
    requires
        parsed_ok(sigs),
        name_ok(name),
    ensures
        parsed_ok(flush_lines(sigs, None, name, pending)),
    decreases pending.len(),
{
    if pending.len() > 0 {
        lemma_flush_ok(sigs, name, pending.drop_last());
        let before = flush_lines(sigs, None, name, pending.drop_last());
        lemma_value_subs_ok(pending.last());
        let after = before.push((name, value_sub_patterns(pending.last())));
        assert forall|i: int| 0 <= i < after.len() implies name_ok((#[trigger] after[i]).0) && subs_ok(after[i].1) by {
            if i < before.len() {
                assert(after[i] == before[i]);
            }
        }
    }
}

proof fn lemma_config_fold_ok(lines: Seq<Seq<char>>)
    ensures
        parsed_ok(config_fold(lines, None).0),
        name_ok(config_fold(lines, None).1),
    decreases lines.len(),
{
    if lines.len() == 0 {
        assert(config_fold(lines, None).0 == Seq::<SignatureView>::empty());
    } else {
        lemma_config_fold_ok(lines.drop_last());
        let st = config_fold(lines.drop_last(), None);
        let line = lines.last();
        let t = trimmed(line);
        lemma_flush_ok(st.0, st.1, st.2);
        lemma_trimmed_idempotent(line);
        if min_length_line(t) && !name_line(t) && end_marker(t) {
            let p = st.2.push(t);
            lemma_value_subs_ok(joined(p));
            let after = st.0.push((st.1, value_sub_patterns(joined(p))));
            assert forall|i: int| 0 <= i < after.len() implies name_ok((#[trigger] after[i]).0) && subs_ok(after[i].1) by {
                if i < st.0.len() {
                    assert(after[i] == st.0[i]);
                }
            }
        }
    }
}

/// Parsing configuration lines, writing the signatures back as text in either form
/// and parsing the written lines gives the same signatures. The written text is those
/// lines, each ended by CRLF. In the new form a signature without sub-patterns would
/// write an empty value line, so there every signature has one.
pub proof fn lemma_config_round_trip(lines: Seq<Seq<char>>, new_format: bool)
    requires
        new_format ==> forall|i: int|
            0 <= i < parse_config(lines, None).len() ==> (#[trigger] parse_config(lines, None)[i]).1.len() > 0,
    ensures
        parse_config(emit_lines(parse_config(lines, None), new_format), None) == parse_config(lines, None),
        converted_text(parse_config(lines, None), new_format) == join_with(
            emit_lines(parse_config(lines, None), new_format),
            seq!['\r', '\n'],
        ) + seq!['\r', '\n'],
{
    let sigs = parse_config(lines, None);
    lemma_config_fold_ok(lines);
    let st = config_fold(lines, None);
    lemma_flush_ok(st.0, st.1, st.2);
    assert forall|i: int| 0 <= i < sigs.len() implies sig_ok(#[trigger] sigs[i], new_format) by {
        assert(name_ok(sigs[i].0) && subs_ok(sigs[i].1));
        let g = choose|groups: Seq<Seq<u16>>| parser_groups(groups) && sigs[i].1 == groups_sub_patterns(groups);
        lemma_groups_sub_patterns_map(g);
        assert(parser_groups(g) && sigs[i].1 == groups_sub_patterns(g) && (new_format ==> g.len() > 0));
    }
    lemma_parse_emitted(sigs, new_format, sigs.len() as int);
    assert(sigs.subrange(0, sigs.len() as int) == sigs);
    lemma_emit_lines_join(sigs, new_format);
}


/// The first two written lines are the first signature's name and value line.
proof fn lemma_emit_lines_start(sigs: Seq<SignatureView>, new_format: bool, k: int)
    requires
        1 <= k <= sigs.len(),
        sigs[0].0.len() > 0,
    ensures
        emit_lines(sigs.subrange(0, k), new_format).len() >= 2,
        emit_lines(sigs.subrange(0, k), new_format)[0] == sigs[0].0,
        emit_lines(sigs.subrange(0, k), new_format)[1] == value_text(sigs[0].1, new_format),
    decreases k,
{
    let cur = sigs.subrange(0, k);
    if k == 1 {
        assert(cur.drop_last() =~= Seq::<SignatureView>::empty());
        assert(cur.last() == sigs[0]);
        assert(emit_fold(Seq::<SignatureView>::empty(), new_format).1 == Seq::<char>::empty());
        assert(emit_lines(Seq::<SignatureView>::empty(), new_format) == Seq::<Seq<char>>::empty());
    } else {
        lemma_emit_lines_start(sigs, new_format, k - 1);
        assert(cur.drop_last() == sigs.subrange(0, k - 1));
    }
}

/// The lines written for parsed signatures start like a configuration, so the
/// configuration reader accepts them, when the first signature has a name and a
/// sub-pattern.
pub proof fn lemma_written_lines_are_config(lines: Seq<Seq<char>>, new_format: bool)
    requires
        parse_config(lines, None).len() > 0,
        parse_config(lines, None)[0].0.len() > 0,
        parse_config(lines, None)[0].1.len() > 0,
    ensures
        crate::format::config_header_from(emit_lines(parse_config(lines, None), new_format), 0),
{
    let sigs = parse_config(lines, None);
    lemma_config_fold_ok(lines);
    let st = config_fold(lines, None);
    lemma_flush_ok(st.0, st.1, st.2);
    let sig = sigs[0];
    assert(name_ok(sig.0) && subs_ok(sig.1));
    let g = choose|groups: Seq<Seq<u16>>| parser_groups(groups) && sig.1 == groups_sub_patterns(groups);
    lemma_groups_sub_patterns_map(g);
    assert(g.len() > 0);
    lemma_emit_lines_start(sigs, new_format, sigs.len() as int);
    assert(sigs.subrange(0, sigs.len() as int) == sigs);
    let out = emit_lines(sigs, new_format);
    let v = value_text(sig.1, new_format);
    lemma_value_text_shape(g, new_format);
    let body = join_with(sig.1.map_values(|p: SubPatternView| sub_pattern_text(p)), separator_text(new_format));
    if !new_format {
        assert(v == body + seq![' ', 'E', 'N', 'D']);
        if body.len() >= 3 {
            assert(v[2] == body[2]);
        } else {
            assert(v[2] == ' ');
        }
    } else {
        assert(v == body);
    }
    assert(trimmed(out[0]).len() > 0);
    assert(!name_line(v));
}

/// The text holds no newline.
pub open spec fn no_newline(s: Seq<char>) -> bool {
    forall|i: int| 0 <= i < s.len() ==> #[trigger] s[i] != '\n'
}

proof fn lemma_join_no_newline(parts: Seq<Seq<char>>, sep: Seq<char>)
    requires
        forall|k: int| 0 <= k < parts.len() ==> no_newline(#[trigger] parts[k]),
        no_newline(sep),
    ensures
        no_newline(join_with(parts, sep)),
    decreases parts.len(),
{
    if parts.len() > 1 {
        let init = parts.drop_last();
        assert forall|k: int| 0 <= k < init.len() implies no_newline(#[trigger] init[k]) by {
            assert(init[k] == parts[k]);
        }
        lemma_join_no_newline(init, sep);
        let a = join_with(init, sep);
        let l = parts[parts.len() - 1];
        assert(no_newline(l));
        let r = a + sep + l;
        assert(r == join_with(parts, sep));
        assert forall|i: int| 0 <= i < r.len() implies #[trigger] r[i] != '\n' by {
            if i < a.len() {
                assert(r[i] == a[i]);
            } else if i < a.len() + sep.len() {
                assert(r[i] == sep[i - a.len()]);
            } else {
                assert(r[i] == l[i - a.len() - sep.len()]);
            }
        }
    } else if parts.len() == 1 {
        assert(join_with(parts, sep) == parts[0]);
    }
}

proof fn lemma_value_text_no_newline(subs: Seq<SubPatternView>, new_format: bool)
    ensures
        no_newline(value_text(subs, new_format)),
{
    let texts = subs.map_values(|p: SubPatternView| sub_pattern_text(p));
    assert forall|k: int| 0 <= k < texts.len() implies no_newline(#[trigger] texts[k]) by {
        let p = subs[k];
        let parts = p.0.map_values(|b: u8| byte_text(b, p.1));
        assert forall|q: int| 0 <= q < parts.len() implies no_newline(#[trigger] parts[q]) by {
            lemma_byte_text_shape(p.0[q], p.1);
            let t = parts[q];
            assert forall|i: int| 0 <= i < t.len() implies #[trigger] t[i] != '\n' by {
                assert(is_white_space('\n'));
                if i == 0 {} else {}
            }
        }
        lemma_join_no_newline(parts, seq![' ']);
        assert(texts[k] == sub_pattern_text(p));
    }
    let sep = separator_text(new_format);
    assert(no_newline(sep));
    lemma_join_no_newline(texts, sep);
    let body = join_with(texts, sep);
    if !new_format {
        let v = body + seq![' ', 'E', 'N', 'D'];
        assert forall|i: int| 0 <= i < v.len() implies #[trigger] v[i] != '\n' by {
            if i < body.len() {
                assert(v[i] == body[i]);
            }
        }
    }
}

proof fn lemma_emit_lines_no_newline(sigs: Seq<SignatureView>, new_format: bool, k: int)
    requires
        0 <= k <= sigs.len(),
        forall|i: int| 0 <= i < sigs.len() ==> no_newline((#[trigger] sigs[i]).0),
    ensures
        forall|j: int|
            0 <= j < emit_lines(sigs.subrange(0, k), new_format).len() ==> no_newline(
                #[trigger] emit_lines(sigs.subrange(0, k), new_format)[j],
            ),
    decreases k,
{
    let cur = sigs.subrange(0, k);
    if k == 0 {
        assert(cur =~= Seq::<SignatureView>::empty());
    } else {
        lemma_emit_lines_no_newline(sigs, new_format, k - 1);
        assert(cur.drop_last() == sigs.subrange(0, k - 1));
        assert(cur.last() == sigs[k - 1]);
        lemma_value_text_no_newline(sigs[k - 1].1, new_format);
        let before = emit_lines(sigs.subrange(0, k - 1), new_format);
        let name = sigs[k - 1].0;
        let v = value_text(sigs[k - 1].1, new_format);
        let out = emit_lines(cur, new_format);
        assert(no_newline(Seq::<char>::empty()));
        assert(no_newline(name));
        assert forall|j: int| 0 <= j < out.len() implies no_newline(#[trigger] out[j]) by {
            if j < before.len() {
                assert(out[j] == before[j]);
            } else if j == out.len() - 1 {
                assert(out[j] == v);
            } else if out.len() - 1 - j == 1 {
                assert(out[j] == name);
            } else {
                assert(out[j] == Seq::<char>::empty());
            }
        }
    }
}

/// The index of the first newline, or the length when there is none.
pub open spec fn newline_index(t: Seq<char>) -> int
    decreases t.len(),
{
    if t.len() == 0 || t[0] == '\n' {
        0
    } else {
        1 + newline_index(t.drop_first())
    }
}

/// A line without the carriage return that ends it, if any.
pub open spec fn strip_cr(l: Seq<char>) -> Seq<char> {
    if l.len() > 0 && l.last() == '\r' {
        l.drop_last()
    } else {
        l
    }
}

/// The lines of a text as `BufRead::lines` reads them: split at each newline, a
/// carriage return before it removed, and no empty line after a final newline.
pub open spec fn text_lines(t: Seq<char>) -> Seq<Seq<char>>
    decreases t.len(),
{
    if t.len() == 0 {
        Seq::empty()
    } else {
        let i = newline_index(t);
        if i < 0 || i >= t.len() {
            seq![strip_cr(t)]
        } else {
            seq![strip_cr(t.subrange(0, i))] + text_lines(t.subrange(i + 1, t.len() as int))
        }
    }
}

/// The lines, each followed by CRLF, front to back.
pub open spec fn crlf_text(lines: Seq<Seq<char>>) -> Seq<char>
    decreases lines.len(),
{
    if lines.len() == 0 {
        Seq::empty()
    } else {
        lines[0] + seq!['\r', '\n'] + crlf_text(lines.drop_first())
    }
}

proof fn lemma_newline_index(a: Seq<char>, b: Seq<char>)
    requires
        no_newline(a),
    ensures
        newline_index(a + seq!['\r', '\n'] + b) == a.len() + 1,
    decreases a.len(),
{
    let t = a + seq!['\r', '\n'] + b;
    if a.len() == 0 {
        assert(t[0] == '\r');
        assert(t.drop_first()[0] == '\n');
        assert(newline_index(t.drop_first()) == 0);
        assert(newline_index(t) == 1 + newline_index(t.drop_first()));
    } else {
        assert(a[0] != '\n');
        assert(t[0] == a[0]);
        assert(no_newline(a.drop_first())) by {
            assert forall|j: int| 0 <= j < a.drop_first().len() implies #[trigger] a.drop_first()[j] != '\n' by {
                assert(a.drop_first()[j] == a[j + 1]);
            }
        }
        assert(t.drop_first() == a.drop_first() + seq!['\r', '\n'] + b);
        lemma_newline_index(a.drop_first(), b);
        assert(newline_index(t) == 1 + newline_index(t.drop_first()));
    }
}

/// Lines without newlines, each followed by CRLF, read back as themselves.
proof fn lemma_text_lines_crlf(lines: Seq<Seq<char>>)
    requires
        forall|k: int| 0 <= k < lines.len() ==> no_newline(#[trigger] lines[k]),
    ensures
        text_lines(crlf_text(lines)) == lines,
    decreases lines.len(),
{
    if lines.len() > 0 {
        let a = lines[0];
        let rest = lines.drop_first();
        assert forall|k: int| 0 <= k < rest.len() implies no_newline(#[trigger] rest[k]) by {
            assert(rest[k] == lines[k + 1]);
        }
        lemma_text_lines_crlf(rest);
        let b = crlf_text(rest);
        let t = crlf_text(lines);
        assert(t == a + seq!['\r', '\n'] + b);
        lemma_newline_index(a, b);
        assert(t.subrange(0, a.len() as int + 1) == a + seq!['\r']);
        assert(strip_cr(a + seq!['\r']) == a) by {
            assert((a + seq!['\r']).drop_last() == a);
        }
        assert(t.subrange(a.len() as int + 2, t.len() as int) == b);
        assert(seq![a] + rest == lines);
    }
}

proof fn lemma_crlf_text_push(lines: Seq<Seq<char>>, x: Seq<char>)
    ensures
        crlf_text(lines.push(x)) == crlf_text(lines) + x + seq!['\r', '\n'],
    decreases lines.len(),
{
    if lines.len() == 0 {
        assert(lines.push(x).drop_first() =~= Seq::<Seq<char>>::empty());
        assert(crlf_text(Seq::<Seq<char>>::empty()) == Seq::<char>::empty());
    } else {
        lemma_crlf_text_push(lines.drop_first(), x);
        assert(lines.push(x).drop_first() == lines.drop_first().push(x));
        assert(lines.push(x)[0] == lines[0]);
    }
}

/// Lines joined by CRLF with a final CRLF are each line followed by CRLF.
proof fn lemma_join_is_crlf_text(lines: Seq<Seq<char>>)
    ensures
        lines.len() > 0 ==> join_with(lines, seq!['\r', '\n']) + seq!['\r', '\n'] == crlf_text(lines),
    decreases lines.len(),
{
    if lines.len() > 0 {
        let init = lines.drop_last();
        lemma_crlf_text_push(init, lines.last());
        assert(init.push(lines.last()) == lines);
        if init.len() > 0 {
            lemma_join_is_crlf_text(init);
        } else {
            assert(crlf_text(init) == Seq::<char>::empty());
            assert(join_with(lines, seq!['\r', '\n']) == lines[0]);
        }
    }
}

/// The text that the converter writes reads back, line by line, as the written lines,
/// when no name holds a newline.
pub proof fn lemma_converted_text_lines(sigs: Seq<SignatureView>, new_format: bool)
    requires
        forall|i: int| 0 <= i < sigs.len() ==> no_newline((#[trigger] sigs[i]).0),
    ensures
        text_lines(converted_text(sigs, new_format)) == if sigs.len() == 0 {
            seq![Seq::<char>::empty()]
        } else {
            emit_lines(sigs, new_format)
        },
{
    lemma_emit_lines_join(sigs, new_format);
    let out = emit_lines(sigs, new_format);
    if sigs.len() == 0 {
        let t = converted_text(sigs, new_format);
        assert(emit_fold(sigs, new_format).0.len() == 0);
        assert(t == seq!['\r', '\n']);
        assert(newline_index(t.drop_first()) == 0);
        assert(t.subrange(0, 1) == seq!['\r']);
        assert(seq!['\r'].drop_last() =~= Seq::<char>::empty());
        assert(t.subrange(2, 2) =~= Seq::<char>::empty());
        assert(text_lines(Seq::<char>::empty()) == Seq::<Seq<char>>::empty());
        assert(seq![Seq::<char>::empty()] + Seq::<Seq<char>>::empty() == seq![Seq::<char>::empty()]);
    } else {
        lemma_emit_lines_no_newline(sigs, new_format, sigs.len() as int);
        assert(sigs.subrange(0, sigs.len() as int) == sigs);
        lemma_join_is_crlf_text(out);
        lemma_text_lines_crlf(out);
    }
}

/// Parsing configuration lines, writing the signatures back as text and reading that
/// text line by line gives lines that the configuration reader accepts and that parse
/// to the same signatures. This holds when there are signatures, the first has a name
/// and a sub-pattern, no name holds a newline, and, in the new form, every signature
/// has a sub-pattern.
pub proof fn lemma_config_text_round_trip(lines: Seq<Seq<char>>, new_format: bool)
    requires
        parse_config(lines, None).len() > 0,
        parse_config(lines, None)[0].0.len() > 0,
        parse_config(lines, None)[0].1.len() > 0,
        forall|i: int|
            0 <= i < parse_config(lines, None).len() ==> no_newline((#[trigger] parse_config(lines, None)[i]).0),
        new_format ==> forall|i: int|
            0 <= i < parse_config(lines, None).len() ==> (#[trigger] parse_config(lines, None)[i]).1.len() > 0,
    ensures
        ({
            let read = text_lines(converted_text(parse_config(lines, None), new_format));
            &&& crate::format::config_header_from(read, 0)
            &&& parse_config(read, None) == parse_config(lines, None)
        }),
{
    let sigs = parse_config(lines, None);
    lemma_converted_text_lines(sigs, new_format);
    lemma_written_lines_are_config(lines, new_format);
    lemma_config_round_trip(lines, new_format);
}

} // verus!
