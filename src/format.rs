//! The configuration and info text formats, stated line by line.
use vstd::prelude::*;

use crate::signature::{chosen_wildcard, group_accepted, substituted, CMD_WILDCARD};
use crate::text::{is_ascii_space, same_ignoring_case, trimmed};

verus! {

/// A sub-pattern as the parser builds it: its bytes and its wildcard.
pub type SubPatternView = (Seq<u8>, Option<u8>);

/// A signature as the parser builds it: its name and its sub-patterns.
pub type SignatureView = (Seq<char>, Seq<SubPatternView>);

/// An info block: the signature name and its tag lines.
pub type InfoView = (Seq<char>, Seq<Seq<char>>);

// ---- words of a value line ----
/// One character of a whitespace split: completed words and the word in progress.
pub open spec fn split_step(st: (Seq<Seq<char>>, Seq<char>), c: char) -> (Seq<Seq<char>>, Seq<char>) {
    if is_ascii_space(c) {
        if st.1.len() > 0 {
            (st.0.push(st.1), Seq::empty())
        } else {
            (st.0, Seq::empty())
        }
    } else {
        (st.0, st.1.push(c))
    }
}

pub open spec fn split_fold(s: Seq<char>) -> (Seq<Seq<char>>, Seq<char>)
    decreases s.len(),
{
    if s.len() == 0 {
        (Seq::empty(), Seq::empty())
    } else {
        split_step(split_fold(s.drop_last()), s.last())
    }
}

/// The non-empty runs of non-space characters, in order.
pub open spec fn words_of(s: Seq<char>) -> Seq<Seq<char>> {
    let st = split_fold(s);
    if st.1.len() > 0 {
        st.0.push(st.1)
    } else {
        st.0
    }
}

// ---- tokens ----
pub open spec fn hex_value(c: char) -> Option<u16> {
    let u = c as u32;
    if 0x30 <= u <= 0x39 {
        Some((u - 0x30) as u16)
    } else if 0x41 <= u <= 0x46 {
        Some((u - 0x37) as u16)
    } else if 0x61 <= u <= 0x66 {
        Some((u - 0x57) as u16)
    } else {
        None
    }
}

/// Two characters read as a hexadecimal number, as `u16::from_str_radix` reads them
/// (a leading `+` is allowed); 0 where they do not parse.
pub open spec fn hex_pair(a: char, b: char) -> u16 {
    match (hex_value(a), hex_value(b)) {
        (Some(x), Some(y)) => (x * 16 + y) as u16,
        (None, Some(y)) => if a == '+' {
            y
        } else {
            0
        },
        _ => 0,
    }
}

pub open spec fn is_wildcard_word(w: Seq<char>) -> bool {
    w == seq!['?', '?']
}

pub open spec fn is_separator_word(w: Seq<char>) -> bool {
    same_ignoring_case(w, seq!['A', 'N', 'D']) || w == seq!['&', '&'] || same_ignoring_case(
        w,
        seq!['E', 'N', 'D'],
    )
}

/// One word of a value line: tokens grouped into sub-patterns so far, and the
/// tokens of the sub-pattern in progress. Words shorter than two characters are skipped.
pub open spec fn group_step(st: (Seq<Seq<u16>>, Seq<u16>), w: Seq<char>) -> (Seq<Seq<u16>>, Seq<u16>) {
    if w.len() < 2 {
        st
    } else if is_wildcard_word(w) {
        (st.0, st.1.push(CMD_WILDCARD))
    } else if is_separator_word(w) {
        (st.0.push(st.1), Seq::empty())
    } else {
        (st.0, st.1.push(hex_pair(w[0], w[1])))
    }
}

pub open spec fn group_fold(ws: Seq<Seq<char>>) -> (Seq<Seq<u16>>, Seq<u16>)
    decreases ws.len(),
{
    if ws.len() == 0 {
        (Seq::empty(), Seq::empty())
    } else {
        group_step(group_fold(ws.drop_last()), ws.last())
    }
}

/// The token groups of a value line, split at `AND`, `&&` and `END`.
pub open spec fn value_groups(text: Seq<char>) -> Seq<Seq<u16>> {
    let st = group_fold(words_of(text));
    if st.1.len() > 0 {
        st.0.push(st.1)
    } else {
        st.0
    }
}

/// The sub-patterns of the accepted groups, in order.
pub open spec fn groups_sub_patterns(groups: Seq<Seq<u16>>) -> Seq<SubPatternView>
    decreases groups.len(),
{
    if groups.len() == 0 {
        Seq::empty()
    } else {
        let before = groups_sub_patterns(groups.drop_last());
        let g = groups.last();
        if group_accepted(g) {
            before.push((substituted(g), chosen_wildcard(g)))
        } else {
            before
        }
    }
}

/// The sub-patterns that a value text defines.
pub open spec fn value_sub_patterns(text: Seq<char>) -> Seq<SubPatternView> {
    groups_sub_patterns(value_groups(text))
}

// ---- line classification ----
pub open spec fn min_length_line(s: Seq<char>) -> bool {
    s.len() >= 2
}

/// The line names a signature: its third character is not a space, and a line of
/// exactly three characters is not `END` or `AND`.
pub open spec fn name_line(s: Seq<char>) -> bool {
    &&& s.len() >= 3
    &&& s[2] != ' '
    &&& (s.len() > 3 || !(same_ignoring_case(s, seq!['E', 'N', 'D']) || same_ignoring_case(
        s,
        seq!['A', 'N', 'D'],
    )))
}

/// The line is a tag line of an info block: a tag ending in `: ` at column 9, or a
/// continuation that starts with eleven spaces.
pub open spec fn info_tag_line(s: Seq<char>) -> bool {
    &&& s.len() >= 11
    &&& ((s[9] == ':' && s[10] == ' ') || forall|k: int| 0 <= k < 11 ==> #[trigger] s[k] == ' ')
}

/// The text ends in `END`, in any case.
pub open spec fn end_marker(s: Seq<char>) -> bool {
    s.len() >= 3 && same_ignoring_case(s.subrange(s.len() - 3, s.len() as int), seq!['E', 'N', 'D'])
}

// ---- configuration text ----
/// Keeps a signature when no name filter is given or its name matches the filter.
pub open spec fn add_signature_view(
    sigs: Seq<SignatureView>,
    filter: Option<Seq<char>>,
    name: Seq<char>,
    text: Seq<char>,
) -> Seq<SignatureView> {
    if filter is None || same_ignoring_case(filter->0, name) {
        sigs.push((name, value_sub_patterns(text)))
    } else {
        sigs
    }
}

/// Each pending value line becomes a signature of its own under `name`.
pub open spec fn flush_lines(
    sigs: Seq<SignatureView>,
    filter: Option<Seq<char>>,
    name: Seq<char>,
    pending: Seq<Seq<char>>,
) -> Seq<SignatureView>
    decreases pending.len(),
{
    if pending.len() == 0 {
        sigs
    } else {
        add_signature_view(flush_lines(sigs, filter, name, pending.drop_last()), filter, name, pending.last())
    }
}

/// The pending value lines joined by single spaces.
pub open spec fn joined(lines: Seq<Seq<char>>) -> Seq<char>
    decreases lines.len(),
{
    if lines.len() == 0 {
        Seq::empty()
    } else if lines.len() == 1 {
        lines[0]
    } else {
        joined(lines.drop_last()) + seq![' '] + lines.last()
    }
}

/// Parser state: signatures so far, the current name, the pending value lines.
pub type ConfigState = (Seq<SignatureView>, Seq<char>, Seq<Seq<char>>);

pub open spec fn config_step(st: ConfigState, filter: Option<Seq<char>>, line: Seq<char>) -> ConfigState {
    let t = trimmed(line);
    if min_length_line(t) {
        if name_line(t) {
            (flush_lines(st.0, filter, st.1, st.2), t, Seq::empty())
        } else {
            let pending = st.2.push(t);
            if end_marker(t) {
                (add_signature_view(st.0, filter, st.1, joined(pending)), st.1, Seq::empty())
            } else {
                (st.0, st.1, pending)
            }
        }
    } else {
        (flush_lines(st.0, filter, st.1, st.2), Seq::empty(), Seq::empty())
    }
}

pub open spec fn config_fold(lines: Seq<Seq<char>>, filter: Option<Seq<char>>) -> ConfigState
    decreases lines.len(),
{
    if lines.len() == 0 {
        (Seq::empty(), Seq::empty(), Seq::empty())
    } else {
        config_step(config_fold(lines.drop_last(), filter), filter, lines.last())
    }
}

/// The signatures that configuration lines define, in file order.
pub open spec fn parse_config(lines: Seq<Seq<char>>, filter: Option<Seq<char>>) -> Seq<SignatureView> {
    let st = config_fold(lines, filter);
    flush_lines(st.0, filter, st.1, st.2)
}

/// From line `i` on: the first line that is not blank names a signature, and the
/// line after it is a value line.
pub open spec fn config_header_from(lines: Seq<Seq<char>>, i: int) -> bool
    decreases lines.len() - i,
{
    if i < 0 || i >= lines.len() {
        false
    } else if trimmed(lines[i]).len() == 0 {
        config_header_from(lines, i + 1)
    } else {
        min_length_line(lines[i]) && name_line(lines[i]) && i + 1 < lines.len()
            && min_length_line(lines[i + 1]) && !name_line(lines[i + 1])
    }
}

/// From line `i` on: the first line that is not blank names a signature, and the
/// line after it is a tag line.
pub open spec fn info_header_from(lines: Seq<Seq<char>>, i: int) -> bool
    decreases lines.len() - i,
{
    if i < 0 || i >= lines.len() {
        false
    } else if trimmed(lines[i]).len() == 0 {
        info_header_from(lines, i + 1)
    } else {
        min_length_line(lines[i]) && name_line(lines[i]) && !info_tag_line(lines[i]) && i + 1
            < lines.len() && min_length_line(lines[i + 1]) && info_tag_line(lines[i + 1])
    }
}

// ---- info text ----
/// Info parser state: blocks so far, the current name, the current tag lines.
pub type InfoState = (Seq<InfoView>, Seq<char>, Seq<Seq<char>>);

pub open spec fn info_step(st: InfoState, line: Seq<char>) -> InfoState {
    if min_length_line(line) {
        if info_tag_line(line) {
            (st.0, st.1, st.2.push(line))
        } else if name_line(line) {
            (if st.1.len() > 0 {
                st.0.push((st.1, st.2))
            } else {
                st.0
            }, line, Seq::empty())
        } else {
            (close_block(st), Seq::empty(), Seq::empty())
        }
    } else {
        (close_block(st), Seq::empty(), Seq::empty())
    }
}

/// The blocks with the current one added, when one is open: a name or tag lines seen.
pub open spec fn close_block(st: InfoState) -> Seq<InfoView> {
    if st.1.len() > 0 || st.2.len() > 0 {
        st.0.push((st.1, st.2))
    } else {
        st.0
    }
}

pub open spec fn info_fold(lines: Seq<Seq<char>>) -> InfoState
    decreases lines.len(),
{
    if lines.len() == 0 {
        (Seq::empty(), Seq::empty(), Seq::empty())
    } else {
        info_step(info_fold(lines.drop_last()), lines.last())
    }
}

/// The info blocks that info lines define, in file order.
pub open spec fn parse_info(lines: Seq<Seq<char>>) -> Seq<InfoView> {
    let st = info_fold(lines);
    if st.2.len() > 0 {
        st.0.push((st.1, st.2))
    } else {
        st.0
    }
}


/// A value line that ends in `END` closes its signature: the signature is added with
/// the joined value lines, nothing stays pending, and a name line after it starts the
/// next signature with no value line carried over.
pub proof fn lemma_end_line_closes_signature(
    st: ConfigState,
    filter: Option<Seq<char>>,
    end_line: Seq<char>,
    next_name: Seq<char>,
)
    requires
        min_length_line(trimmed(end_line)),
        !name_line(trimmed(end_line)),
        end_marker(trimmed(end_line)),
        min_length_line(trimmed(next_name)),
        name_line(trimmed(next_name)),
    ensures
        config_step(st, filter, end_line) == (
            add_signature_view(st.0, filter, st.1, joined(st.2.push(trimmed(end_line)))),
            st.1,
            Seq::<Seq<char>>::empty(),
        ),
        config_step(config_step(st, filter, end_line), filter, next_name) == (
            add_signature_view(st.0, filter, st.1, joined(st.2.push(trimmed(end_line)))),
            trimmed(next_name),
            Seq::<Seq<char>>::empty(),
        ),
{
}

/// The signatures whose name equals the filter up to ASCII case.
pub open spec fn name_kept(filter: Seq<char>) -> spec_fn(SignatureView) -> bool {
    |s: SignatureView| same_ignoring_case(filter, s.0)
}

proof fn lemma_filter_push(sigs: Seq<SignatureView>, filter: Seq<char>, e: SignatureView)
    ensures
        sigs.push(e).filter(name_kept(filter)) == if same_ignoring_case(filter, e.0) {
            sigs.filter(name_kept(filter)).push(e)
        } else {
            sigs.filter(name_kept(filter))
        },
{
    reveal(Seq::filter);
    assert(sigs.push(e).drop_last() == sigs);
    assert(sigs.push(e).last() == e);
}

proof fn lemma_flush_filtered(sigs: Seq<SignatureView>, filter: Seq<char>, name: Seq<char>, pending: Seq<Seq<char>>)
    ensures
        flush_lines(sigs.filter(name_kept(filter)), Some(filter), name, pending) == flush_lines(
            sigs,
            None,
            name,
            pending,
        ).filter(name_kept(filter)),
    decreases pending.len(),
{
    if pending.len() > 0 {
        lemma_flush_filtered(sigs, filter, name, pending.drop_last());
        let base = flush_lines(sigs, None, name, pending.drop_last());
        lemma_filter_push(base, filter, (name, value_sub_patterns(pending.last())));
    }
}

proof fn lemma_config_fold_filtered(lines: Seq<Seq<char>>, filter: Seq<char>)
    ensures
        config_fold(lines, Some(filter)) == (
            config_fold(lines, None).0.filter(name_kept(filter)),
            config_fold(lines, None).1,
            config_fold(lines, None).2,
        ),
    decreases lines.len(),
{
    if lines.len() == 0 {
        reveal(Seq::filter);
        assert(Seq::<SignatureView>::empty().filter(name_kept(filter)) == Seq::<SignatureView>::empty());
    } else {
        lemma_config_fold_filtered(lines.drop_last(), filter);
        let st = config_fold(lines.drop_last(), None);
        let t = trimmed(lines.last());
        lemma_flush_filtered(st.0, filter, st.1, st.2);
        if min_length_line(t) && !name_line(t) && end_marker(t) {
            lemma_filter_push(st.0, filter, (st.1, value_sub_patterns(joined(st.2.push(t)))));
        }
    }
}

/// Parsing with a name filter keeps exactly the signatures of the unfiltered parse
/// whose name equals the filter up to ASCII case, in order.
pub proof fn lemma_filter_keeps_named(lines: Seq<Seq<char>>, filter: Seq<char>)
    ensures
        parse_config(lines, Some(filter)) == parse_config(lines, None).filter(name_kept(filter)),
{
    lemma_config_fold_filtered(lines, filter);
    let st = config_fold(lines, None);
    lemma_flush_filtered(st.0, filter, st.1, st.2);
}

} // verus!
