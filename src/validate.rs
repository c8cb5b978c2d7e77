//! Checks of configuration and info files. Each check appends what it finds to a
//! list of issues and says whether it found any; nothing stops at the first issue.
use vstd::prelude::*;

use crate::format::{end_marker, info_tag_line, joined, min_length_line, name_line, words_of, split_fold};
use crate::player::{ends_with, replace_all};
use crate::signature::chars_view;
use crate::signature::{join_with_spaces, lines_view, signatures_view, Signature, SignatureConfig};
use crate::text::{ascii_space, chars_of, same_ignoring_case, string_of, trim, trim_end, trimmed, upper, upper_code, white_space};

verus! {

/// A finding of a check, with what names it.
pub enum Issue {
    ReservedName { line: usize },
    ValueWithoutName { text: String },
    NameWithSpaces { name: String },
    DuplicateName { name: String },
    NameWithoutValue { name: String },
    OuterSpaces { name: String },
    DoubleSpaces { name: String },
    OnlySpaces,
    InvalidLine { text: String },
    ConsecutiveEmptyLines { line: usize },
    Lowercase { name: String },
    TooFewValues { name: String },
    EndsWithAnd { name: String },
    TooLong { name: String },
    WildcardAtEdge { name: String },
    EndNotLast { name: String },
    StartsWithAnd { name: String },
    UnsupportedValue { word: String, name: String },
    TrailingSpaces { line: usize },
    InfoWithoutName { line: usize },
    NameWithoutInfo { name: String },
    WrongIndentation { text: String, name: String },
    UnknownSignature { name: String },
    InvalidTag { tag: String, name: String },
    TagOrder { tag: String, previous: String, name: String },
    MultiLineTag { previous: String, name: String },
    MisalignedValue { tag: String, name: String },
    InvalidReference { name: String },
}

/// An issue as plain values.
pub enum IssueView {
    ReservedName { line: int },
    ValueWithoutName { text: Seq<char> },
    NameWithSpaces { name: Seq<char> },
    DuplicateName { name: Seq<char> },
    NameWithoutValue { name: Seq<char> },
    OuterSpaces { name: Seq<char> },
    DoubleSpaces { name: Seq<char> },
    OnlySpaces,
    InvalidLine { text: Seq<char> },
    ConsecutiveEmptyLines { line: int },
    Lowercase { name: Seq<char> },
    TooFewValues { name: Seq<char> },
    EndsWithAnd { name: Seq<char> },
    TooLong { name: Seq<char> },
    WildcardAtEdge { name: Seq<char> },
    EndNotLast { name: Seq<char> },
    StartsWithAnd { name: Seq<char> },
    UnsupportedValue { word: Seq<char>, name: Seq<char> },
    TrailingSpaces { line: int },
    InfoWithoutName { line: int },
    NameWithoutInfo { name: Seq<char> },
    WrongIndentation { text: Seq<char>, name: Seq<char> },
    UnknownSignature { name: Seq<char> },
    InvalidTag { tag: Seq<char>, name: Seq<char> },
    TagOrder { tag: Seq<char>, previous: Seq<char>, name: Seq<char> },
    MultiLineTag { previous: Seq<char>, name: Seq<char> },
    MisalignedValue { tag: Seq<char>, name: Seq<char> },
    InvalidReference { name: Seq<char> },
}

pub open spec fn issue_view(i: Issue) -> IssueView {
    match i {
        Issue::ReservedName { line } => IssueView::ReservedName { line: line as int },
        Issue::ValueWithoutName { text } => IssueView::ValueWithoutName { text: text@ },
        Issue::NameWithSpaces { name } => IssueView::NameWithSpaces { name: name@ },
        Issue::DuplicateName { name } => IssueView::DuplicateName { name: name@ },
        Issue::NameWithoutValue { name } => IssueView::NameWithoutValue { name: name@ },
        Issue::OuterSpaces { name } => IssueView::OuterSpaces { name: name@ },
        Issue::DoubleSpaces { name } => IssueView::DoubleSpaces { name: name@ },
        Issue::OnlySpaces => IssueView::OnlySpaces,
        Issue::InvalidLine { text } => IssueView::InvalidLine { text: text@ },
        Issue::ConsecutiveEmptyLines { line } => IssueView::ConsecutiveEmptyLines { line: line as int },
        Issue::Lowercase { name } => IssueView::Lowercase { name: name@ },
        Issue::TooFewValues { name } => IssueView::TooFewValues { name: name@ },
        Issue::EndsWithAnd { name } => IssueView::EndsWithAnd { name: name@ },
        Issue::TooLong { name } => IssueView::TooLong { name: name@ },
        Issue::WildcardAtEdge { name } => IssueView::WildcardAtEdge { name: name@ },
        Issue::EndNotLast { name } => IssueView::EndNotLast { name: name@ },
        Issue::StartsWithAnd { name } => IssueView::StartsWithAnd { name: name@ },
        Issue::UnsupportedValue { word, name } => IssueView::UnsupportedValue { word: word@, name: name@ },
        Issue::TrailingSpaces { line } => IssueView::TrailingSpaces { line: line as int },
        Issue::InfoWithoutName { line } => IssueView::InfoWithoutName { line: line as int },
        Issue::NameWithoutInfo { name } => IssueView::NameWithoutInfo { name: name@ },
        Issue::WrongIndentation { text, name } => IssueView::WrongIndentation { text: text@, name: name@ },
        Issue::UnknownSignature { name } => IssueView::UnknownSignature { name: name@ },
        Issue::InvalidTag { tag, name } => IssueView::InvalidTag { tag: tag@, name: name@ },
        Issue::TagOrder { tag, previous, name } => IssueView::TagOrder { tag: tag@, previous: previous@, name: name@ },
        Issue::MultiLineTag { previous, name } => IssueView::MultiLineTag { previous: previous@, name: name@ },
        Issue::MisalignedValue { tag, name } => IssueView::MisalignedValue { tag: tag@, name: name@ },
        Issue::InvalidReference { name } => IssueView::InvalidReference { name: name@ },
    }
}

pub open spec fn issues_view(s: Seq<Issue>) -> Seq<IssueView> {
    s.map_values(|i: Issue| issue_view(i))
}

/// A check appended issues exactly when it reports an error, and kept the earlier ones.
pub open spec fn reported(old_issues: Seq<Issue>, new_issues: Seq<Issue>, error: bool) -> bool {
    &&& new_issues.len() >= old_issues.len()
    &&& forall|k: int| 0 <= k < old_issues.len() ==> #[trigger] new_issues[k] == old_issues[k]
    &&& (error <==> new_issues.len() > old_issues.len())
}

pub open spec fn is_hex_digit(c: char) -> bool {
    let u = c as u32;
    (0x30 <= u <= 0x39) || (0x41 <= u <= 0x46) || (0x61 <= u <= 0x66)
}

pub open spec fn all_hex(w: Seq<char>) -> bool {
    forall|k: int| 0 <= k < w.len() ==> is_hex_digit(#[trigger] w[k])
}

/// The word at index `i` of a sub-pattern is misplaced or not a two-digit byte.
pub open spec fn word_error(ws: Seq<Seq<char>>, i: int) -> bool {
    let w = ws[i];
    if w == seq!['?', '?'] {
        i == 0 || i + 1 == ws.len() || same_ignoring_case(ws[i + 1], seq!['E', 'N', 'D'])
    } else if w == seq!['E', 'N', 'D'] {
        i + 1 < ws.len()
    } else if w == seq!['A', 'N', 'D'] || w == seq!['&', '&'] {
        i == 0
    } else {
        !all_hex(w) || w.len() != 2
    }
}

/// `END`, `AND` and `&&` are operators; every other word stands for a byte.
pub open spec fn is_operator_word(w: Seq<char>) -> bool {
    w == seq!['E', 'N', 'D'] || w == seq!['A', 'N', 'D'] || w == seq!['&', '&']
}

/// The number of byte tokens among the words.
pub open spec fn byte_count(ws: Seq<Seq<char>>) -> int
    decreases ws.len(),
{
    if ws.len() == 0 {
        0
    } else {
        byte_count(ws.drop_last()) + if is_operator_word(ws.last()) {
            0int
        } else {
            1int
        }
    }
}

/// A sub-pattern's words break a rule: fewer than two or more than 254 byte tokens,
/// or a misplaced word.
pub open spec fn range_error(ws: Seq<Seq<char>>) -> bool {
    ||| byte_count(ws) < 2
    ||| byte_count(ws) > 254
    ||| exists|i: int| 0 <= i < ws.len() && #[trigger] word_error(ws, i)
}

/// `sep` occurs in `s` at index `i`.
pub open spec fn occurs_at(s: Seq<char>, sep: Seq<char>, i: int) -> bool {
    0 <= i && i + sep.len() <= s.len() && s.subrange(i, i + sep.len()) == sep
}

/// The pieces of `s[start..]` between the occurrences of `sep`, taken left to right
/// from index `i` on, as `str::split` gives them.
pub open spec fn split_from(s: Seq<char>, sep: Seq<char>, start: int, i: int) -> Seq<Seq<char>>
    decreases s.len() - i,
{
    if i < 0 || sep.len() == 0 || i + sep.len() > s.len() {
        seq![s.subrange(start, s.len() as int)]
    } else if occurs_at(s, sep, i) {
        seq![s.subrange(start, i)] + split_from(s, sep, i + sep.len(), i + sep.len())
    } else {
        split_from(s, sep, start, i + 1)
    }
}

pub open spec fn split_by(s: Seq<char>, sep: Seq<char>) -> Seq<Seq<char>> {
    split_from(s, sep, 0, 0)
}

pub fn split_words(text: &[char]) -> (r: Vec<Vec<char>>)
    ensures
        chars_view(r@) == words_of(text@),
{
    let ghost t = text@;
    let mut words: Vec<Vec<char>> = Vec::new();
    let mut word: Vec<char> = Vec::new();
    let mut i: usize = 0;
    assert(t.subrange(0, 0) =~= Seq::<char>::empty());
    assert(chars_view(words@) =~= Seq::<Seq<char>>::empty());
    while i < text.len()
        invariant
            t == text@,
            i <= t.len(),
            (chars_view(words@), word@) == split_fold(t.subrange(0, i as int)),
        decreases t.len() - i,
    {
        let c = text[i];
        assert(t.subrange(0, i + 1).drop_last() == t.subrange(0, i as int));
        assert(t.subrange(0, i + 1).last() == c);
        if ascii_space(c) {
            if word.len() > 0 {
                let ghost before = words@;
                words.push(word);
                assert(chars_view(words@) == chars_view(before).push(words@.last()@));
            }
            word = Vec::new();
        } else {
            word.push(c);
        }
        i += 1;
    }
    assert(t.subrange(0, t.len() as int) == t);
    if word.len() > 0 {
        let ghost before = words@;
        words.push(word);
        assert(chars_view(words@) == chars_view(before).push(words@.last()@));
    }
    words
}

fn same_chars(a: &[char], Ghost(b): Ghost<Seq<char>>, c0: char, c1: char, c2: char, n: usize) -> (r: bool)
    requires
        1 <= n <= 3,
        b.len() == n,
        b[0] == c0,
        n >= 2 ==> b[1] == c1,
        n == 3 ==> b[2] == c2,
    ensures
        r == (a@ == b),
{
    let r = a.len() == n && a[0] == c0 && (n < 2 || a[1] == c1) && (n < 3 || a[2] == c2);
    proof {
        if r {
            assert(a@ =~= b);
        }
    }
    r
}

fn is_hex(c: char) -> (r: bool)
    ensures
        r == is_hex_digit(c),
{
    let u = c as u32;
    (0x30 <= u && u <= 0x39) || (0x41 <= u && u <= 0x46) || (0x61 <= u && u <= 0x66)
}

fn push_issue(issues: &mut Vec<Issue>, issue: Issue)
    ensures
        final(issues)@ == old(issues)@.push(issue),
        issues_view(final(issues)@) == issues_view(old(issues)@).push(issue_view(issue)),
{
    let ghost before = issues@;
    issues.push(issue);
    assert(issues_view(issues@) =~= issues_view(before).push(issue_view(issue)));
}

proof fn lemma_reported_chain(a: Seq<Issue>, b: Seq<Issue>, c: Seq<Issue>, e1: bool, e2: bool)
    requires
        reported(a, b, e1),
        reported(b, c, e2),
    ensures
        reported(a, c, e1 || e2),
{
}

/// ASCII upper case of one character.
pub open spec fn upper_char(c: char) -> char {
    if 0x61 <= c as u32 <= 0x7A {
        (((c as u32) - 0x20) as u8) as char
    } else {
        c
    }
}

pub open spec fn upper_text(s: Seq<char>) -> Seq<char> {
    s.map_values(|c: char| upper_char(c))
}

fn to_upper_char(c: char) -> (r: char)
    ensures
        r == upper_char(c),
{
    let u = c as u32;
    if 0x61 <= u && u <= 0x7A {
        ((u - 0x20) as u8) as char
    } else {
        c
    }
}

/// `s` with every occurrence of `from`, taken left to right, replaced by `to`.
pub fn replace_chars(s: &[char], from: &[char], to: &[char]) -> (r: Vec<char>)
    requires
        from@.len() > 0,
    ensures
        r@ == replace_all(s@, from@, to@),
{
    let ghost whole = replace_all(s@, from@, to@);
    let mut out: Vec<char> = Vec::new();
    let mut i: usize = 0;
    assert(s@.subrange(0, s@.len() as int) == s@);
    while i < s.len()
        invariant
            i <= s@.len(),
            from@.len() > 0,
            whole == replace_all(s@, from@, to@),
            whole == out@ + replace_all(s@.subrange(i as int, s@.len() as int), from@, to@),
        decreases s@.len() - i,
    {
        let ghost rest = s@.subrange(i as int, s@.len() as int);
        let here = starts_with_at(s, from, i);
        if here {
            assert(rest.subrange(0, from@.len() as int) == s@.subrange(i as int, i + from@.len()));
            assert(rest.subrange(from@.len() as int, rest.len() as int) == s@.subrange(i + from@.len(), s@.len() as int));
            let ghost before = out@;
            let mut k: usize = 0;
            while k < to.len()
                invariant
                    k <= to@.len(),
                    out@ == before + to@.subrange(0, k as int),
                decreases to@.len() - k,
            {
                out.push(to[k]);
                k += 1;
            }
            assert(to@.subrange(0, to@.len() as int) == to@);
            assert(before + (to@ + replace_all(s@.subrange(i + from@.len(), s@.len() as int), from@, to@)) == out@ + replace_all(s@.subrange(i + from@.len(), s@.len() as int), from@, to@));
            i += from.len();
        } else {
            assert(rest.len() >= from@.len() ==> rest.subrange(0, from@.len() as int) != from@) by {
                if rest.len() >= from@.len() {
                    assert(rest.subrange(0, from@.len() as int) == s@.subrange(i as int, i + from@.len()));
                }
            }
            assert(rest.drop_first() == s@.subrange(i + 1, s@.len() as int));
            let ghost before = out@;
            out.push(s[i]);
            assert(before + (seq![rest[0]] + replace_all(rest.drop_first(), from@, to@)) == out@ + replace_all(rest.drop_first(), from@, to@));
            i += 1;
        }
    }
    assert(s@.subrange(s@.len() as int, s@.len() as int) =~= Seq::<char>::empty());
    assert(out@ + Seq::<char>::empty() == out@);
    out
}

/// `from` occurs in `s` at index `i`.
fn starts_with_at(s: &[char], from: &[char], i: usize) -> (r: bool)
    requires
        i <= s@.len(),
    ensures
        r == (s@.len() - i >= from@.len() && s@.subrange(i as int, i + from@.len()) == from@),
{
    if s.len() - i < from.len() {
        return false;
    }
    let mut k: usize = 0;
    while k < from.len()
        invariant
            k <= from@.len(),
            i + from@.len() <= s.len(),
            forall|q: int| 0 <= q < k ==> s@[i + q] == #[trigger] from@[q],
        decreases from@.len() - k,
    {
        if s[i + k] != from[k] {
            assert(s@.subrange(i as int, i + from@.len())[k as int] != from@[k as int]);
            return false;
        }
        k += 1;
    }
    assert(s@.subrange(i as int, i + from@.len()) =~= from@);
    true
}

/// The pieces of `s` between the occurrences of `sep`.
pub fn split_on(s: &[char], sep: &[char]) -> (r: Vec<Vec<char>>)
    requires
        sep@.len() > 0,
    ensures
        chars_view(r@) == split_by(s@, sep@),
{
    let ghost whole = split_by(s@, sep@);
    let mut pieces: Vec<Vec<char>> = Vec::new();
    let mut start: usize = 0;
    let mut i: usize = 0;
    assert(chars_view(pieces@) =~= Seq::<Seq<char>>::empty());
    while s.len() - i >= sep.len()
        invariant
            start <= i <= s@.len(),
            sep@.len() > 0,
            whole == split_by(s@, sep@),
            whole == chars_view(pieces@) + split_from(s@, sep@, start as int, i as int),
        decreases s@.len() - i,
    {
        if starts_with_at(s, sep, i) {
            let mut piece: Vec<char> = Vec::new();
            let mut k: usize = start;
            while k < i
                invariant
                    start <= k <= i <= s@.len(),
                    piece@ == s@.subrange(start as int, k as int),
                decreases i - k,
            {
                piece.push(s[k]);
                k += 1;
            }
            let ghost before = chars_view(pieces@);
            pieces.push(piece);
            assert(chars_view(pieces@) == before.push(s@.subrange(start as int, i as int)));
            assert(before + split_from(s@, sep@, start as int, i as int) == before.push(s@.subrange(start as int, i as int)) + split_from(s@, sep@, i + sep@.len(), i + sep@.len()));
            i += sep.len();
            start = i;
        } else {
            i += 1;
        }
    }
    let mut piece: Vec<char> = Vec::new();
    let mut k: usize = start;
    while k < s.len()
        invariant
            start <= k <= s@.len(),
            piece@ == s@.subrange(start as int, k as int),
        decreases s@.len() - k,
    {
        piece.push(s[k]);
        k += 1;
    }
    let ghost before = chars_view(pieces@);
    pieces.push(piece);
    assert(chars_view(pieces@) == before.push(s@.subrange(start as int, s@.len() as int)));
    pieces
}

pub open spec fn has_lowercase(s: Seq<char>) -> bool {
    exists|i: int| 0 <= i < s.len() && 0x61 <= (#[trigger] s[i]) as u32 <= 0x7A
}

/// A piece of the upper-cased value, between `AND` and `&&` separators.
pub open spec fn value_piece(s: Seq<char>, i: int, j: int) -> Seq<char> {
    split_by(split_by(upper_text(s), seq![' ', 'A', 'N', 'D', ' '])[i], seq![' ', '&', '&', ' '])[j]
}

pub open spec fn pieces_error(s: Seq<char>) -> bool {
    let outer = split_by(upper_text(s), seq![' ', 'A', 'N', 'D', ' ']);
    exists|i: int, j: int|
        0 <= i < outer.len() && 0 <= j < split_by(outer[i], seq![' ', '&', '&', ' ']).len()
            && range_error(words_of(#[trigger] value_piece(s, i, j)))
}

/// The value text without its ` END` markers.
pub open spec fn without_end(s: Seq<char>) -> Seq<char> {
    replace_all(s, seq![' ', 'E', 'N', 'D'], Seq::empty())
}

/// A value text breaks a rule: lower-case letters, a trailing `AND` or `&&`, or a
/// sub-pattern whose words break a rule.
pub open spec fn value_error(s: Seq<char>) -> bool {
    ||| has_lowercase(s)
    ||| ends_with(without_end(s), seq![' ', 'A', 'N', 'D'])
    ||| ends_with(without_end(s), seq![' ', '&', '&'])
    ||| pieces_error(s)
}

fn ends_with_chars(s: &[char], suffix: &[char]) -> (r: bool)
    ensures
        r == ends_with(s@, suffix@),
{
    if s.len() < suffix.len() {
        return false;
    }
    starts_with_at(s, suffix, s.len() - suffix.len())
}

fn chars3(a: char, b: char, c: char) -> (r: Vec<char>)
    ensures
        r@ == seq![a, b, c],
{
    let mut r: Vec<char> = Vec::new();
    r.push(a);
    r.push(b);
    r.push(c);
    assert(r@ =~= seq![a, b, c]);
    r
}

fn chars4(a: char, b: char, c: char, d: char) -> (r: Vec<char>)
    ensures
        r@ == seq![a, b, c, d],
{
    let mut r = chars3(a, b, c);
    r.push(d);
    assert(r@ =~= seq![a, b, c, d]);
    r
}

/// The issues of the first `m` pieces, between `&&`, of the `i`-th piece between `AND`.
pub open spec fn inner_issues(s: Seq<char>, i: int, m: int, name: Seq<char>) -> Seq<IssueView>
    decreases m,
{
    if m <= 0 {
        Seq::empty()
    } else {
        inner_issues(s, i, m - 1, name) + range_issues(words_of(value_piece(s, i, m - 1)), name)
    }
}

/// The issues of the sub-patterns in the first `n` pieces between `AND`.
pub open spec fn outer_issues(s: Seq<char>, n: int, name: Seq<char>) -> Seq<IssueView>
    decreases n,
{
    if n <= 0 {
        Seq::empty()
    } else {
        outer_issues(s, n - 1, name) + inner_issues(
            s,
            n - 1,
            split_by(split_by(upper_text(s), seq![' ', 'A', 'N', 'D', ' '])[n - 1], seq![' ', '&', '&', ' ']).len() as int,
            name,
        )
    }
}

/// The issues of a value text: lower case, a trailing operator, then each sub-pattern's.
pub open spec fn value_issues(s: Seq<char>, name: Seq<char>) -> Seq<IssueView> {
    issue_if(has_lowercase(s), IssueView::Lowercase { name }) + issue_if(
        ends_with(without_end(s), seq![' ', 'A', 'N', 'D']) || ends_with(without_end(s), seq![' ', '&', '&']),
        IssueView::EndsWithAnd { name },
    ) + outer_issues(s, split_by(upper_text(s), seq![' ', 'A', 'N', 'D', ' ']).len() as int, name)
}

/// Checks one value text: case, number of values, trailing operator and the words
/// of each sub-pattern.
pub fn validate_signature_value(signature_name: &[char], signature_text: &[char], issues: &mut Vec<Issue>) -> (r: bool)
    ensures
        r == value_error(signature_text@),
        reported(old(issues)@, final(issues)@, r),
        issues_view(final(issues)@) == issues_view(old(issues)@) + value_issues(signature_text@, signature_name@),
{
    let ghost text = signature_text@;
    let mut up: Vec<char> = Vec::new();
    let mut lower = false;
    let mut k: usize = 0;
    while k < signature_text.len()
        invariant
            k <= text.len(),
            text == signature_text@,
            up@ == upper_text(text).subrange(0, k as int),
            lower == exists|i: int| 0 <= i < k && 0x61 <= (#[trigger] text[i]) as u32 <= 0x7A,
        decreases text.len() - k,
    {
        let c = signature_text[k];
        if 0x61 <= c as u32 && c as u32 <= 0x7A {
            lower = true;
        }
        up.push(to_upper_char(c));
        assert(up@ == upper_text(text).subrange(0, k + 1));
        k += 1;
    }
    assert(up@ == upper_text(text));
    let ghost start = issues@;
    let mut error = false;
    if lower {
        push_issue(issues, Issue::Lowercase { name: string_of(signature_name) });
        error = true;
    }
    let end_marker = chars4(' ', 'E', 'N', 'D');
    let empty: Vec<char> = Vec::new();
    let without = replace_chars(signature_text, end_marker.as_slice(), empty.as_slice());
    assert(empty@ =~= Seq::<char>::empty());
    let and_suffix = chars4(' ', 'A', 'N', 'D');
    let amp_suffix = chars3(' ', '&', '&');
    if ends_with_chars(without.as_slice(), and_suffix.as_slice()) || ends_with_chars(without.as_slice(), amp_suffix.as_slice()) {
        push_issue(issues, Issue::EndsWithAnd { name: string_of(signature_name) });
        error = true;
    }
    assert(reported(start, issues@, error));
    let ghost head_error = error;
    let ghost head_issues = issue_if(has_lowercase(text), IssueView::Lowercase { name: signature_name@ }) + issue_if(
        ends_with(without_end(text), seq![' ', 'A', 'N', 'D']) || ends_with(without_end(text), seq![' ', '&', '&']),
        IssueView::EndsWithAnd { name: signature_name@ },
    );
    assert(issues_view(issues@) =~= issues_view(start) + head_issues);
    let and_sep = {
        let mut v = chars4(' ', 'A', 'N', 'D');
        v.push(' ');
        assert(v@ =~= seq![' ', 'A', 'N', 'D', ' ']);
        v
    };
    let amp_sep = chars4(' ', '&', '&', ' ');
    let outer = split_on(up.as_slice(), and_sep.as_slice());
    let ghost outer_v = chars_view(outer@);
    let ghost mid = issues@;
    let mut pieces_bad = false;
    let mut i: usize = 0;
    while i < outer.len()
        invariant
            i <= outer_v.len(),
            outer_v == chars_view(outer@),
            outer_v == split_by(upper_text(text), seq![' ', 'A', 'N', 'D', ' ']),
            amp_sep@ == seq![' ', '&', '&', ' '],
            pieces_bad == exists|a: int, b: int|
                0 <= a < i && 0 <= b < split_by(outer_v[a], seq![' ', '&', '&', ' ']).len()
                    && range_error(words_of(#[trigger] value_piece(text, a, b))),
            reported(mid, issues@, pieces_bad),
            issues_view(issues@) == issues_view(mid) + outer_issues(text, i as int, signature_name@),
        decreases outer_v.len() - i,
    {
        assert(outer@[i as int]@ == outer_v[i as int]);
        let inner = split_on(outer[i].as_slice(), amp_sep.as_slice());
        let ghost inner_v = chars_view(inner@);
        let ghost outer_bad = pieces_bad;
        let ghost before = issues@;
        let mut inner_bad = false;
        let mut j: usize = 0;
        while j < inner.len()
            invariant
                j <= inner_v.len(),
                inner_v == chars_view(inner@),
                inner_v == split_by(outer_v[i as int], seq![' ', '&', '&', ' ']),
                outer_v == split_by(upper_text(text), seq![' ', 'A', 'N', 'D', ' ']),
                i < outer_v.len(),
                inner_bad == exists|b: int| 0 <= b < j && range_error(words_of(#[trigger] value_piece(text, i as int, b))),
                reported(before, issues@, inner_bad),
                issues_view(issues@) == issues_view(before) + inner_issues(text, i as int, j as int, signature_name@),
            decreases inner_v.len() - j,
        {
            assert(inner@[j as int]@ == value_piece(text, i as int, j as int));
            let words = split_words(inner[j].as_slice());
            let ghost b2 = issues@;
            let e = validate_signature_range(signature_name, &words, issues);
            proof {
                lemma_reported_chain(before, b2, issues@, inner_bad, e);
            }
            assert(issues_view(issues@) =~= issues_view(before) + inner_issues(text, i as int, j + 1, signature_name@));
            inner_bad = inner_bad || e;
            j += 1;
        }
        proof {
            lemma_reported_chain(mid, before, issues@, outer_bad, inner_bad);
            if inner_bad {
                let b = choose|b: int| 0 <= b < inner_v.len() && range_error(words_of(#[trigger] value_piece(text, i as int, b)));
                assert(range_error(words_of(value_piece(text, i as int, b))));
            }
        }
        assert(issues_view(issues@) =~= issues_view(mid) + outer_issues(text, i + 1, signature_name@));
        pieces_bad = pieces_bad || inner_bad;
        assert(pieces_bad == exists|a: int, b: int|
                0 <= a < i + 1 && 0 <= b < split_by(outer_v[a], seq![' ', '&', '&', ' ']).len()
                    && range_error(words_of(#[trigger] value_piece(text, a, b)))) by {
            if exists|a: int, b: int|
                0 <= a < i + 1 && 0 <= b < split_by(outer_v[a], seq![' ', '&', '&', ' ']).len()
                    && range_error(words_of(#[trigger] value_piece(text, a, b))) {
                let (a, b) = choose|a: int, b: int|
                    0 <= a < i + 1 && 0 <= b < split_by(outer_v[a], seq![' ', '&', '&', ' ']).len()
                        && range_error(words_of(#[trigger] value_piece(text, a, b)));
                if a == i {
                    assert(inner_bad);
                }
            }
        }
        i += 1;
    }
    proof {
        lemma_reported_chain(start, mid, issues@, head_error, pieces_bad);
    }
    assert(issues_view(issues@) =~= issues_view(start) + value_issues(text, signature_name@));
    error || pieces_bad
}

/// One issue when the condition holds, none otherwise.
pub open spec fn issue_if(c: bool, i: IssueView) -> Seq<IssueView> {
    if c {
        seq![i]
    } else {
        Seq::empty()
    }
}

/// The issue of the word at index `i` of a sub-pattern, if it is misplaced or not a byte.
pub open spec fn word_issue(ws: Seq<Seq<char>>, i: int, name: Seq<char>) -> Seq<IssueView> {
    let w = ws[i];
    issue_if(
        word_error(ws, i),
        if w == seq!['?', '?'] {
            IssueView::WildcardAtEdge { name }
        } else if w == seq!['E', 'N', 'D'] {
            IssueView::EndNotLast { name }
        } else if w == seq!['A', 'N', 'D'] || w == seq!['&', '&'] {
            IssueView::StartsWithAnd { name }
        } else {
            IssueView::UnsupportedValue { word: w, name }
        },
    )
}

/// The issues of the first `n` words, in order.
pub open spec fn words_issues(ws: Seq<Seq<char>>, n: int, name: Seq<char>) -> Seq<IssueView>
    decreases n,
{
    if n <= 0 {
        Seq::empty()
    } else {
        words_issues(ws, n - 1, name) + word_issue(ws, n - 1, name)
    }
}

/// The issues of one sub-pattern: its words in order, then too few or too many bytes.
pub open spec fn range_issues(ws: Seq<Seq<char>>, name: Seq<char>) -> Seq<IssueView> {
    words_issues(ws, ws.len() as int, name) + issue_if(byte_count(ws) < 2, IssueView::TooFewValues { name })
        + issue_if(byte_count(ws) > 254, IssueView::TooLong { name })
}

/// Checks the words of one sub-pattern.
pub fn validate_signature_range(signature_name: &[char], words: &Vec<Vec<char>>, issues: &mut Vec<Issue>) -> (r: bool)
    ensures
        r == range_error(chars_view(words@)),
        reported(old(issues)@, final(issues)@, r),
        issues_view(final(issues)@) == issues_view(old(issues)@) + range_issues(chars_view(words@), signature_name@),
{
    let ghost ws = chars_view(words@);
    let mut error = false;
    let mut count: usize = 0;
    let mut index: usize = 0;
    assert(ws.subrange(0, 0) =~= Seq::<Seq<char>>::empty());
    while index < words.len()
        invariant
            ws == chars_view(words@),
            index <= ws.len(),
            count == byte_count(ws.subrange(0, index as int)),
            count <= index,
            error == exists|i: int| 0 <= i < index && #[trigger] word_error(ws, i),
            reported(old(issues)@, issues@, error),
            issues_view(issues@) == issues_view(old(issues)@) + words_issues(ws, index as int, signature_name@),
        decreases ws.len() - index,
    {
        let ghost before = issues@;
        let ghost error_before = error;
        let word = &words[index];
        assert(word@ == ws[index as int]);
        assert(ws.subrange(0, index + 1).drop_last() == ws.subrange(0, index as int));
        assert(ws.subrange(0, index + 1).last() == ws[index as int]);
        let ghost kw_wildcard = seq!['?', '?'];
        let ghost kw_end = seq!['E', 'N', 'D'];
        let ghost kw_and = seq!['A', 'N', 'D'];
        let ghost kw_amp = seq!['&', '&'];
        let wildcard = same_chars(word.as_slice(), Ghost(kw_wildcard), '?', '?', ' ', 2);
        let end = same_chars(word.as_slice(), Ghost(kw_end), 'E', 'N', 'D', 3);
        let and = same_chars(word.as_slice(), Ghost(kw_and), 'A', 'N', 'D', 3);
        let amp = same_chars(word.as_slice(), Ghost(kw_amp), '&', '&', ' ', 2);
        let has_next = index + 1 < words.len();
        let bad = if wildcard {
            let next_end = has_next && {
                let next = &words[index + 1];
                assert(next@ == ws[index + 1]);
                next.len() == 3 && upper(next[0]) == 0x45 && upper(next[1]) == 0x4E && upper(next[2]) == 0x44
            };
            assert(has_next ==> (next_end == same_ignoring_case(ws[index + 1], seq!['E', 'N', 'D']))) by {
                if has_next {
                    let n = ws[index + 1];
                    let kw = seq!['E', 'N', 'D'];
                    if n.len() == 3 {
                        assert(upper_code(kw[0]) == 0x45 && upper_code(kw[1]) == 0x4E && upper_code(kw[2]) == 0x44);
                        if next_end {
                            assert forall|k: int| 0 <= k < 3 implies upper_code(#[trigger] n[k]) == upper_code(kw[k]) by {
                                if k == 0 {} else if k == 1 {} else {}
                            }
                        }
                        if same_ignoring_case(n, kw) {
                            assert(upper_code(n[0]) == upper_code(kw[0]));
                            assert(upper_code(n[1]) == upper_code(kw[1]));
                            assert(upper_code(n[2]) == upper_code(kw[2]));
                        }
                    }
                }
            }
            let b = index == 0 || !has_next || next_end;
            if b {
                push_issue(issues, Issue::WildcardAtEdge { name: string_of(signature_name) });
            }
            b
        } else if end {
            if has_next {
                push_issue(issues, Issue::EndNotLast { name: string_of(signature_name) });
            }
            has_next
        } else if and || amp {
            if index == 0 {
                push_issue(issues, Issue::StartsWithAnd { name: string_of(signature_name) });
            }
            index == 0
        } else {
            let mut valid_chars = true;
            let mut k: usize = 0;
            while k < word.len()
                invariant
                    k <= word@.len(),
                    valid_chars == forall|q: int| 0 <= q < k ==> is_hex_digit(#[trigger] word@[q]),
                decreases word@.len() - k,
            {
                if !is_hex(word[k]) {
                    valid_chars = false;
                }
                k += 1;
            }
            let b = !valid_chars || word.len() != 2;
            if b {
                push_issue(issues, Issue::UnsupportedValue { word: string_of(word.as_slice()), name: string_of(signature_name) });
            }
            b
        };
        assert(bad == word_error(ws, index as int));
        assert(issues_view(issues@) =~= issues_view(before) + word_issue(ws, index as int, signature_name@));
        assert(issues_view(old(issues)@) + words_issues(ws, index + 1, signature_name@) =~= issues_view(old(issues)@) + words_issues(ws, index as int, signature_name@) + word_issue(ws, index as int, signature_name@));
        assert((end || and || amp) == is_operator_word(ws[index as int]));
        if !(end || and || amp) {
            count += 1;
        }
        proof {
            lemma_reported_chain(old(issues)@, before, issues@, error_before, bad);
        }
        error = error || bad;
        index += 1;
    }
    assert(ws.subrange(0, ws.len() as int) == ws);
    let ghost before = issues@;
    let mut count_bad = false;
    if count < 2 {
        push_issue(issues, Issue::TooFewValues { name: string_of(signature_name) });
        count_bad = true;
    }
    if count > 254 {
        push_issue(issues, Issue::TooLong { name: string_of(signature_name) });
        count_bad = true;
    }
    proof {
        lemma_reported_chain(old(issues)@, before, issues@, error, count_bad);
    }
    assert(issues_view(issues@) =~= issues_view(old(issues)@) + range_issues(ws, signature_name@));
    error || count_bad
}

/// Names seen so far, upper-cased, each with whether a value followed it; a later
/// entry for a name replaces an earlier one.
pub open spec fn table_map(t: Seq<(Vec<char>, bool)>) -> Map<Seq<char>, bool>
    decreases t.len(),
{
    if t.len() == 0 {
        Map::empty()
    } else {
        table_map(t.drop_last()).insert(t.last().0@, t.last().1)
    }
}

fn table_get(t: &Vec<(Vec<char>, bool)>, key: &[char]) -> (r: Option<bool>)
    ensures
        r == if table_map(t@).contains_key(key@) {
            Some(table_map(t@)[key@])
        } else {
            None
        },
{
    let mut i: usize = t.len();
    assert(t@.subrange(0, t@.len() as int) == t@);
    while i > 0
        invariant
            i <= t@.len(),
            forall|j: int| i <= j < t@.len() ==> (#[trigger] t@[j]).0@ != key@,
            table_map(t@).contains_key(key@) == table_map(t@.subrange(0, i as int)).contains_key(key@),
            table_map(t@).contains_key(key@) ==> table_map(t@)[key@] == table_map(t@.subrange(0, i as int))[key@],
        decreases i,
    {
        let entry = &t[i - 1];
        let ghost pre = t@.subrange(0, i as int);
        assert(pre.drop_last() == t@.subrange(0, i - 1));
        assert(pre.last() == t@[i - 1]);
        if entry.0.len() == key.len() {
            let mut k: usize = 0;
            let mut same = true;
            while k < key.len()
                invariant
                    k <= key@.len(),
                    entry.0@.len() == key@.len(),
                    same == forall|q: int| 0 <= q < k ==> entry.0@[q] == #[trigger] key@[q],
                decreases key@.len() - k,
            {
                if entry.0[k] != key[k] {
                    same = false;
                }
                k += 1;
            }
            if same {
                assert(entry.0@ =~= key@);
                return Some(entry.1);
            }
            assert(entry.0@ != key@) by {
                if entry.0@ == key@ {
                    assert(forall|q: int| 0 <= q < key@.len() ==> entry.0@[q] == #[trigger] key@[q]);
                }
            }
        }
        i -= 1;
    }
    assert(t@.subrange(0, 0) =~= Seq::<(Vec<char>, bool)>::empty());
    None
}

fn table_insert(t: &mut Vec<(Vec<char>, bool)>, key: Vec<char>, value: bool)
    ensures
        table_map(final(t)@) == table_map(old(t)@).insert(key@, value),
{
    let ghost before = t@;
    t.push((key, value));
    assert(t@.drop_last() == before);
}

pub fn upper_chars(s: &[char]) -> (r: Vec<char>)
    ensures
        r@ == upper_text(s@),
{
    let mut up: Vec<char> = Vec::new();
    let mut k: usize = 0;
    while k < s.len()
        invariant
            k <= s@.len(),
            up@ == upper_text(s@).subrange(0, k as int),
        decreases s@.len() - k,
    {
        up.push(to_upper_char(s[k]));
        assert(up@ == upper_text(s@).subrange(0, k + 1));
        k += 1;
    }
    assert(up@ == upper_text(s@));
    up
}

/// A name that is not followed by a value line.
pub open spec fn without_value_error(names: Map<Seq<char>, bool>, name: Seq<char>) -> bool {
    name.len() > 0 && !(names.contains_key(upper_text(name)) && names[upper_text(name)])
}

/// One of the pending value lines breaks a rule.
pub open spec fn lines_error(lines: Seq<Seq<char>>) -> bool {
    exists|i: int| 0 <= i < lines.len() && value_error(#[trigger] lines[i])
}

pub open spec fn contains_double_space(s: Seq<char>) -> bool {
    exists|i: int| 0 <= i < s.len() - 1 && #[trigger] s[i] == ' ' && s[i + 1] == ' '
}

/// A name with a space, or one seen before in any case.
pub open spec fn name_error(name: Seq<char>, names: Map<Seq<char>, bool>) -> bool {
    name.contains(' ') || names.contains_key(upper_text(name))
}

/// A line with white space around its text, or a double space inside it.
pub open spec fn spaces_error(line_length: int, text: Seq<char>) -> bool {
    line_length != text.len() || contains_double_space(text)
}

/// The state of the configuration check: an issue found so far, the names seen, the
/// current name, the pending value lines, the number of the last short line, and the
/// number of the next line.
pub type CheckState = (bool, Map<Seq<char>, bool>, Seq<char>, Seq<Seq<char>>, int, int);

pub open spec fn check_step(st: CheckState, line: Seq<char>) -> CheckState {
    let (error, names, name, pending, last_empty, n) = st;
    let t = trimmed(line);
    if min_length_line(t) {
        if name_line(t) {
            let e = without_value_error(names, name) || lines_error(pending) || name_error(t, names)
                || spaces_error(line.len() as int, t);
            (error || e, names.insert(upper_text(t), false), t, Seq::empty(), last_empty, n + 1)
        } else {
            let p = pending.push(t);
            let closes = end_marker(t);
            let e = name.len() == 0 || (closes && value_error(joined(p))) || spaces_error(line.len() as int, t);
            (error || e, names.insert(upper_text(name), true), name, if closes {
                Seq::empty()
            } else {
                p
            }, last_empty, n + 1)
        }
    } else {
        let e = (t.len() == 0 && line.len() > 0) || without_value_error(names, name) || lines_error(
            pending,
        ) || t.len() != 0 || (line.len() == 0 && last_empty == n - 1);
        let err = error || e;
        let names1 = if t.len() != 0 {
            names.insert(upper_text(name), true)
        } else {
            names
        };
        (err, if err {
            names1.insert(upper_text(name), true)
        } else {
            names1
        }, if err {
            name
        } else {
            Seq::empty()
        }, Seq::empty(), n, n + 1)
    }
}

pub open spec fn check_fold(lines: Seq<Seq<char>>) -> CheckState
    decreases lines.len(),
{
    if lines.len() == 0 {
        (false, Map::empty(), Seq::empty(), Seq::empty(), -1, 1)
    } else {
        check_step(check_fold(lines.drop_last()), lines.last())
    }
}

/// The configuration lines break a rule of the format.
pub open spec fn config_issues(lines: Seq<Seq<char>>) -> bool {
    let st = check_fold(lines);
    st.0 || without_value_error(st.1, st.2) || lines_error(st.3)
}

/// The issue of a line with white space around its text or a double space inside it.
pub open spec fn spaces_issues(name: Seq<char>, line_length: int, text: Seq<char>) -> Seq<IssueView> {
    if line_length != text.len() {
        seq![IssueView::OuterSpaces { name }]
    } else {
        issue_if(contains_double_space(text), IssueView::DoubleSpaces { name })
    }
}

/// The issues of a name with a space, and of a name seen before.
pub open spec fn name_issues(name: Seq<char>, names: Map<Seq<char>, bool>) -> Seq<IssueView> {
    issue_if(name.contains(' '), IssueView::NameWithSpaces { name }) + issue_if(
        names.contains_key(upper_text(name)),
        IssueView::DuplicateName { name },
    )
}

/// The issue of a name not followed by a value.
pub open spec fn without_value_issues(names: Map<Seq<char>, bool>, name: Seq<char>) -> Seq<IssueView> {
    issue_if(without_value_error(names, name), IssueView::NameWithoutValue { name })
}

/// The issues of the first `n` pending value lines, each checked on its own.
pub open spec fn lines_issues(name: Seq<char>, lines: Seq<Seq<char>>, n: int) -> Seq<IssueView>
    decreases n,
{
    if n <= 0 {
        Seq::empty()
    } else {
        lines_issues(name, lines, n - 1) + value_issues(lines[n - 1], name)
    }
}

/// The issues of one configuration line, given the check state before it.
pub open spec fn line_issues(st: CheckState, line: Seq<char>) -> Seq<IssueView> {
    let (error, names, name, pending, last_empty, n) = st;
    let t = trimmed(line);
    if min_length_line(t) {
        if name_line(t) {
            without_value_issues(names, name) + lines_issues(name, pending, pending.len() as int)
                + name_issues(t, names) + spaces_issues(t, line.len() as int, t)
        } else {
            issue_if(
                name.len() == 0,
                if same_ignoring_case(t, seq!['E', 'N', 'D']) || same_ignoring_case(t, seq!['A', 'N', 'D']) {
                    IssueView::ReservedName { line: n }
                } else {
                    IssueView::ValueWithoutName { text: t }
                },
            ) + (if end_marker(t) {
                value_issues(joined(pending.push(t)), name)
            } else {
                Seq::empty()
            }) + spaces_issues(name, line.len() as int, t)
        }
    } else {
        issue_if(t.len() == 0 && line.len() > 0, IssueView::OnlySpaces) + without_value_issues(names, name)
            + lines_issues(name, pending, pending.len() as int) + issue_if(
            t.len() != 0,
            IssueView::InvalidLine { text: t },
        ) + issue_if(line.len() == 0 && last_empty == n - 1, IssueView::ConsecutiveEmptyLines { line: n })
    }
}

/// The issues of the configuration lines, line by line.
pub open spec fn config_line_issues(lines: Seq<Seq<char>>) -> Seq<IssueView>
    decreases lines.len(),
{
    if lines.len() == 0 {
        Seq::empty()
    } else {
        config_line_issues(lines.drop_last()) + line_issues(check_fold(lines.drop_last()), lines.last())
    }
}

/// The issues of a configuration: those of each line, then those of the last signature.
pub open spec fn config_issue_list(lines: Seq<Seq<char>>) -> Seq<IssueView> {
    let st = check_fold(lines);
    config_line_issues(lines) + without_value_issues(st.1, st.2) + lines_issues(st.2, st.3, st.3.len() as int)
}

/// Checks each pending value line on its own.
pub fn validate_signature_value_lines(signature_name: &[char], signature_lines: &Vec<Vec<char>>, issues: &mut Vec<Issue>) -> (r: bool)
    ensures
        r == lines_error(chars_view(signature_lines@)),
        reported(old(issues)@, final(issues)@, r),
        issues_view(final(issues)@) == issues_view(old(issues)@) + lines_issues(
            signature_name@,
            chars_view(signature_lines@),
            signature_lines@.len() as int,
        ),
{
    let ghost lines = chars_view(signature_lines@);
    let mut error = false;
    let mut k: usize = 0;
    while k < signature_lines.len()
        invariant
            k <= lines.len(),
            lines == chars_view(signature_lines@),
            error == exists|i: int| 0 <= i < k && value_error(#[trigger] lines[i]),
            reported(old(issues)@, issues@, error),
            issues_view(issues@) == issues_view(old(issues)@) + lines_issues(signature_name@, lines, k as int),
        decreases lines.len() - k,
    {
        assert(signature_lines@[k as int]@ == lines[k as int]);
        let ghost before = issues@;
        let e = validate_signature_value(signature_name, signature_lines[k].as_slice(), issues);
        proof {
            lemma_reported_chain(old(issues)@, before, issues@, error, e);
        }
        assert(issues_view(issues@) =~= issues_view(old(issues)@) + lines_issues(signature_name@, lines, k + 1));
        error = error || e;
        k += 1;
    }
    error
}

/// A name not followed by a value line.
pub fn validate_signature_without_value(names: &Vec<(Vec<char>, bool)>, signature_name: &[char], issues: &mut Vec<Issue>) -> (r: bool)
    ensures
        r == without_value_error(table_map(names@), signature_name@),
        reported(old(issues)@, final(issues)@, r),
        issues_view(final(issues)@) == issues_view(old(issues)@) + without_value_issues(table_map(names@), signature_name@),
{
    assert(issues_view(old(issues)@) + Seq::<IssueView>::empty() == issues_view(old(issues)@));
    if signature_name.len() == 0 {
        return false;
    }
    let key = upper_chars(signature_name);
    let has_value = match table_get(names, key.as_slice()) {
        Some(v) => v,
        None => false,
    };
    if !has_value {
        push_issue(issues, Issue::NameWithoutValue { name: string_of(signature_name) });
    }
    assert(issues_view(issues@) =~= issues_view(old(issues)@) + without_value_issues(table_map(names@), signature_name@));
    !has_value
}

/// A name with a space, or one defined before in any case.
pub fn validate_signature_name(signature_name: &[char], names: &Vec<(Vec<char>, bool)>, issues: &mut Vec<Issue>) -> (r: bool)
    ensures
        r == name_error(signature_name@, table_map(names@)),
        reported(old(issues)@, final(issues)@, r),
        issues_view(final(issues)@) == issues_view(old(issues)@) + name_issues(signature_name@, table_map(names@)),
{
    let mut space = false;
    let mut k: usize = 0;
    while k < signature_name.len()
        invariant
            k <= signature_name@.len(),
            space == exists|i: int| 0 <= i < k && #[trigger] signature_name@[i] == ' ',
        decreases signature_name@.len() - k,
    {
        if signature_name[k] == ' ' {
            space = true;
        }
        k += 1;
    }
    if space {
        push_issue(issues, Issue::NameWithSpaces { name: string_of(signature_name) });
    }
    let key = upper_chars(signature_name);
    let seen = table_get(names, key.as_slice()).is_some();
    if seen {
        push_issue(issues, Issue::DuplicateName { name: string_of(signature_name) });
    }
    assert(space == signature_name@.contains(' '));
    assert(issues_view(issues@) =~= issues_view(old(issues)@) + name_issues(signature_name@, table_map(names@)));
    space || seen
}

/// White space around a line's text, or a double space inside it.
pub fn validate_spaces(signature_name: &[char], signature_value: &[char], line_length: usize, signature_size: usize, issues: &mut Vec<Issue>) -> (r: bool)
    requires
        signature_size == signature_value@.len(),
    ensures
        r == spaces_error(line_length as int, signature_value@),
        reported(old(issues)@, final(issues)@, r),
        issues_view(final(issues)@) == issues_view(old(issues)@) + spaces_issues(signature_name@, line_length as int, signature_value@),
{
    if line_length != signature_size {
        push_issue(issues, Issue::OuterSpaces { name: string_of(signature_name) });
        assert(issues_view(issues@) =~= issues_view(old(issues)@) + spaces_issues(signature_name@, line_length as int, signature_value@));
        return true;
    }
    let mut double = false;
    let mut k: usize = 0;
    while signature_value.len() > 0 && k < signature_value.len() - 1
        invariant
            k <= signature_value@.len(),
            signature_value@.len() > 0 ==> k <= signature_value@.len() - 1,
            double == exists|i: int| 0 <= i < k && #[trigger] signature_value@[i] == ' ' && signature_value@[i + 1] == ' ',
        decreases signature_value@.len() - k,
    {
        if signature_value[k] == ' ' && signature_value[k + 1] == ' ' {
            double = true;
        }
        k += 1;
    }
    if double {
        push_issue(issues, Issue::DoubleSpaces { name: string_of(signature_name) });
    }
    assert(issues_view(issues@) =~= issues_view(old(issues)@) + spaces_issues(signature_name@, line_length as int, signature_value@));
    double
}

pub open spec fn tag_name() -> Seq<char> {
    seq!['N', 'A', 'M', 'E', ':']
}

pub open spec fn tag_author() -> Seq<char> {
    seq!['A', 'U', 'T', 'H', 'O', 'R', ':']
}

pub open spec fn tag_released() -> Seq<char> {
    seq!['R', 'E', 'L', 'E', 'A', 'S', 'E', 'D', ':']
}

pub open spec fn tag_reference() -> Seq<char> {
    seq!['R', 'E', 'F', 'E', 'R', 'E', 'N', 'C', 'E', ':']
}

pub open spec fn tag_comment() -> Seq<char> {
    seq!['C', 'O', 'M', 'M', 'E', 'N', 'T', ':']
}

/// The place of a tag in an info block; a continuation line comes last, an unknown tag 0.
pub open spec fn tag_order(tag: Seq<char>) -> int {
    let t = trimmed(tag);
    if t == tag_name() {
        1
    } else if t == tag_author() {
        2
    } else if t == tag_released() {
        3
    } else if t == tag_reference() {
        4
    } else if t == tag_comment() {
        5
    } else if t.len() == 0 {
        6
    } else {
        0
    }
}

pub open spec fn known_tag(tag: Seq<char>) -> bool {
    tag.len() == 0 || tag == tag_author() || tag == tag_released() || tag == tag_name() || tag
        == tag_reference() || tag == tag_comment()
}

/// A tag that does not come after the previous one, or a continuation line after a
/// tag other than a comment.
pub open spec fn order_error(tag: Seq<char>, previous: Seq<char>) -> bool {
    previous.len() > 0 && (tag_order(tag) <= tag_order(previous) || (tag_order(tag) == 6
        && tag_order(previous) < 5))
}

pub open spec fn tag_error(tag: Seq<char>, previous: Seq<char>) -> bool {
    !known_tag(tag) || order_error(tag, previous)
}

pub open spec fn is_ascii_white(c: char) -> bool {
    c == ' ' || c == '\t' || c == '\n' || c == '\x0C' || c == '\r'
}

/// The value is not aligned, or a reference does not start with `HTTP` in any case.
pub open spec fn tag_value_error(tag: Seq<char>, value: Seq<char>) -> bool {
    (value.len() > 0 && is_ascii_white(value[0])) || (same_ignoring_case(tag, tag_reference()) && !(
    trimmed(value).len() >= 4 && same_ignoring_case(trimmed(value).subrange(0, 4), seq!['H', 'T', 'T', 'P'])))
}

pub open spec fn known_signature(signatures: Seq<(Seq<char>, Seq<(Seq<u8>, Option<u8>)>)>, name: Seq<char>) -> bool {
    exists|i: int| 0 <= i < signatures.len() && (#[trigger] signatures[i]).0 == name
}

/// The state of the info check: an issue found so far, the names seen, the current
/// name, the previous tag, whether a name and a tag line were seen in this block, the
/// number of the last short line, and the number of the next line.
pub type InfoCheckState = (bool, Map<Seq<char>, bool>, Seq<char>, Seq<char>, bool, bool, int, int);

pub open spec fn info_check_step(
    signatures: Seq<(Seq<char>, Seq<(Seq<u8>, Option<u8>)>)>,
    st: InfoCheckState,
    line: Seq<char>,
) -> InfoCheckState {
    let (error, names, name, previous, name_found, info_found, last_empty, n) = st;
    let e0 = trim_end(line).len() != line.len();
    let t = trimmed(line);
    if info_tag_line(line) {
        let prev = if name_found { previous } else { Seq::empty() };
        let tag = trimmed(line.subrange(0, 10));
        let value = line.subrange(11, line.len() as int);
        let e = e0 || !name_found || tag_error(tag, prev) || tag_value_error(tag, value);
        (error || e, names, name, if tag.len() > 0 { tag } else { prev }, name_found, true, last_empty, n + 1)
    } else if name_line(t) {
        let e = e0 || !known_signature(signatures, t) || (name_found && !info_found);
        if t.contains(':') {
            (true, names, name, previous, name_found, info_found, last_empty, n + 1)
        } else {
            (error || e || name_error(t, names), names.insert(upper_text(t), true), t, Seq::empty(), true, false, last_empty, n + 1)
        }
    } else {
        let e = e0 || (name_found && !info_found) || (line.len() == 0 && last_empty == n - 1);
        (error || e, names, name, previous, false, false, n, n + 1)
    }
}

pub open spec fn info_check_fold(
    signatures: Seq<(Seq<char>, Seq<(Seq<u8>, Option<u8>)>)>,
    lines: Seq<Seq<char>>,
) -> InfoCheckState
    decreases lines.len(),
{
    if lines.len() == 0 {
        (false, Map::empty(), Seq::empty(), Seq::empty(), false, false, -1, 1)
    } else {
        info_check_step(signatures, info_check_fold(signatures, lines.drop_last()), lines.last())
    }
}

/// The issues of a tag out of order, and of a continuation after a tag other than a comment.
pub open spec fn order_issues(name: Seq<char>, tag: Seq<char>, previous: Seq<char>) -> Seq<IssueView> {
    if previous.len() == 0 {
        Seq::empty()
    } else {
        issue_if(tag_order(tag) <= tag_order(previous), IssueView::TagOrder { tag, previous, name })
            + issue_if(
            tag_order(tag) == 6 && tag_order(previous) < 5,
            IssueView::MultiLineTag { previous, name },
        )
    }
}

pub open spec fn tag_issues(name: Seq<char>, tag: Seq<char>, previous: Seq<char>) -> Seq<IssueView> {
    if known_tag(tag) {
        order_issues(name, tag, previous)
    } else {
        seq![IssueView::InvalidTag { tag, name }]
    }
}

/// The issues of a misaligned value, and of a reference that is no web address.
pub open spec fn tag_value_issues(name: Seq<char>, tag: Seq<char>, value: Seq<char>) -> Seq<IssueView> {
    issue_if(value.len() > 0 && is_ascii_white(value[0]), IssueView::MisalignedValue { tag, name })
        + issue_if(
        same_ignoring_case(tag, tag_reference()) && !(trimmed(value).len() >= 4 && same_ignoring_case(
            trimmed(value).subrange(0, 4),
            seq!['H', 'T', 'T', 'P'],
        )),
        IssueView::InvalidReference { name },
    )
}

/// The index of the first `:` of a text that holds one.
pub open spec fn first_colon_index(t: Seq<char>) -> int {
    choose|i: int| 0 <= i < t.len() && t[i] == ':' && forall|j: int| 0 <= j < i ==> t[j] != ':'
}

/// The issues of one info line, given the check state before it.
pub open spec fn info_line_issues(
    signatures: Seq<(Seq<char>, Seq<(Seq<u8>, Option<u8>)>)>,
    st: InfoCheckState,
    line: Seq<char>,
) -> Seq<IssueView> {
    let (error, names, name, previous, name_found, info_found, last_empty, n) = st;
    let head = issue_if(trim_end(line).len() != line.len(), IssueView::TrailingSpaces { line: n });
    let t = trimmed(line);
    if info_tag_line(line) {
        let prev = if name_found { previous } else { Seq::empty() };
        let tag = trimmed(line.subrange(0, 10));
        let value = line.subrange(11, line.len() as int);
        head + issue_if(!name_found, IssueView::InfoWithoutName { line: n }) + tag_issues(name, tag, prev)
            + tag_value_issues(name, tag, value)
    } else if name_line(t) {
        head + issue_if(!known_signature(signatures, t), IssueView::UnknownSignature { name: t })
            + issue_if(name_found && !info_found, IssueView::NameWithoutInfo { name }) + if t.contains(':') {
            seq![IssueView::WrongIndentation { text: t.subrange(0, first_colon_index(t) + 1), name }]
        } else {
            name_issues(t, names)
        }
    } else {
        head + issue_if(name_found && !info_found, IssueView::NameWithoutInfo { name }) + issue_if(
            line.len() == 0 && last_empty == n - 1,
            IssueView::ConsecutiveEmptyLines { line: n },
        )
    }
}

/// The issues of info lines, line by line.
pub open spec fn info_issue_list(
    signatures: Seq<(Seq<char>, Seq<(Seq<u8>, Option<u8>)>)>,
    lines: Seq<Seq<char>>,
) -> Seq<IssueView>
    decreases lines.len(),
{
    if lines.len() == 0 {
        Seq::empty()
    } else {
        info_issue_list(signatures, lines.drop_last()) + info_line_issues(
            signatures,
            info_check_fold(signatures, lines.drop_last()),
            lines.last(),
        )
    }
}

fn eq_chars(a: &[char], b: &[char]) -> (r: bool)
    ensures
        r == (a@ == b@),
{
    if a.len() != b.len() {
        return false;
    }
    let mut k: usize = 0;
    while k < a.len()
        invariant
            k <= a@.len(),
            a@.len() == b@.len(),
            forall|q: int| 0 <= q < k ==> a@[q] == #[trigger] b@[q],
        decreases a@.len() - k,
    {
        if a[k] != b[k] {
            return false;
        }
        k += 1;
    }
    assert(a@ =~= b@);
    true
}

fn literal(s: &str) -> (r: Vec<char>)
    ensures
        r@ == s@,
{
    chars_of(s)
}

fn get_order(tag: &[char]) -> (r: i32)
    ensures
        r as int == tag_order(tag@),
{
    let t = trim(tag);
    let name = literal("NAME:");
    let author = literal("AUTHOR:");
    let released = literal("RELEASED:");
    let reference = literal("REFERENCE:");
    let comment = literal("COMMENT:");
    proof {
        reveal_strlit("NAME:");
        reveal_strlit("AUTHOR:");
        reveal_strlit("RELEASED:");
        reveal_strlit("REFERENCE:");
        reveal_strlit("COMMENT:");
    }
    assert(name@ == tag_name());
    assert(author@ == tag_author());
    assert(released@ == tag_released());
    assert(reference@ == tag_reference());
    assert(comment@ == tag_comment());
    if eq_chars(t.as_slice(), name.as_slice()) {
        1
    } else if eq_chars(t.as_slice(), author.as_slice()) {
        2
    } else if eq_chars(t.as_slice(), released.as_slice()) {
        3
    } else if eq_chars(t.as_slice(), reference.as_slice()) {
        4
    } else if eq_chars(t.as_slice(), comment.as_slice()) {
        5
    } else if t.len() == 0 {
        6
    } else {
        0
    }
}

/// The tag comes after the previous one, and a continuation only follows a comment.
fn validate_order(signature_name: &[char], tag: &[char], previous_tag: &[char], issues: &mut Vec<Issue>) -> (r: bool)
    ensures
        r == order_error(tag@, previous_tag@),
        reported(old(issues)@, final(issues)@, r),
        issues_view(final(issues)@) == issues_view(old(issues)@) + order_issues(signature_name@, tag@, previous_tag@),
{
    if previous_tag.len() == 0 {
        assert(issues_view(issues@) =~= issues_view(old(issues)@) + order_issues(signature_name@, tag@, previous_tag@));
        return false;
    }
    let tag_order = get_order(tag);
    let previous_tag_order = get_order(previous_tag);
    let out_of_order = tag_order <= previous_tag_order;
    if out_of_order {
        push_issue(issues, Issue::TagOrder { tag: string_of(tag), previous: string_of(previous_tag), name: string_of(signature_name) });
    }
    let multi_line = tag_order == 6 && previous_tag_order < 5;
    if multi_line {
        push_issue(issues, Issue::MultiLineTag { previous: string_of(previous_tag), name: string_of(signature_name) });
    }
    assert(issues_view(issues@) =~= issues_view(old(issues)@) + order_issues(signature_name@, tag@, previous_tag@));
    out_of_order || multi_line
}

/// The tag is a known one and in order.
fn validate_info_tag(signature_name: &[char], tag: &[char], previous_tag: &[char], issues: &mut Vec<Issue>) -> (r: bool)
    requires
        tag@ == trimmed(tag@),
    ensures
        r == tag_error(tag@, previous_tag@),
        reported(old(issues)@, final(issues)@, r),
        issues_view(final(issues)@) == issues_view(old(issues)@) + tag_issues(signature_name@, tag@, previous_tag@),
{
    let known = tag.len() == 0 || get_order(tag) != 0;
    assert(known == known_tag(tag@));
    if known {
        validate_order(signature_name, tag, previous_tag, issues)
    } else {
        push_issue(issues, Issue::InvalidTag { tag: string_of(tag), name: string_of(signature_name) });
        assert(issues_view(issues@) =~= issues_view(old(issues)@) + tag_issues(signature_name@, tag@, previous_tag@));
        true
    }
}

/// The value starts in its column, and a reference is a web address.
fn validate_info_tag_value(signature_name: &[char], tag: &[char], value: &[char], issues: &mut Vec<Issue>) -> (r: bool)
    ensures
        r == tag_value_error(tag@, value@),
        reported(old(issues)@, final(issues)@, r),
        issues_view(final(issues)@) == issues_view(old(issues)@) + tag_value_issues(signature_name@, tag@, value@),
{
    let ghost start = issues@;
    let mut error = false;
    if value.len() > 0 && (value[0] == ' ' || value[0] == '\t' || value[0] == '\n' || value[0] == '\x0C' || value[0] == '\r') {
        push_issue(issues, Issue::MisalignedValue { tag: string_of(tag), name: string_of(signature_name) });
        error = true;
    }
    let reference = literal("REFERENCE:");
    proof {
        reveal_strlit("REFERENCE:");
    }
    assert(reference@ == tag_reference());
    let is_reference = crate::text::eq_ignore_case(tag, reference.as_slice());
    let mut bad_reference = false;
    if is_reference {
        let v = trim(value);
        let http = literal("HTTP");
        proof {
            reveal_strlit("HTTP");
        }
        assert(http@ == seq!['H', 'T', 'T', 'P']);
        let starts = if v.len() >= 4 {
            let mut head: Vec<char> = Vec::new();
            head.push(v[0]);
            head.push(v[1]);
            head.push(v[2]);
            head.push(v[3]);
            assert(head@ == v@.subrange(0, 4));
            crate::text::eq_ignore_case(head.as_slice(), http.as_slice())
        } else {
            false
        };
        if !starts {
            push_issue(issues, Issue::InvalidReference { name: string_of(signature_name) });
            bad_reference = true;
        }
    }
    assert(issues_view(issues@) =~= issues_view(old(issues)@) + tag_value_issues(signature_name@, tag@, value@));
    error || bad_reference
}

/// The state of the info check between two lines.
struct InfoCheck {
    error: bool,
    names: Vec<(Vec<char>, bool)>,
    signature_name: Vec<char>,
    previous_tag: Vec<char>,
    name_found: bool,
    info_found: bool,
    last_empty: Option<usize>,
    issues: Vec<Issue>,
}

spec fn info_state(c: &InfoCheck, k: int) -> InfoCheckState {
    (c.error, table_map(c.names@), c.signature_name@, c.previous_tag@, c.name_found, c.info_found, match c.last_empty {
        Some(x) => x as int,
        None => -1,
    }, k + 1)
}

/// A tag line of an info block.
#[verifier::rlimit(100)]
fn check_tag_line(c: &mut InfoCheck, line: &Vec<char>, text: Vec<char>, k: usize, signatures: &[SignatureConfig])
    requires
        k < usize::MAX,
        text@ == trimmed(line@),
        old(c).last_empty matches Some(x) ==> x <= k,
        old(c).error <==> old(c).issues@.len() > 0,
        info_tag_line(line@),
    ensures
        info_state(final(c), k + 1) == info_check_step(signatures_view(signatures@), info_state(old(c), k as int), line@),
        issues_view(final(c).issues@) == issues_view(old(c).issues@) + info_line_issues(
            signatures_view(signatures@),
            info_state(old(c), k as int),
            line@,
        ),
        final(c).error <==> final(c).issues@.len() > 0,
        final(c).last_empty matches Some(x) ==> x <= k + 1,
{
    let ghost sigs = signatures_view(signatures@);
    let ghost st = info_state(&*c, k as int);
    let ghost before = c.issues@;
    let line_number = k + 1;
    let mut e0 = false;
    if trimmed_end_len(line.as_slice()) != line.len() {
        push_issue(&mut c.issues, Issue::TrailingSpaces { line: line_number });
        e0 = true;
    }
    let ghost i0 = c.issues@;
    let mut e = false;
    let mut e = false;
    let mut e1 = false;
    if !c.name_found {
        push_issue(&mut c.issues, Issue::InfoWithoutName { line: line_number });
        e1 = true;
        c.previous_tag = Vec::new();
    }
    let ghost i1 = c.issues@;
    let mut head: Vec<char> = Vec::new();
    let mut q: usize = 0;
    while q < 10
        invariant
            q <= 10,
            line@.len() >= 11,
            head@ == line@.subrange(0, q as int),
        decreases 10 - q,
    {
        head.push(line[q]);
        q += 1;
    }
    let tag = trim(head.as_slice());
    let mut value: Vec<char> = Vec::new();
    let mut q: usize = 11;
    while q < line.len()
        invariant
            11 <= q <= line@.len(),
            value@ == line@.subrange(11, q as int),
        decreases line@.len() - q,
    {
        value.push(line[q]);
        q += 1;
    }
    proof {
        crate::text::lemma_trimmed_idempotent(head@);
    }
    let e2 = validate_info_tag(c.signature_name.as_slice(), tag.as_slice(), c.previous_tag.as_slice(), &mut c.issues);
    let ghost i2 = c.issues@;
    let e3 = validate_info_tag_value(c.signature_name.as_slice(), tag.as_slice(), value.as_slice(), &mut c.issues);
    proof {
        lemma_reported_chain(before, i0, i1, e0, e1);
        lemma_reported_chain(before, i1, i2, e0 || e1, e2);
        lemma_reported_chain(before, i2, c.issues@, e0 || e1 || e2, e3);
    }
    assert(issues_view(c.issues@) =~= issues_view(before) + info_line_issues(sigs, st, line@));
    e = e0 || e1 || e2 || e3;
    if tag.len() > 0 {
        c.previous_tag = tag;
    }
    c.info_found = true;
    c.error = c.error || e;
}

/// A line that names an info block.
#[verifier::rlimit(100)]
fn check_info_name_line(c: &mut InfoCheck, line: &Vec<char>, text: Vec<char>, k: usize, signatures: &[SignatureConfig])
    requires
        k < usize::MAX,
        text@ == trimmed(line@),
        old(c).last_empty matches Some(x) ==> x <= k,
        old(c).error <==> old(c).issues@.len() > 0,
        !info_tag_line(line@) && name_line(text@),
    ensures
        info_state(final(c), k + 1) == info_check_step(signatures_view(signatures@), info_state(old(c), k as int), line@),
        issues_view(final(c).issues@) == issues_view(old(c).issues@) + info_line_issues(
            signatures_view(signatures@),
            info_state(old(c), k as int),
            line@,
        ),
        final(c).error <==> final(c).issues@.len() > 0,
        final(c).last_empty matches Some(x) ==> x <= k + 1,
{
    let ghost sigs = signatures_view(signatures@);
    let ghost st = info_state(&*c, k as int);
    let ghost before = c.issues@;
    let line_number = k + 1;
    let mut e0 = false;
    if trimmed_end_len(line.as_slice()) != line.len() {
        push_issue(&mut c.issues, Issue::TrailingSpaces { line: line_number });
        e0 = true;
    }
    let ghost i0 = c.issues@;
    let mut e = false;
    let mut e = false;
    let mut known = false;
    let mut j: usize = 0;
    while j < signatures.len()
        invariant
            j <= sigs.len(),
            sigs == signatures_view(signatures@),
            known == exists|i: int| 0 <= i < j && (#[trigger] sigs[i]).0 == text@,
        decreases sigs.len() - j,
    {
        assert(sigs[j as int].0 == signatures@[j as int].signature_name@);
        let n = chars_of(signatures[j].signature_name.as_str());
        if eq_chars(n.as_slice(), text.as_slice()) {
            known = true;
        }
        j += 1;
    }
    let mut e1 = false;
    if !known {
        push_issue(&mut c.issues, Issue::UnknownSignature { name: string_of(text.as_slice()) });
        e1 = true;
    }
    let ghost i1 = c.issues@;
    let mut e2 = false;
    if c.name_found && !c.info_found {
        push_issue(&mut c.issues, Issue::NameWithoutInfo { name: string_of(c.signature_name.as_slice()) });
        e2 = true;
    }
    let ghost i2 = c.issues@;
    proof {
        lemma_reported_chain(before, i0, i1, e0, e1);
        lemma_reported_chain(before, i1, i2, e0 || e1, e2);
    }
    let mut colon: usize = 0;
    while colon < text.len() && text[colon] != ':'
        invariant
            colon <= text@.len(),
            forall|q: int| 0 <= q < colon ==> text@[q] != ':',
        decreases text@.len() - colon,
    {
        colon += 1;
    }
    if colon < text.len() {
        assert(text@.contains(':')) by {
            assert(text@[colon as int] == ':');
        }
        let mut shown: Vec<char> = Vec::new();
        let mut q: usize = 0;
        while q <= colon
            invariant
                q <= colon + 1,
                colon < text.len(),
                shown@ == text@.subrange(0, q as int),
            decreases colon + 1 - q,
        {
            shown.push(text[q]);
            q += 1;
        }
        assert(first_colon_index(text@) == colon) by {
            assert(0 <= colon < text@.len() && text@[colon as int] == ':' && forall|j: int| 0 <= j < colon ==> text@[j] != ':');
            let c = first_colon_index(text@);
            if c < colon {
                assert(text@[c] != ':');
            } else if c > colon {
                assert(text@[colon as int] != ':');
            }
        }
        let ghost i2b = c.issues@;
        push_issue(&mut c.issues, Issue::WrongIndentation { text: string_of(shown.as_slice()), name: string_of(c.signature_name.as_slice()) });
        assert(issues_view(c.issues@) =~= issues_view(before) + info_line_issues(sigs, st, line@));
        c.error = true;
        return;
    }
    assert(!text@.contains(':')) by {
        if text@.contains(':') {
            let q = choose|q: int| 0 <= q < text@.len() && text@[q] == ':';
            assert(text@[q] != ':');
        }
    }
    let e3 = validate_signature_name(text.as_slice(), &c.names, &mut c.issues);
    proof {
        lemma_reported_chain(before, i2, c.issues@, e0 || e1 || e2, e3);
    }
    assert(issues_view(c.issues@) =~= issues_view(before) + info_line_issues(sigs, st, line@));
    e = e0 || e1 || e2 || e3;
    c.previous_tag = Vec::new();
    table_insert(&mut c.names, upper_chars(text.as_slice()), true);
    c.signature_name = text;
    c.name_found = true;
    c.info_found = false;
    c.error = c.error || e;
}

/// Any other info line.
#[verifier::rlimit(100)]
fn check_other_info_line(c: &mut InfoCheck, line: &Vec<char>, text: Vec<char>, k: usize, signatures: &[SignatureConfig])
    requires
        k < usize::MAX,
        text@ == trimmed(line@),
        old(c).last_empty matches Some(x) ==> x <= k,
        old(c).error <==> old(c).issues@.len() > 0,
        !info_tag_line(line@) && !name_line(text@),
    ensures
        info_state(final(c), k + 1) == info_check_step(signatures_view(signatures@), info_state(old(c), k as int), line@),
        issues_view(final(c).issues@) == issues_view(old(c).issues@) + info_line_issues(
            signatures_view(signatures@),
            info_state(old(c), k as int),
            line@,
        ),
        final(c).error <==> final(c).issues@.len() > 0,
        final(c).last_empty matches Some(x) ==> x <= k + 1,
{
    let ghost sigs = signatures_view(signatures@);
    let ghost st = info_state(&*c, k as int);
    let ghost before = c.issues@;
    let line_number = k + 1;
    let mut e0 = false;
    if trimmed_end_len(line.as_slice()) != line.len() {
        push_issue(&mut c.issues, Issue::TrailingSpaces { line: line_number });
        e0 = true;
    }
    let ghost i0 = c.issues@;
    let mut e = false;
    let mut e = false;
    let mut e1 = false;
    if c.name_found && !c.info_found {
        push_issue(&mut c.issues, Issue::NameWithoutInfo { name: string_of(c.signature_name.as_slice()) });
        e1 = true;
    }
    let ghost i1 = c.issues@;
    let mut e2 = false;
    if line.len() == 0 && c.last_empty == Some(k) {
        push_issue(&mut c.issues, Issue::ConsecutiveEmptyLines { line: line_number });
        e2 = true;
    }
    proof {
        lemma_reported_chain(before, i0, i1, e0, e1);
        lemma_reported_chain(before, i1, c.issues@, e0 || e1, e2);
    }
    assert(issues_view(c.issues@) =~= issues_view(before) + info_line_issues(sigs, st, line@));
    e = e0 || e1 || e2;
    c.last_empty = Some(line_number);
    c.name_found = false;
    c.info_found = false;
    c.error = c.error || e;
}

/// Checks info lines against the rules of the format and against the signatures of
/// the configuration. Returns whether any rule is broken, and one issue for each finding.
pub fn verify_info_file(info_lines: &Vec<String>, signatures: &[SignatureConfig]) -> (r: (bool, Vec<Issue>))
    ensures
        r.0 == info_check_fold(signatures_view(signatures@), lines_view(info_lines@)).0,
        r.0 <==> r.1@.len() > 0,
        issues_view(r.1@) == info_issue_list(signatures_view(signatures@), lines_view(info_lines@)),
{
    let ghost lines = lines_view(info_lines@);
    let ghost sigs = signatures_view(signatures@);
    let mut check = InfoCheck {
        error: false,
        names: Vec::new(),
        signature_name: Vec::new(),
        previous_tag: Vec::new(),
        name_found: false,
        info_found: false,
        last_empty: None,
        issues: Vec::new(),
    };
    let mut k: usize = 0;
    assert(lines.subrange(0, 0) =~= Seq::<Seq<char>>::empty());
    assert(table_map(check.names@) =~= Map::<Seq<char>, bool>::empty());
    assert(issues_view(check.issues@) =~= Seq::<IssueView>::empty());
    while k < info_lines.len()
        invariant
            k <= lines.len(),
            lines == lines_view(info_lines@),
            sigs == signatures_view(signatures@),
            check.last_empty matches Some(x) ==> x <= k,
            info_state(&check, k as int) == info_check_fold(sigs, lines.subrange(0, k as int)),
            check.error <==> check.issues@.len() > 0,
            issues_view(check.issues@) == info_issue_list(sigs, lines.subrange(0, k as int)),
        decreases lines.len() - k,
    {
        let ghost prefix = lines.subrange(0, k + 1);
        assert(prefix.drop_last() == lines.subrange(0, k as int));
        assert(prefix.last() == info_lines@[k as int]@);
        let ghost st = info_check_fold(sigs, lines.subrange(0, k as int));
        let line = chars_of(info_lines[k].as_str());
        let text = trim(line.as_slice());
        if Signature::is_info_tag_chars(line.as_slice()) {
            check_tag_line(&mut check, &line, text, k, signatures);
        } else if text.len() >= 3 && Signature::is_signature_name_chars(text.as_slice()) {
            check_info_name_line(&mut check, &line, text, k, signatures);
        } else {
            check_other_info_line(&mut check, &line, text, k, signatures);
        }
        assert(info_check_fold(sigs, prefix) == info_check_step(sigs, st, prefix.last()));
        assert(info_issue_list(sigs, prefix) == info_issue_list(sigs, lines.subrange(0, k as int)) + info_line_issues(sigs, st, prefix.last()));
        k += 1;
    }
    assert(lines.subrange(0, lines.len() as int) == lines);
    (check.error, check.issues)
}

fn trimmed_end_len(s: &[char]) -> (r: usize)
    ensures
        r == trim_end(s@).len(),
{
    let mut b: usize = s.len();
    assert(s@.subrange(0, s@.len() as int) == s@);
    while b > 0 && white_space(s[b - 1])
        invariant
            b <= s@.len(),
            trim_end(s@) == trim_end(s@.subrange(0, b as int)),
        decreases b,
    {
        assert(s@.subrange(0, b as int).drop_last() == s@.subrange(0, b - 1));
        b -= 1;
    }
    b
}

/// Checks configuration lines against the rules of the format. Returns whether any
/// rule is broken, and one issue for each finding.
/// The state of the configuration check between two lines.
struct ConfigCheck {
    error: bool,
    names: Vec<(Vec<char>, bool)>,
    signature_name: Vec<char>,
    signature_lines: Vec<Vec<char>>,
    last_empty: Option<usize>,
    issues: Vec<Issue>,
}

spec fn check_view(c: &ConfigCheck, k: int) -> CheckState {
    (c.error, table_map(c.names@), c.signature_name@, chars_view(c.signature_lines@), match c.last_empty {
        Some(x) => x as int,
        None => -1,
    }, k + 1)
}

/// A line that names a signature.
#[verifier::rlimit(100)]
fn check_name_line(c: &mut ConfigCheck, line: &Vec<char>, text: Vec<char>, k: usize)
    requires
        k < usize::MAX,
        text@ == trimmed(line@),
        old(c).last_empty matches Some(x) ==> x <= k,
        old(c).error <==> old(c).issues@.len() > 0,
        min_length_line(text@) && name_line(text@),
    ensures
        check_view(final(c), k + 1) == check_step(check_view(old(c), k as int), line@),
        issues_view(final(c).issues@) == issues_view(old(c).issues@) + line_issues(check_view(old(c), k as int), line@),
        final(c).error <==> final(c).issues@.len() > 0,
        final(c).last_empty matches Some(x) ==> x <= k + 1,
{
    let ghost st = check_view(&*c, k as int);
    let ghost before = c.issues@;
    let line_number = k + 1;
    let mut e = false;
    let e1 = validate_signature_without_value(&c.names, c.signature_name.as_slice(), &mut c.issues);
    let ghost i1 = c.issues@;
    let e2 = validate_signature_value_lines(c.signature_name.as_slice(), &c.signature_lines, &mut c.issues);
    let ghost i2 = c.issues@;
    c.signature_lines.clear();
    let e3 = validate_signature_name(text.as_slice(), &c.names, &mut c.issues);
    let ghost i3 = c.issues@;
    let e4 = validate_spaces(text.as_slice(), text.as_slice(), line.len(), text.len(), &mut c.issues);
    proof {
        lemma_reported_chain(before, i1, i2, e1, e2);
        lemma_reported_chain(before, i2, i3, e1 || e2, e3);
        lemma_reported_chain(before, i3, c.issues@, e1 || e2 || e3, e4);
    }
    assert(issues_view(c.issues@) =~= issues_view(before) + line_issues(st, line@));
    e = e1 || e2 || e3 || e4;
    table_insert(&mut c.names, upper_chars(text.as_slice()), false);
    c.signature_name = text;
    assert(chars_view(c.signature_lines@) =~= Seq::<Seq<char>>::empty());
    c.error = c.error || e;
}

/// A value line.
#[verifier::rlimit(100)]
fn check_value_line(c: &mut ConfigCheck, line: &Vec<char>, text: Vec<char>, k: usize)
    requires
        k < usize::MAX,
        text@ == trimmed(line@),
        old(c).last_empty matches Some(x) ==> x <= k,
        old(c).error <==> old(c).issues@.len() > 0,
        min_length_line(text@) && !name_line(text@),
    ensures
        check_view(final(c), k + 1) == check_step(check_view(old(c), k as int), line@),
        issues_view(final(c).issues@) == issues_view(old(c).issues@) + line_issues(check_view(old(c), k as int), line@),
        final(c).error <==> final(c).issues@.len() > 0,
        final(c).last_empty matches Some(x) ==> x <= k + 1,
{
    let ghost st = check_view(&*c, k as int);
    let ghost before = c.issues@;
    let line_number = k + 1;
    let mut e = false;
    let mut e1 = false;
    if c.signature_name.len() == 0 {
        if Signature::is_keyword(text.as_slice(), 'E', 'N', 'D') || Signature::is_keyword(text.as_slice(), 'A', 'N', 'D') {
            push_issue(&mut c.issues, Issue::ReservedName { line: line_number });
        } else {
            push_issue(&mut c.issues, Issue::ValueWithoutName { text: string_of(text.as_slice()) });
        }
        e1 = true;
    }
    let ghost i1 = c.issues@;
    let closes = Signature::has_end_marker_chars(text.as_slice());
    let ghost pending_before = chars_view(c.signature_lines@);
    c.signature_lines.push(trim(line.as_slice()));
    assert(chars_view(c.signature_lines@) == pending_before.push(text@));
    let mut e2 = false;
    if closes {
        let joined_text = join_with_spaces(&c.signature_lines);
        e2 = validate_signature_value(c.signature_name.as_slice(), joined_text.as_slice(), &mut c.issues);
        c.signature_lines.clear();
        assert(chars_view(c.signature_lines@) =~= Seq::<Seq<char>>::empty());
    }
    let ghost i2 = c.issues@;
    let e3 = validate_spaces(c.signature_name.as_slice(), text.as_slice(), line.len(), text.len(), &mut c.issues);
    proof {
        lemma_reported_chain(before, i1, i2, e1, e2);
        lemma_reported_chain(before, i2, c.issues@, e1 || e2, e3);
    }
    assert(issues_view(c.issues@) =~= issues_view(before) + line_issues(st, line@));
    e = e1 || e2 || e3;
    table_insert(&mut c.names, upper_chars(c.signature_name.as_slice()), true);
    c.error = c.error || e;
}

/// A blank or short line.
#[verifier::rlimit(100)]
fn check_short_line(c: &mut ConfigCheck, line: &Vec<char>, text: Vec<char>, k: usize)
    requires
        k < usize::MAX,
        text@ == trimmed(line@),
        old(c).last_empty matches Some(x) ==> x <= k,
        old(c).error <==> old(c).issues@.len() > 0,
        !min_length_line(text@),
    ensures
        check_view(final(c), k + 1) == check_step(check_view(old(c), k as int), line@),
        issues_view(final(c).issues@) == issues_view(old(c).issues@) + line_issues(check_view(old(c), k as int), line@),
        final(c).error <==> final(c).issues@.len() > 0,
        final(c).last_empty matches Some(x) ==> x <= k + 1,
{
    let ghost st = check_view(&*c, k as int);
    let ghost before = c.issues@;
    let line_number = k + 1;
    let mut e = false;
    let mut e1 = false;
    if text.len() == 0 && line.len() > 0 {
        push_issue(&mut c.issues, Issue::OnlySpaces);
        e1 = true;
    }
    let ghost i1 = c.issues@;
    let e2 = validate_signature_without_value(&c.names, c.signature_name.as_slice(), &mut c.issues);
    let ghost i2 = c.issues@;
    let e3 = validate_signature_value_lines(c.signature_name.as_slice(), &c.signature_lines, &mut c.issues);
    let ghost i3 = c.issues@;
    c.signature_lines.clear();
    assert(chars_view(c.signature_lines@) =~= Seq::<Seq<char>>::empty());
    let mut e4 = false;
    if text.len() != 0 {
        push_issue(&mut c.issues, Issue::InvalidLine { text: string_of(text.as_slice()) });
        e4 = true;
        table_insert(&mut c.names, upper_chars(c.signature_name.as_slice()), true);
    }
    let ghost i4 = c.issues@;
    let mut e5 = false;
    if line.len() == 0 && c.last_empty == Some(k) {
        push_issue(&mut c.issues, Issue::ConsecutiveEmptyLines { line: line_number });
        e5 = true;
    }
    proof {
        lemma_reported_chain(before, i1, i2, e1, e2);
        lemma_reported_chain(before, i2, i3, e1 || e2, e3);
        lemma_reported_chain(before, i3, i4, e1 || e2 || e3, e4);
        lemma_reported_chain(before, i4, c.issues@, e1 || e2 || e3 || e4, e5);
    }
    assert(issues_view(c.issues@) =~= issues_view(before) + line_issues(st, line@));
    e = e1 || e2 || e3 || e4 || e5;
    if c.error || e {
        table_insert(&mut c.names, upper_chars(c.signature_name.as_slice()), true);
    } else {
        c.signature_name = Vec::new();
    }
    c.last_empty = Some(line_number);
    c.error = c.error || e;
}

/// Checks line `k` (counted from 0) of a configuration.
fn check_config_line(c: &mut ConfigCheck, line: &Vec<char>, k: usize)
    requires
        k < usize::MAX,
        old(c).last_empty matches Some(x) ==> x <= k,
        old(c).error <==> old(c).issues@.len() > 0,
    ensures
        check_view(final(c), k + 1) == check_step(check_view(old(c), k as int), line@),
        issues_view(final(c).issues@) == issues_view(old(c).issues@) + line_issues(check_view(old(c), k as int), line@),
        final(c).error <==> final(c).issues@.len() > 0,
        final(c).last_empty matches Some(x) ==> x <= k + 1,
{
    let text = trim(line.as_slice());
    if text.len() >= 2 {
        if Signature::is_signature_name_chars(text.as_slice()) {
            check_name_line(c, line, text, k);
        } else {
            check_value_line(c, line, text, k);
        }
    } else {
        check_short_line(c, line, text, k);
    }
}

pub fn verify_config_file(config_lines: &Vec<String>) -> (r: (bool, Vec<Issue>))
    ensures
        r.0 == config_issues(lines_view(config_lines@)),
        r.0 <==> r.1@.len() > 0,
        issues_view(r.1@) == config_issue_list(lines_view(config_lines@)),
{
    let ghost lines = lines_view(config_lines@);
    let mut check = ConfigCheck {
        error: false,
        names: Vec::new(),
        signature_name: Vec::new(),
        signature_lines: Vec::new(),
        last_empty: None,
        issues: Vec::new(),
    };
    let mut k: usize = 0;
    assert(lines.subrange(0, 0) =~= Seq::<Seq<char>>::empty());
    assert(table_map(check.names@) =~= Map::<Seq<char>, bool>::empty());
    assert(chars_view(check.signature_lines@) =~= Seq::<Seq<char>>::empty());
    assert(issues_view(check.issues@) =~= Seq::<IssueView>::empty());
    while k < config_lines.len()
        invariant
            k <= lines.len(),
            lines == lines_view(config_lines@),
            check.last_empty matches Some(x) ==> x <= k,
            check_view(&check, k as int) == check_fold(lines.subrange(0, k as int)),
            check.error <==> check.issues@.len() > 0,
            issues_view(check.issues@) == config_line_issues(lines.subrange(0, k as int)),
        decreases lines.len() - k,
    {
        let ghost prefix = lines.subrange(0, k + 1);
        assert(prefix.drop_last() == lines.subrange(0, k as int));
        assert(prefix.last() == config_lines@[k as int]@);
        let ghost st = check_fold(lines.subrange(0, k as int));
        let line = chars_of(config_lines[k].as_str());
        check_config_line(&mut check, &line, k);
        assert(check_fold(prefix) == check_step(st, prefix.last()));
        assert(config_line_issues(prefix) == config_line_issues(lines.subrange(0, k as int)) + line_issues(st, prefix.last()));
        k += 1;
    }
    assert(lines.subrange(0, lines.len() as int) == lines);
    let ghost before = check.issues@;
    let e1 = validate_signature_without_value(&check.names, check.signature_name.as_slice(), &mut check.issues);
    let ghost i1 = check.issues@;
    let e2 = validate_signature_value_lines(check.signature_name.as_slice(), &check.signature_lines, &mut check.issues);
    proof {
        lemma_reported_chain(before, i1, check.issues@, e1, e2);
    }
    assert(issues_view(check.issues@) =~= config_issue_list(lines));
    (check.error || e1 || e2, check.issues)
}

} // verus!
