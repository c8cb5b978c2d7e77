//! The entry points of the identifier: loading signatures and info blocks from
//! text lines, scanning file contents, and writing a configuration back as text.
use vstd::prelude::*;

use crate::bndm::BndmConfig;
use crate::format::{config_header_from, info_header_from, parse_config, parse_info, SignatureView, SubPatternView};
use crate::sid_file::{get_data_offset as sid_data_offset_of, is_sid_file, sid_data_offset, sid_file};
use crate::signature::{
    all_signatures_wf, dedup_names, sub_pattern_view, sub_patterns_view, filter_view, infos_view, lines_view, matches_view,
    same_ignoring_case_info, scan_signatures, signatures_view, Signature, SignatureConfig,
    SignatureInfo, SignatureMatch,
};
use crate::text::{chars_of, string_of};

verus! {

/// The text ends with the given suffix.
pub open spec fn ends_with(s: Seq<char>, suffix: Seq<char>) -> bool {
    s.len() >= suffix.len() && s.subrange(s.len() - suffix.len(), s.len() as int) == suffix
}

/// Where the payload of a file starts: past the header of a SID file, past the load
/// address of a `.prg` file, and at 0 otherwise.
pub open spec fn data_offset_of(filename: Seq<char>, data: Seq<u8>) -> int {
    if sid_file(data) {
        sid_data_offset(data)
    } else if ends_with(filename, seq!['.', 'p', 'r', 'g']) {
        2
    } else {
        0
    }
}

/// `s` with every occurrence of `from`, taken left to right, replaced by `to`.
pub open spec fn replace_all(s: Seq<char>, from: Seq<char>, to: Seq<char>) -> Seq<char>
    recommends
        from.len() > 0,
    decreases s.len(),
{
    if s.len() == 0 || from.len() == 0 {
        s
    } else if s.len() >= from.len() && s.subrange(0, from.len() as int) == from {
        to + replace_all(s.subrange(from.len() as int, s.len() as int), from, to)
    } else {
        seq![s[0]] + replace_all(s.drop_first(), from, to)
    }
}

pub open spec fn hex_chars() -> Seq<char> {
    seq!['0', '1', '2', '3', '4', '5', '6', '7', '8', '9', 'A', 'B', 'C', 'D', 'E', 'F']
}

/// A byte as written in a configuration: `??` for the wildcard, else two upper-case
/// hexadecimal digits.
pub open spec fn byte_text(b: u8, wildcard: Option<u8>) -> Seq<char> {
    if wildcard == Some(b) {
        seq!['?', '?']
    } else {
        seq![hex_chars()[b as int / 16], hex_chars()[b as int % 16]]
    }
}

/// The texts joined by a separator.
pub open spec fn join_with(parts: Seq<Seq<char>>, sep: Seq<char>) -> Seq<char>
    decreases parts.len(),
{
    if parts.len() == 0 {
        Seq::empty()
    } else if parts.len() == 1 {
        parts[0]
    } else {
        join_with(parts.drop_last(), sep) + sep + parts.last()
    }
}

pub open spec fn sub_pattern_text(p: SubPatternView) -> Seq<char> {
    join_with(p.0.map_values(|b: u8| byte_text(b, p.1)), seq![' '])
}

pub open spec fn separator_text(new_format: bool) -> Seq<char> {
    if new_format {
        seq![' ', '&', '&', ' ']
    } else {
        seq![' ', 'A', 'N', 'D', ' ']
    }
}

/// The value line of a signature: its sub-patterns joined by `&&` (new form) or by
/// `AND` and closed by `END` (old form).
pub open spec fn value_text(subs: Seq<SubPatternView>, new_format: bool) -> Seq<char> {
    let body = join_with(subs.map_values(|p: SubPatternView| sub_pattern_text(p)), separator_text(new_format));
    if new_format {
        body
    } else {
        body + seq![' ', 'E', 'N', 'D']
    }
}

/// Output lines so far and the name of the previous signature.
pub open spec fn emit_fold(sigs: Seq<SignatureView>, new_format: bool) -> (Seq<Seq<char>>, Seq<char>)
    decreases sigs.len(),
{
    if sigs.len() == 0 {
        (Seq::empty(), Seq::empty())
    } else {
        let st = emit_fold(sigs.drop_last(), new_format);
        let name = sigs.last().0;
        let outs = if name != st.1 {
            if st.0.len() > 0 && !(name.len() > 0 && name[0] == '(') {
                st.0.push(seq!['\r', '\n'] + name)
            } else {
                st.0.push(name)
            }
        } else {
            st.0
        };
        (outs.push(value_text(sigs.last().1, new_format)), name)
    }
}

/// A configuration written back as text: each name on its own line before its value
/// line, a blank line before a new name that does not start with `(`, CRLF line ends.
pub open spec fn converted_text(sigs: Seq<SignatureView>, new_format: bool) -> Seq<char> {
    join_with(emit_fold(sigs, new_format).0, seq!['\r', '\n']) + seq!['\r', '\n']
}

pub struct PlayerId {}

impl PlayerId {
    fn push_all(out: &mut Vec<char>, piece: &[char])
        ensures
            final(out)@ == old(out)@ + piece@,
    {
        let ghost start = out@;
        let mut k: usize = 0;
        while k < piece.len()
            invariant
                k <= piece@.len(),
                out@ == start + piece@.subrange(0, k as int),
            decreases piece@.len() - k,
        {
            out.push(piece[k]);
            k += 1;
        }
        assert(piece@.subrange(0, piece@.len() as int) == piece@);
    }

    fn hex_digit_char(n: u8) -> (r: char)
        requires
            n < 16,
        ensures
            r == hex_chars()[n as int],
    {
        if n < 10 {
            if n == 0 { '0' } else if n == 1 { '1' } else if n == 2 { '2' } else if n == 3 { '3' }
            else if n == 4 { '4' } else if n == 5 { '5' } else if n == 6 { '6' } else if n == 7 { '7' }
            else if n == 8 { '8' } else { '9' }
        } else {
            if n == 10 { 'A' } else if n == 11 { 'B' } else if n == 12 { 'C' } else if n == 13 { 'D' }
            else if n == 14 { 'E' } else { 'F' }
        }
    }

    fn byte_chars(b: u8, wildcard: Option<u8>) -> (r: Vec<char>)
        ensures
            r@ == byte_text(b, wildcard),
    {
        let mut r: Vec<char> = Vec::new();
        let is_wildcard = match wildcard {
            Some(w) => w == b,
            None => false,
        };
        if is_wildcard {
            r.push('?');
            r.push('?');
        } else {
            r.push(Self::hex_digit_char(b / 16));
            r.push(Self::hex_digit_char(b % 16));
        }
        r
    }

    fn sub_pattern_chars(config: &BndmConfig) -> (r: Vec<char>)
        ensures
            r@ == sub_pattern_text(sub_pattern_view(*config)),
    {
        let ghost parts = config.pattern@.map_values(|b: u8| byte_text(b, config.wildcard));
        let mut out: Vec<char> = Vec::new();
        let mut k: usize = 0;
        assert(parts.subrange(0, 0) =~= Seq::<Seq<char>>::empty());
        while k < config.pattern.len()
            invariant
                k <= parts.len(),
                parts == config.pattern@.map_values(|b: u8| byte_text(b, config.wildcard)),
                out@ == join_with(parts.subrange(0, k as int), seq![' ']),
            decreases parts.len() - k,
        {
            assert(parts.subrange(0, k + 1).drop_last() == parts.subrange(0, k as int));
            if k > 0 {
                out.push(' ');
            }
            let piece = Self::byte_chars(config.pattern[k], config.wildcard);
            Self::push_all(&mut out, piece.as_slice());
            k += 1;
        }
        assert(parts.subrange(0, parts.len() as int) == parts);
        out
    }

    fn value_chars(configs: &Vec<BndmConfig>, new_format: bool) -> (r: Vec<char>)
        ensures
            r@ == value_text(sub_patterns_view(configs@), new_format),
    {
        let ghost parts = sub_patterns_view(configs@).map_values(|p: SubPatternView| sub_pattern_text(p));
        let ghost sep = separator_text(new_format);
        let mut out: Vec<char> = Vec::new();
        let mut k: usize = 0;
        assert(parts.subrange(0, 0) =~= Seq::<Seq<char>>::empty());
        while k < configs.len()
            invariant
                k <= parts.len(),
                parts.len() == configs@.len(),
                parts == sub_patterns_view(configs@).map_values(|p: SubPatternView| sub_pattern_text(p)),
                sep == separator_text(new_format),
                out@ == join_with(parts.subrange(0, k as int), sep),
            decreases parts.len() - k,
        {
            assert(parts.subrange(0, k + 1).drop_last() == parts.subrange(0, k as int));
            if k > 0 {
                let ghost before = out@;
                if new_format {
                    out.push(' ');
                    out.push('&');
                    out.push('&');
                    out.push(' ');
                } else {
                    out.push(' ');
                    out.push('A');
                    out.push('N');
                    out.push('D');
                    out.push(' ');
                }
                assert(out@ == before + sep);
            }
            let piece = Self::sub_pattern_chars(&configs[k]);
            Self::push_all(&mut out, piece.as_slice());
            k += 1;
        }
        assert(parts.subrange(0, parts.len() as int) == parts);
        if !new_format {
            let ghost before = out@;
            out.push(' ');
            out.push('E');
            out.push('N');
            out.push('D');
            assert(out@ == before + seq![' ', 'E', 'N', 'D']);
        }
        out
    }

    /// Appends one output line to the CRLF-joined text.
    fn push_line(out: &mut Vec<char>, line: &[char], started: bool, Ghost(lines): Ghost<Seq<Seq<char>>>)
        requires
            old(out)@ == join_with(lines, seq!['\r', '\n']),
            started == (lines.len() > 0),
        ensures
            final(out)@ == join_with(lines.push(line@), seq!['\r', '\n']),
    {
        assert(lines.push(line@).drop_last() == lines);
        if started {
            let ghost before = out@;
            out.push('\r');
            out.push('\n');
            assert(out@ == before + seq!['\r', '\n']);
        }
        Self::push_all(out, line);
    }

    /// The configuration written back as text, in the new form (`&&` between
    /// sub-patterns) or the old one (`AND` between them, `END` at the end).
    pub fn convert_ids_to_string(signature_ids: Vec<SignatureConfig>, new_format: bool) -> (r: String)
        ensures
            r@ == converted_text(signatures_view(signature_ids@), new_format),
    {
        let ghost sigs = signatures_view(signature_ids@);
        let mut out: Vec<char> = Vec::new();
        let mut previous_signature_name = String::new();
        let ghost mut lines: Seq<Seq<char>> = Seq::empty();
        let mut started = false;
        let mut k: usize = 0;
        assert(sigs.subrange(0, 0) =~= Seq::<SignatureView>::empty());
        while k < signature_ids.len()
            invariant
                k <= sigs.len(),
                sigs == signatures_view(signature_ids@),
                (lines, previous_signature_name@) == emit_fold(sigs.subrange(0, k as int), new_format),
                out@ == join_with(lines, seq!['\r', '\n']),
                started == (lines.len() > 0),
            decreases sigs.len() - k,
        {
            let ghost prefix = sigs.subrange(0, k + 1);
            assert(prefix.drop_last() == sigs.subrange(0, k as int));
            assert(prefix.last() == signature_ids@[k as int]@);
            let signature = &signature_ids[k];
            let ghost st = emit_fold(sigs.subrange(0, k as int), new_format);
            assert(emit_fold(prefix, new_format).1 == signature.signature_name@);
            if !(signature.signature_name == previous_signature_name) {
                let name = chars_of(signature.signature_name.as_str());
                let comment = name.len() > 0 && name[0] == '(';
                if started && !comment {
                    let mut line: Vec<char> = Vec::new();
                    line.push('\r');
                    line.push('\n');
                    assert(line@ == seq!['\r', '\n']);
                    Self::push_all(&mut line, name.as_slice());
                    Self::push_line(&mut out, line.as_slice(), started, Ghost(lines));
                    proof {
                        lines = lines.push(line@);
                    }
                    started = true;
                } else {
                    Self::push_line(&mut out, name.as_slice(), started, Ghost(lines));
                    proof {
                        lines = lines.push(name@);
                    }
                    started = true;
                }
            }
            previous_signature_name = signature.signature_name.clone();
            let value = Self::value_chars(&signature.bndm_configs, new_format);
            Self::push_line(&mut out, value.as_slice(), started, Ghost(lines));
            proof {
                lines = lines.push(value@);
            }
            started = true;
            k += 1;
        }
        assert(sigs.subrange(0, sigs.len() as int) == sigs);
        out.push('\r');
        out.push('\n');
        string_of(out.as_slice())
    }

    /// Whether a file is listed: an unidentified one when unidentified files are asked
    /// for, an identified one unless only unidentified files are asked for.
    pub fn is_listed(matches: &Vec<SignatureMatch>, list_unidentified: bool, only_list_unidentified: bool) -> (r: bool)
        ensures
            r == ((matches@.len() == 0 && (only_list_unidentified || list_unidentified)) || (
            matches@.len() > 0 && !only_list_unidentified)),
    {
        if matches.len() == 0 {
            only_list_unidentified || list_unidentified
        } else {
            !only_list_unidentified
        }
    }

    /// The signatures found in a buffer whose payload starts at 0.
    pub fn find_players_in_buffer(
        buffer: &[u8],
        signature_ids: &Vec<SignatureConfig>,
        scan_for_multiple: bool,
    ) -> (r: Vec<SignatureMatch>)
        requires
            all_signatures_wf(signature_ids@),
        ensures
            matches_view(r@) == dedup_names(
                scan_signatures(buffer@, 0, signatures_view(signature_ids@), scan_for_multiple),
            ),
    {
        Signature::find_signatures(buffer, 0, signature_ids, scan_for_multiple)
    }

    /// The signatures found in the contents of a file, searched from where its payload starts.
    pub fn find_players_in_data(
        filename: &str,
        data: &[u8],
        signature_ids: &Vec<SignatureConfig>,
        scan_for_multiple: bool,
    ) -> (r: Vec<SignatureMatch>)
        requires
            all_signatures_wf(signature_ids@),
        ensures
            matches_view(r@) == dedup_names(
                scan_signatures(
                    data@,
                    data_offset_of(filename@, data@),
                    signatures_view(signature_ids@),
                    scan_for_multiple,
                ),
            ),
    {
        let data_offset = Self::get_data_offset(filename, data);
        Signature::find_signatures(data, data_offset, signature_ids, scan_for_multiple)
    }

    /// The first info block of the given player, compared up to ASCII case.
    pub fn find_player_info<'a>(signature_infos: &'a [SignatureInfo], player_name: &str) -> (r:
        Option<&'a SignatureInfo>)
        ensures
            r is None <==> forall|i: int|
                0 <= i < signature_infos@.len() ==> !#[trigger] same_ignoring_case_info(
                    signature_infos@[i],
                    player_name@,
                ),
            r matches Some(info) ==> exists|i: int|
                0 <= i < signature_infos@.len() && *info == signature_infos@[i]
                    && same_ignoring_case_info(signature_infos@[i], player_name@) && forall|j: int|
                    0 <= j < i ==> !#[trigger] same_ignoring_case_info(signature_infos@[j], player_name@),
    {
        Signature::find_signature_info(signature_infos, player_name)
    }

    pub fn get_data_offset(filename: &str, data: &[u8]) -> (r: usize)
        ensures
            r == data_offset_of(filename@, data@),
    {
        if is_sid_file(data) {
            sid_data_offset_of(data)
        } else {
            let name = chars_of(filename);
            let n = name.len();
            let prg = n >= 4 && name[n - 4] == '.' && name[n - 3] == 'p' && name[n - 2] == 'r' && name[n
                - 1] == 'g';
            assert(prg == ends_with(filename@, seq!['.', 'p', 'r', 'g'])) by {
                if n >= 4 {
                    let tail = filename@.subrange(n - 4, n as int);
                    if prg {
                        assert(tail == seq!['.', 'p', 'r', 'g']);
                    }
                    if tail == seq!['.', 'p', 'r', 'g'] {
                        assert(tail[0] == '.' && tail[1] == 'p' && tail[2] == 'r' && tail[3] == 'g');
                    }
                }
            }
            if prg {
                2
            } else {
                0
            }
        }
    }

    /// The signatures of configuration lines, kept by the optional player name; an
    /// error when the lines are no configuration or define no kept signature.
    pub fn load_config_file(config_lines: &Vec<String>, player_name: Option<&String>) -> (r: Result<
        Vec<SignatureConfig>,
        String,
    >)
        ensures
            r is Ok <==> config_header_from(lines_view(config_lines@), 0) && parse_config(
                lines_view(config_lines@),
                filter_view(player_name),
            ).len() > 0,
            r matches Ok(sigs) ==> signatures_view(sigs@) == parse_config(
                lines_view(config_lines@),
                filter_view(player_name),
            ) && all_signatures_wf(sigs@),
            r matches Err(e) ==> e@ == if !config_header_from(lines_view(config_lines@), 0) {
                "Not an config file."@
            } else {
                match player_name {
                    None => "No signature defined."@,
                    Some(n) => "No signature found with name: "@ + n@,
                }
            },
    {
        let signature_ids = match Signature::read_config_lines(config_lines, player_name) {
            Ok(s) => s,
            Err(e) => return Err(e),
        };
        if signature_ids.len() == 0 {
            return match player_name {
                None => Err("No signature defined.".to_owned()),
                Some(name) => {
                    let mut message = chars_of("No signature found with name: ");
                    let ghost start = message@;
                    let name_chars = chars_of(name.as_str());
                    let mut k: usize = 0;
                    while k < name_chars.len()
                        invariant
                            k <= name_chars@.len(),
                            start == "No signature found with name: "@,
                            message@ == start + name_chars@.subrange(0, k as int),
                        decreases name_chars@.len() - k,
                    {
                        message.push(name_chars[k]);
                        k += 1;
                    }
                    assert(name_chars@.subrange(0, name_chars@.len() as int) == name_chars@);
                    Err(string_of(message.as_slice()))
                },
            };
        }
        Ok(signature_ids)
    }

    /// The info blocks of info lines; an error when the lines are no info file or
    /// define no block.
    pub fn load_info_file(info_lines: &Vec<String>) -> (r: Result<Vec<SignatureInfo>, String>)
        ensures
            r is Ok <==> info_header_from(lines_view(info_lines@), 0) && parse_info(
                lines_view(info_lines@),
            ).len() > 0,
            r matches Ok(infos) ==> infos_view(infos@) == parse_info(lines_view(info_lines@)),
            r matches Err(e) ==> e@ == if !info_header_from(lines_view(info_lines@), 0) {
                "Not an info file."@
            } else {
                "No info sections defined."@
            },
    {
        let signature_infos = match Signature::read_info_lines(info_lines) {
            Ok(s) => s,
            Err(e) => return Err(e),
        };
        if signature_infos.len() == 0 {
            return Err("No info sections defined.".to_owned());
        }
        Ok(signature_infos)
    }

    /// The configuration file to look for: the given name, or `sidid.cfg` when none is
    /// given; an error for an empty name.
    pub fn get_config_path(config_file: Option<&String>) -> (r: Result<String, String>)
        ensures
            match config_file {
                Some(f) => (r is Err <==> f@.len() == 0) && (r matches Ok(p) ==> p@ == f@),
                None => r matches Ok(p) && p@ == "sidid.cfg"@,
            },
    {
        match config_file {
            Some(f) => {
                if f.as_str().is_empty() {
                    Err("No filename provided for config file.".to_owned())
                } else {
                    Ok(f.clone())
                }
            },
            None => Ok("sidid.cfg".to_owned()),
        }
    }

    /// The info file that belongs to a configuration file: each `.cfg` replaced by `.nfo`.
    pub fn get_info_file_path(config_path: &str) -> (r: String)
        ensures
            r@ == replace_all(config_path@, seq!['.', 'c', 'f', 'g'], seq!['.', 'n', 'f', 'o']),
    {
        let s = chars_of(config_path);
        let ghost from = seq!['.', 'c', 'f', 'g'];
        let ghost to = seq!['.', 'n', 'f', 'o'];
        let ghost whole = replace_all(s@, from, to);
        let mut out: Vec<char> = Vec::new();
        let mut i: usize = 0;
        assert(s@.subrange(0, s@.len() as int) == s@);
        while i < s.len()
            invariant
                i <= s@.len(),
                from == seq!['.', 'c', 'f', 'g'],
                to == seq!['.', 'n', 'f', 'o'],
                whole == replace_all(s@, from, to),
                whole == out@ + replace_all(s@.subrange(i as int, s@.len() as int), from, to),
            decreases s@.len() - i,
        {
            let ghost rest = s@.subrange(i as int, s@.len() as int);
            if s.len() - i >= 4 && s[i] == '.' && s[i + 1] == 'c' && s[i + 2] == 'f' && s[i + 3] == 'g' {
                assert(rest.subrange(0, 4) == from);
                assert(rest.subrange(4, rest.len() as int) == s@.subrange(i + 4, s@.len() as int));
                let ghost before = out@;
                out.push('.');
                out.push('n');
                out.push('f');
                out.push('o');
                assert(out@ == before + to);
                assert(before + (to + replace_all(s@.subrange(i + 4, s@.len() as int), from, to)) == out@ + replace_all(s@.subrange(i + 4, s@.len() as int), from, to));
                i += 4;
            } else {
                assert(rest.len() >= 4 ==> rest.subrange(0, 4) != from) by {
                    if rest.len() >= 4 && rest.subrange(0, 4) == from {
                        assert(rest.subrange(0, 4)[0] == s@[i as int]);
                        assert(rest.subrange(0, 4)[1] == s@[i + 1]);
                        assert(rest.subrange(0, 4)[2] == s@[i + 2]);
                        assert(rest.subrange(0, 4)[3] == s@[i + 3]);
                    }
                }
                assert(rest.drop_first() == s@.subrange(i + 1, s@.len() as int));
                let ghost before = out@;
                out.push(s[i]);
                assert(out@ == before + seq![s@[i as int]]);
                assert(before + (seq![rest[0]] + replace_all(rest.drop_first(), from, to)) == out@ + replace_all(rest.drop_first(), from, to));
                i += 1;
            }
        }
        assert(s@.subrange(s@.len() as int, s@.len() as int) =~= Seq::<char>::empty());
        assert(out@ + Seq::<char>::empty() == out@);
        string_of(out.as_slice())
    }
}

} // verus!
