//! Command-line settings: the scan options, the file pattern split into a base
//! directory and a file name, and the checks on option values.
use vstd::prelude::*;

use crate::signature::lines_view;
use crate::text::{chars_of, string_of, trim, trimmed};

verus! {

pub struct Config {
    pub cpu_threads: usize,
    pub display_hex_offset: bool,
    pub list_unidentified: bool,
    pub only_list_unidentified: bool,
    pub recursive: bool,
    pub scan_for_multiple: bool,
    pub scan_hvsc: bool,
    pub show_player_info: bool,
    pub truncate_filenames: bool,
    pub verify_signatures: bool,
    pub player_name: Option<String>,
    pub config_file: Option<String>,
    pub base_path: String,
    pub filename: String,
    pub convert_file_format: Option<String>,
}

pub open spec fn is_path_separator(c: char) -> bool {
    c == '/' || c == '\\'
}

/// The index of the last path separator among the first `n` characters.
pub open spec fn last_separator_before(s: Seq<char>, n: int) -> Option<int>
    decreases n,
{
    if n <= 0 {
        None
    } else if is_path_separator(s[n - 1]) {
        Some(n - 1)
    } else {
        last_separator_before(s, n - 1)
    }
}

/// A file pattern split at its last separator into base directory and file name: `.`
/// when there is no separator, the separator itself for a pattern at the root, and
/// without a leading `./`.
pub open spec fn split_path(s: Seq<char>) -> (Seq<char>, Seq<char>) {
    match last_separator_before(s, s.len() as int) {
        None => (seq!['.'], s),
        Some(index) => if index == 0 {
            (s.subrange(0, 1), s.subrange(1, s.len() as int))
        } else if index > 1 && s[0] == '.' && is_path_separator(s[1]) {
            (s.subrange(2, index), s.subrange(index + 1, s.len() as int))
        } else {
            (s.subrange(0, index), s.subrange(index + 1, s.len() as int))
        },
    }
}

pub open spec fn digit_value(c: char) -> int {
    (c as u32) as int - 0x30
}

pub open spec fn is_digit(c: char) -> bool {
    0x30 <= c as u32 <= 0x39
}

/// The number that a run of decimal digits writes.
pub open spec fn decimal_value(s: Seq<char>) -> int
    decreases s.len(),
{
    if s.len() == 0 {
        0
    } else {
        decimal_value(s.drop_last()) * 10 + digit_value(s.last())
    }
}

pub open spec fn all_digits(s: Seq<char>) -> bool {
    forall|k: int| 0 <= k < s.len() ==> is_digit(#[trigger] s[k])
}

/// The digits of a number as `str::parse::<u32>` reads it: an optional leading `+`,
/// then at least one decimal digit.
pub open spec fn number_digits(s: Seq<char>) -> Seq<char> {
    if s.len() > 0 && s[0] == '+' {
        s.drop_first()
    } else {
        s
    }
}

/// The text parses as a `u32`.
pub open spec fn parses_as_u32(s: Seq<char>) -> bool {
    let d = number_digits(s);
    d.len() > 0 && all_digits(d) && decimal_value(d) <= u32::MAX
}

/// An option argument: a `-` followed by at least one character.
pub open spec fn is_option(a: Seq<char>) -> bool {
    a.len() > 1 && a[0] == '-'
}

/// The letters of the known options.
pub open spec fn known_option(c: char) -> bool {
    c == 'c' || c == 'f' || c == 'h' || c == 'm' || c == 'n' || c == 'o' || c == 'p' || c == 't'
        || c == 's' || c == 'u' || c == 'v' || c == 'w' || c == 'x'
}

/// The value written after an option's letter.
pub open spec fn option_value(a: Seq<char>) -> Seq<char> {
    a.subrange(2, a.len() as int)
}

/// An unknown option, or a thread count that is not a positive number.
pub open spec fn bad_option(a: Seq<char>) -> bool {
    is_option(a) && (!known_option(a[1]) || (a[1] == 'c' && !(parses_as_u32(option_value(a))
        && decimal_value(number_digits(option_value(a))) > 0)))
}

pub open spec fn any_bad_option(args: Seq<Seq<char>>) -> bool
    decreases args.len(),
{
    args.len() > 0 && (bad_option(args.last()) || any_bad_option(args.drop_last()))
}

/// Some argument is the option with the given letter.
pub open spec fn has_option(args: Seq<Seq<char>>, f: char) -> bool
    decreases args.len(),
{
    args.len() > 0 && ((is_option(args.last()) && args.last()[1] == f) || has_option(args.drop_last(), f))
}

/// The value of the last option with the given letter.
pub open spec fn last_value(args: Seq<Seq<char>>, f: char) -> Option<Seq<char>>
    decreases args.len(),
{
    if args.len() == 0 {
        None
    } else if is_option(args.last()) && args.last()[1] == f {
        Some(option_value(args.last()))
    } else {
        last_value(args.drop_last(), f)
    }
}

/// The thread count: the last `-c` value, at most the available threads.
pub open spec fn thread_count(args: Seq<Seq<char>>, max_threads: int) -> int {
    match last_value(args, 'c') {
        Some(v) => {
            let n = decimal_value(number_digits(v));
            if n > max_threads {
                max_threads
            } else {
                n
            }
        },
        None => max_threads,
    }
}

/// Base directory and file name from the last argument, unless it is an option.
pub open spec fn pattern_paths(args: Seq<Seq<char>>) -> (Seq<char>, Seq<char>) {
    if args.len() == 0 || (args.last().len() > 0 && args.last()[0] == '-') {
        (Seq::empty(), Seq::empty())
    } else {
        split_path(trimmed(args.last()))
    }
}

pub open spec fn option_view(o: Option<String>) -> Option<Seq<char>> {
    match o {
        Some(s) => Some(s@),
        None => None,
    }
}

pub open spec fn name_missing(name: Option<Seq<char>>) -> bool {
    name is None || name->0.len() == 0
}

/// The settings that the arguments ask for cannot be used.
pub open spec fn arguments_rejected(args: Seq<Seq<char>>, hvsc_location: Option<Seq<char>>) -> bool {
    let name = last_value(args, 'p');
    let format = last_value(args, 'w');
    ||| any_bad_option(args)
    ||| (has_option(args, 'h') && hvsc_location is None)
    ||| (has_option(args, 'n') && name_missing(name))
    ||| (!has_option(args, 'n') && name is Some && name->0.len() == 0)
    ||| (format matches Some(f) && f != seq!['o'] && f != seq!['n'])
}

fn sub_chars(s: &[char], from: usize, to: usize) -> (r: Vec<char>)
    requires
        from <= to <= s@.len(),
    ensures
        r@ == s@.subrange(from as int, to as int),
{
    let mut r: Vec<char> = Vec::new();
    let mut k: usize = from;
    while k < to
        invariant
            from <= k <= to <= s@.len(),
            r@ == s@.subrange(from as int, k as int),
        decreases to - k,
    {
        r.push(s[k]);
        k += 1;
    }
    r
}

/// The text of `a` followed by the text of `b`.
fn concat(a: &str, b: &str) -> (r: String)
    ensures
        r@ == a@ + b@,
{
    let mut v = chars_of(a);
    let w = chars_of(b);
    let mut k: usize = 0;
    while k < w.len()
        invariant
            k <= w@.len(),
            v@ == a@ + w@.subrange(0, k as int),
        decreases w@.len() - k,
    {
        v.push(w[k]);
        k += 1;
    }
    assert(w@.subrange(0, w@.len() as int) == w@);
    string_of(v.as_slice())
}

impl Config {
    pub fn validate_player_info_option(show_player_info: bool, player_name: Option<&String>) -> (r:
        Result<(), String>)
        ensures
            r is Err <==> show_player_info && (player_name is None || player_name->0@.len() == 0),
    {
        let missing = match player_name {
            None => true,
            Some(name) => name.as_str().is_empty(),
        };
        if show_player_info && missing {
            return Err(
                "Player info can only be used when -p option is provided with a player name.".to_owned(),
            );
        }
        Ok(())
    }

    pub fn validate_player_name(player_name: Option<&String>) -> (r: Result<(), String>)
        ensures
            r is Err <==> (player_name is Some && player_name->0@.len() == 0),
    {
        if let Some(name) = player_name {
            if name.as_str().is_empty() {
                return Err("Player name cannot be empty.".to_owned());
            }
        }
        Ok(())
    }

    /// The output format of a conversion is `o` (old) or `n` (new).
    pub fn validate_file_format_option(file_format: &Option<String>) -> (r: Result<(), String>)
        ensures
            r is Err <==> (file_format matches Some(f) && f@ != seq!['o'] && f@ != seq!['n']),
    {
        if let Some(f) = file_format {
            let c = chars_of(f.as_str());
            let known = c.len() == 1 && (c[0] == 'o' || c[0] == 'n');
            assert(known <==> (f@ == seq!['o'] || f@ == seq!['n'])) by {
                if c@.len() == 1 {
                    if c@[0] == 'o' {
                        assert(c@ == seq!['o']);
                    }
                    if c@[0] == 'n' {
                        assert(c@ == seq!['n']);
                    }
                }
                if f@ == seq!['o'] {
                    assert(c@[0] == 'o');
                }
                if f@ == seq!['n'] {
                    assert(c@[0] == 'n');
                }
            }
            if !known {
                return Err(
                    "Output format should be specified with -wo for old format or -wn for new format".to_owned(),
                );
            }
        }
        Ok(())
    }

    /// A positive number given with an option; an error naming the option otherwise.
    pub fn parse_argument_number(arg_name: &str, arg_value: &str) -> (r: Result<u32, String>)
        ensures
            r is Ok <==> parses_as_u32(arg_value@) && decimal_value(number_digits(arg_value@)) > 0,
            r matches Ok(n) ==> n == decimal_value(number_digits(arg_value@)),
            r matches Err(m) ==> m@.subrange(0, arg_name@.len() as int) == arg_name@,
    {
        let s = chars_of(arg_value);
        let start: usize = if s.len() > 0 && s[0] == '+' { 1 } else { 0 };
        let ghost d = number_digits(s@);
        assert(d == s@.subrange(start as int, s@.len() as int));
        let mut value: u64 = 0;
        let mut valid = s.len() > start;
        let mut k: usize = start;
        assert(d.subrange(0, 0) =~= Seq::<char>::empty());
        while k < s.len() && valid
            invariant
                start <= k <= s@.len(),
                d == s@.subrange(start as int, s@.len() as int),
                d == number_digits(s@),
                valid ==> all_digits(d.subrange(0, k - start)),
                valid ==> value == decimal_value(d.subrange(0, k - start)),
                valid ==> value <= u32::MAX,
                !valid ==> !parses_as_u32(s@),
                s@.len() == start ==> !valid,
            decreases s@.len() - k,
        {
            let c = s[k];
            let ghost prefix = d.subrange(0, k + 1 - start);
            assert(prefix.drop_last() == d.subrange(0, k - start));
            assert(prefix.last() == c);
            if 0x30 <= c as u32 && c as u32 <= 0x39 {
                let next = value * 10 + (c as u32 - 0x30) as u64;
                assert(next == decimal_value(prefix));
                if next > u32::MAX as u64 {
                    proof {
                        lemma_decimal_prefix_bound(d, k + 1 - start);
                    }
                    valid = false;
                } else {
                    value = next;
                    assert(all_digits(prefix)) by {
                        assert forall|q: int| 0 <= q < prefix.len() implies is_digit(#[trigger] prefix[q]) by {
                            if q < prefix.len() - 1 {
                                assert(prefix[q] == d.subrange(0, k - start)[q]);
                            }
                        }
                    }
                }
            } else {
                assert(!is_digit(d[k - start]));
                assert(!all_digits(d));
                valid = false;
            }
            k += 1;
        }
        if valid {
            assert(d.subrange(0, d.len() as int) == d);
        }
        if !valid {
            return Err(concat(arg_name, " must be a valid number."));
        }
        let number = value as u32;
        if number > 0 {
            Ok(number)
        } else {
            Err(concat(arg_name, " must be higher than 0."))
        }
    }

    /// The settings that command-line arguments ask for. `max_threads` bounds the
    /// thread count; `sidid_config` is the configuration file to use when none is
    /// given; `hvsc_location` is the collection's root, needed by `-h`.
    pub fn from_arguments(
        arguments: &Vec<String>,
        max_threads: usize,
        sidid_config: Option<String>,
        hvsc_location: Option<String>,
    ) -> (r: Result<Config, String>)
        ensures
            r is Err <==> arguments_rejected(lines_view(arguments@), option_view(hvsc_location)),
            r matches Ok(c) ==> {
                let args = lines_view(arguments@);
                let hvsc = has_option(args, 'h');
                let paths = pattern_paths(args);
                &&& c.cpu_threads == thread_count(args, max_threads as int)
                &&& c.display_hex_offset == has_option(args, 'x')
                &&& c.list_unidentified == has_option(args, 'u')
                &&& c.only_list_unidentified == has_option(args, 'o')
                &&& c.recursive == (has_option(args, 's') || hvsc)
                &&& c.scan_for_multiple == has_option(args, 'm')
                &&& c.scan_hvsc == hvsc
                &&& c.show_player_info == has_option(args, 'n')
                &&& c.truncate_filenames == has_option(args, 't')
                &&& c.verify_signatures == has_option(args, 'v')
                &&& option_view(c.player_name) == last_value(args, 'p')
                &&& option_view(c.convert_file_format) == last_value(args, 'w')
                &&& option_view(c.config_file) == match last_value(args, 'f') {
                    Some(f) => Some(f),
                    None => option_view(sidid_config),
                }
                &&& c.base_path@ == if hvsc {
                    option_view(hvsc_location)->0
                } else {
                    paths.0
                }
                &&& c.filename@ == if hvsc && paths.1.len() == 0 {
                    seq!['*', '.', 's', 'i', 'd']
                } else {
                    paths.1
                }
            },
    {
        let ghost args = lines_view(arguments@);
        let mut cpu_threads: usize = max_threads;
        let mut display_hex_offset = false;
        let mut list_unidentified = false;
        let mut only_list_unidentified = false;
        let mut recursive = false;
        let mut scan_for_multiple = false;
        let mut scan_hvsc = false;
        let mut show_player_info = false;
        let mut truncate_filenames = false;
        let mut verify_signatures = false;
        let mut config_file: Option<String> = None;
        let mut player_name: Option<String> = None;
        let mut convert_file_format: Option<String> = None;
        let mut k: usize = 0;
        assert(args.subrange(0, 0) =~= Seq::<Seq<char>>::empty());
        while k < arguments.len()
            invariant
                k <= arguments@.len(),
                args == lines_view(arguments@),
                !any_bad_option(args.subrange(0, k as int)),
                cpu_threads == match last_value(args.subrange(0, k as int), 'c') {
                    Some(v) => decimal_value(number_digits(v)),
                    None => max_threads as int,
                },
                display_hex_offset == has_option(args.subrange(0, k as int), 'x'),
                list_unidentified == has_option(args.subrange(0, k as int), 'u'),
                only_list_unidentified == has_option(args.subrange(0, k as int), 'o'),
                recursive == has_option(args.subrange(0, k as int), 's'),
                scan_for_multiple == has_option(args.subrange(0, k as int), 'm'),
                scan_hvsc == has_option(args.subrange(0, k as int), 'h'),
                show_player_info == has_option(args.subrange(0, k as int), 'n'),
                truncate_filenames == has_option(args.subrange(0, k as int), 't'),
                verify_signatures == has_option(args.subrange(0, k as int), 'v'),
                option_view(config_file) == last_value(args.subrange(0, k as int), 'f'),
                option_view(player_name) == last_value(args.subrange(0, k as int), 'p'),
                option_view(convert_file_format) == last_value(args.subrange(0, k as int), 'w'),
            decreases arguments@.len() - k,
        {
            let ghost prefix = args.subrange(0, k + 1);
            assert(prefix.drop_last() == args.subrange(0, k as int));
            assert(prefix.last() == arguments@[k as int]@);
            let a = chars_of(arguments[k].as_str());
            if a.len() > 1 && a[0] == '-' {
                let flag = a[1];
                let value = string_of(sub_chars(a.as_slice(), 2, a.len()).as_slice());
                if flag == 'c' {
                    match Self::parse_argument_number("Max threads", value.as_str()) {
                        Ok(n) => cpu_threads = n as usize,
                        Err(e) => {
                            assert(any_bad_option(args)) by {
                                lemma_bad_prefix(args, k as int + 1);
                            }
                            return Err(e);
                        },
                    }
                } else if flag == 'f' {
                    config_file = Some(value);
                } else if flag == 'h' {
                    scan_hvsc = true;
                } else if flag == 'm' {
                    scan_for_multiple = true;
                } else if flag == 'n' {
                    show_player_info = true;
                } else if flag == 'o' {
                    only_list_unidentified = true;
                } else if flag == 'p' {
                    player_name = Some(value);
                } else if flag == 't' {
                    truncate_filenames = true;
                } else if flag == 's' {
                    recursive = true;
                } else if flag == 'u' {
                    list_unidentified = true;
                } else if flag == 'v' {
                    verify_signatures = true;
                } else if flag == 'w' {
                    convert_file_format = Some(value);
                } else if flag == 'x' {
                    display_hex_offset = true;
                } else {
                    assert(any_bad_option(args)) by {
                        lemma_bad_prefix(args, k as int + 1);
                    }
                    return Err(concat("Unknown option: ", arguments[k].as_str()));
                }
            }
            k += 1;
        }
        assert(args.subrange(0, args.len() as int) == args);
        if cpu_threads > max_threads {
            cpu_threads = max_threads;
        }
        let (mut base_path, mut filename) = if arguments.len() > 0 {
            let last = chars_of(arguments[arguments.len() - 1].as_str());
            assert(args.last() == last@);
            if last.len() > 0 && last[0] == '-' {
                (String::new(), String::new())
            } else {
                let trimmed_last = trim(last.as_slice());
                Self::split_file_path(string_of(trimmed_last.as_slice()).as_str())
            }
        } else {
            (String::new(), String::new())
        };
        if scan_hvsc {
            match hvsc_location {
                Some(h) => {
                    recursive = true;
                    base_path = h;
                    if filename.as_str().is_empty() {
                        let sid = chars_of("*.sid");
                        proof {
                            reveal_strlit("*.sid");
                        }
                        assert(sid@ == seq!['*', '.', 's', 'i', 'd']);
                        filename = string_of(sid.as_slice());
                    }
                },
                None => return Err("HVSC environment variable not found.".to_owned()),
            }
        }
        if config_file.is_none() {
            config_file = sidid_config;
        }
        if show_player_info {
            match Self::validate_player_info_option(show_player_info, player_name.as_ref()) {
                Ok(()) => {},
                Err(e) => return Err(e),
            }
        } else {
            match Self::validate_player_name(player_name.as_ref()) {
                Ok(()) => {},
                Err(e) => return Err(e),
            }
        }
        match Self::validate_file_format_option(&convert_file_format) {
            Ok(()) => {},
            Err(e) => return Err(e),
        }
        Ok(Config {
            cpu_threads,
            display_hex_offset,
            list_unidentified,
            only_list_unidentified,
            recursive,
            scan_for_multiple,
            scan_hvsc,
            show_player_info,
            truncate_filenames,
            verify_signatures,
            player_name,
            config_file,
            base_path,
            filename,
            convert_file_format,
        })
    }

    /// The file pattern split into base directory and file name.
    pub fn split_file_path(filename: &str) -> (r: (String, String))
        ensures
            (r.0@, r.1@) == split_path(filename@),
    {
        let s = chars_of(filename);
        let n = s.len();
        let mut i: usize = n;
        while i > 0 && !(s[i - 1] == '/' || s[i - 1] == '\\')
            invariant
                i <= n == s@.len(),
                last_separator_before(s@, n as int) == last_separator_before(s@, i as int),
            decreases i,
        {
            i -= 1;
        }
        if i == 0 {
            let mut dot: Vec<char> = Vec::new();
            dot.push('.');
            assert(dot@ == seq!['.']);
            return (string_of(dot.as_slice()), string_of(s.as_slice()));
        }
        let index = i - 1;
        if index == 0 {
            (string_of(sub_chars(s.as_slice(), 0, 1).as_slice()), string_of(sub_chars(s.as_slice(), 1, n).as_slice()))
        } else if index > 1 && s[0] == '.' && (s[1] == '/' || s[1] == '\\') {
            (
                string_of(sub_chars(s.as_slice(), 2, index).as_slice()),
                string_of(sub_chars(s.as_slice(), index + 1, n).as_slice()),
            )
        } else {
            (
                string_of(sub_chars(s.as_slice(), 0, index).as_slice()),
                string_of(sub_chars(s.as_slice(), index + 1, n).as_slice()),
            )
        }
    }
}

/// A bad option in a prefix is a bad option of the whole argument list.
proof fn lemma_bad_prefix(args: Seq<Seq<char>>, n: int)
    requires
        0 < n <= args.len(),
        any_bad_option(args.subrange(0, n)),
    ensures
        any_bad_option(args),
    decreases args.len() - n,
{
    if n < args.len() {
        assert(args.subrange(0, n + 1).drop_last() == args.subrange(0, n));
        lemma_bad_prefix(args, n + 1);
    } else {
        assert(args.subrange(0, n) == args);
    }
}

proof fn lemma_decimal_prefix_bound(d: Seq<char>, n: int)
    requires
        0 < n <= d.len(),
        all_digits(d.subrange(0, n - 1)),
        decimal_value(d.subrange(0, n)) > u32::MAX,
        is_digit(d[n - 1]),
    ensures
        !(d.len() > 0 && all_digits(d) && decimal_value(d) <= u32::MAX),
    decreases d.len() - n,
{
    if n < d.len() && all_digits(d) {
        let p = d.subrange(0, n + 1);
        assert(p.drop_last() == d.subrange(0, n));
        assert(decimal_value(p) >= decimal_value(d.subrange(0, n)) * 10);
        assert(all_digits(d.subrange(0, n))) by {
            assert forall|q: int| 0 <= q < n implies is_digit(#[trigger] d.subrange(0, n)[q]) by {
                assert(d.subrange(0, n)[q] == d[q]);
            }
        }
        assert(is_digit(d[n]));
        lemma_decimal_prefix_bound(d, n + 1);
    } else if n == d.len() {
        assert(d.subrange(0, n) == d);
    }
}

} // verus!
