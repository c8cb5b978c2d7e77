use player_id::bndm::{find_pattern, BndmConfig};
use player_id::config::Config;
use player_id::player::PlayerId;
use player_id::sid_file::{get_data_offset, is_sid_file};
use player_id::signature::{Signature, SignatureConfig};

fn lines(text: &str) -> Vec<String> {
    text.lines().map(|l| l.to_string()).collect()
}

fn sid_header(magic: &[u8; 4], header_size: u16, load: [u8; 2], len: usize) -> Vec<u8> {
    let mut data = vec![0u8; len];
    data[..4].copy_from_slice(magic);
    data[6] = (header_size >> 8) as u8;
    data[7] = (header_size & 0xFF) as u8;
    data[8] = load[0];
    data[9] = load[1];
    data
}

#[test]
fn stress_all_a_source_not_found() {
    let source = vec![b'a'; 128];
    let mut pattern = vec![b'a'; 67];
    pattern.push(b'b');
    let config = BndmConfig::new(&pattern, None);
    assert_eq!(find_pattern(&source, &config), None);
}

#[test]
fn stress_b_after_67_a_found_at_start() {
    let mut source = vec![b'a'; 67];
    source.push(b'b');
    source.extend(vec![b'a'; 60]);
    let mut pattern = vec![b'a'; 67];
    pattern.push(b'b');
    let config = BndmConfig::new(&pattern, None);
    assert_eq!(find_pattern(&source, &config), Some(0));
}

#[test]
fn stress_b_positions_in_all_a_source() {
    for tail in 63..=68usize {
        let mut source = vec![b'a'; 136];
        source[tail + 67] = b'b';
        let mut pattern = vec![b'a'; 67];
        pattern.push(b'b');
        let config = BndmConfig::new(&pattern, None);
        assert_eq!(find_pattern(&source, &config), Some(tail));
    }
}

#[test]
fn single_wildcard_byte_needs_a_source_byte() {
    let config = BndmConfig::new(b"?", Some(b'?'));
    assert_eq!(find_pattern(b"", &config), None);
    assert_eq!(find_pattern(b"xyz", &config), Some(0));
}

#[test]
fn search_after_prefix_shifts_index() {
    let config = BndmConfig::new(b"fox", None);
    assert_eq!(find_pattern(b"the fox", &config), Some(4));
    assert_eq!(find_pattern(b"1234the fox", &config), Some(8));
}

#[test]
fn wildcard_match_accepts_any_byte() {
    let config = BndmConfig::new(b"a?c", Some(b'?'));
    assert_eq!(find_pattern(b"xxazcx", &config), Some(2));
    assert_eq!(find_pattern(b"xxa?d", &config), None);
}

#[test]
fn sid_payload_offset_skips_load_address() {
    let data = sid_header(b"PSID", 0x7C, [0, 0], 0x100);
    assert!(is_sid_file(&data));
    assert_eq!(get_data_offset(&data), 0x7E);
    assert_eq!(PlayerId::get_data_offset("tune.sid", &data), 0x7E);
}

#[test]
fn sid_payload_offset_without_load_address() {
    let data = sid_header(b"RSID", 0x7C, [0x10, 0x00], 0x100);
    assert_eq!(get_data_offset(&data), 0x7C);
}

#[test]
fn sid_header_size_out_of_range_gives_zero() {
    let data = sid_header(b"PSID", 0x40, [0, 0], 0x100);
    assert_eq!(get_data_offset(&data), 0);
    let short = sid_header(b"PSID", 0x7C, [0, 0], 0x70);
    assert!(!is_sid_file(&short));
}

#[test]
fn prg_payload_starts_after_load_address() {
    assert_eq!(PlayerId::get_data_offset("music.prg", &[1, 8, 0, 0]), 2);
    assert_eq!(PlayerId::get_data_offset("music.bin", &[1, 8, 0, 0]), 0);
}

#[test]
fn config_text_parses_two_sub_patterns() {
    let sigs = Signature::read_config_lines(&lines("PlayerX\n20 30 AND 40 50 END\n"), None).unwrap();
    assert_eq!(sigs.len(), 1);
    assert_eq!(sigs[0].signature_name, "PlayerX");
    assert_eq!(sigs[0].bndm_configs.len(), 2);
    assert_eq!(sigs[0].bndm_configs[0].pattern, vec![0x20, 0x30]);
    assert_eq!(sigs[0].bndm_configs[1].pattern, vec![0x40, 0x50]);
}

#[test]
fn signature_after_end_terminated_one_is_intact() {
    let text = "First\n10 20\n30 40 END\nSecond\n50 60 && 70 80\n";
    let sigs = Signature::read_config_lines(&lines(text), None).unwrap();
    assert_eq!(sigs.len(), 2);
    assert_eq!(sigs[0].signature_name, "First");
    assert_eq!(sigs[0].bndm_configs.len(), 1);
    assert_eq!(sigs[0].bndm_configs[0].pattern, vec![0x10, 0x20, 0x30, 0x40]);
    assert_eq!(sigs[1].signature_name, "Second");
    assert_eq!(sigs[1].bndm_configs.len(), 2);
    assert_eq!(sigs[1].bndm_configs[0].pattern, vec![0x50, 0x60]);
    assert_eq!(sigs[1].bndm_configs[1].pattern, vec![0x70, 0x80]);
}

#[test]
fn multi_line_value_without_end_gives_one_signature_per_line() {
    let sigs = Signature::read_config_lines(&lines("Multi\n01 02\n03 04\n"), None).unwrap();
    assert_eq!(sigs.len(), 2);
    assert_eq!(sigs[0].bndm_configs[0].pattern, vec![1, 2]);
    assert_eq!(sigs[1].bndm_configs[0].pattern, vec![3, 4]);
    assert_eq!(sigs[1].signature_name, "Multi");
}

#[test]
fn wildcard_is_smallest_unused_byte() {
    let sigs = Signature::read_config_lines(&lines("Wild\n00 01 ?? 03\n"), None).unwrap();
    let sub = &sigs[0].bndm_configs[0];
    assert_eq!(sub.wildcard, Some(2));
    assert_eq!(sub.pattern, vec![0, 1, 2, 3]);
}

#[test]
fn calculate_wildcard_reports_use_and_choice() {
    assert_eq!(Signature::calculate_wildcard(&[0, 1, 0x100, 3]), (true, Some(2)));
    assert_eq!(Signature::calculate_wildcard(&[5, 6]), (false, Some(0)));
    let all: Vec<u16> = (0..256u16).collect();
    assert_eq!(Signature::calculate_wildcard(&all), (false, None));
}

#[test]
fn saturated_sub_pattern_with_wildcard_is_dropped() {
    let mut value: Vec<String> = (0..256).map(|b| format!("{:02X}", b)).collect();
    value.push("??".to_string());
    let text = format!("Full\n{} AND 11 22\n", value.join(" "));
    let sigs = Signature::read_config_lines(&lines(&text), None).unwrap();
    assert_eq!(sigs[0].bndm_configs.len(), 1);
    assert_eq!(sigs[0].bndm_configs[0].pattern, vec![0x11, 0x22]);
}

#[test]
fn saturated_sub_pattern_without_wildcard_is_kept() {
    let value: Vec<String> = (0..256).map(|b| format!("{:02X}", b)).collect();
    let text = format!("Full\n{}\n", value.join(" "));
    let sigs = Signature::read_config_lines(&lines(&text), None).unwrap();
    assert_eq!(sigs[0].bndm_configs.len(), 1);
    assert_eq!(sigs[0].bndm_configs[0].wildcard, None);
    assert_eq!(sigs[0].bndm_configs[0].pattern.len(), 256);
}

#[test]
fn short_tokens_are_ignored_and_bad_hex_is_zero() {
    let sigs = Signature::read_config_lines(&lines("Odd\nab 1 zz 7f\n"), None).unwrap();
    assert_eq!(sigs[0].bndm_configs[0].pattern, vec![0xAB, 0x00, 0x7F]);
}

#[test]
fn hex_pair_conversion() {
    assert_eq!(Signature::convert_hex_to_bin(&['A', 'f']), 0xAF);
    assert_eq!(Signature::convert_hex_to_bin(&['+', '9']), 9);
    assert_eq!(Signature::convert_hex_to_bin(&['G', '1']), 0);
}

#[test]
fn name_filter_keeps_matching_signatures() {
    let text = "One\n01 02\nTwo\n03 04\n";
    let filter = "two".to_string();
    let sigs = Signature::read_config_lines(&lines(text), Some(&filter)).unwrap();
    assert_eq!(sigs.len(), 1);
    assert_eq!(sigs[0].signature_name, "Two");
}

#[test]
fn not_a_config_file_is_an_error() {
    assert!(Signature::read_config_lines(&lines("01 02\nName\n"), None).is_err());
    assert!(!Signature::is_config_file(&lines("")));
    assert!(Signature::is_config_file(&lines("\n  \nName\n01 02\n")));
}

#[test]
fn load_config_reports_missing_signatures() {
    let filter = "Nope".to_string();
    let r = PlayerId::load_config_file(&lines("One\n01 02\n"), Some(&filter));
    assert_eq!(r.err(), Some("No signature found with name: Nope".to_string()));
    assert!(PlayerId::load_config_file(&lines("One\n01 02\n"), None).is_ok());
}

#[test]
fn line_predicates() {
    assert!(Signature::is_signature_name("Name"));
    assert!(!Signature::is_signature_name("END"));
    assert!(!Signature::is_signature_name("and"));
    assert!(Signature::is_signature_name("ENDX"));
    assert!(!Signature::is_signature_name("01 02"));
    assert!(Signature::is_info_tag("     NAME: Foo"));
    assert!(Signature::is_info_tag("           continued"));
    assert!(!Signature::is_info_tag("NAME: Foo"));
    assert!(Signature::has_end_marker("01 02 end"));
    assert!(!Signature::has_end_marker("01 02"));
    assert!(Signature::is_signature_min_length("ab"));
    assert!(!Signature::is_signature_min_length("a"));
}

#[test]
fn info_blocks_and_lookup() {
    let text = "Player\n     NAME: Some Player\n   AUTHOR: Someone\n\nOther\n     NAME: Other Player\n";
    let infos = PlayerId::load_info_file(&lines(text)).unwrap();
    let found = PlayerId::find_player_info(&infos, "player").unwrap();
    assert_eq!(found.0, "Player");
    assert_eq!(found.1, vec!["     NAME: Some Player".to_string(), "   AUTHOR: Someone".to_string()]);
    let other = Signature::find_signature_info(&infos, "OTHER").unwrap();
    assert_eq!(other.1.len(), 1);
    assert!(PlayerId::find_player_info(&infos, "missing").is_none());
    assert!(Signature::read_info_lines(&lines("01 02\n")).is_err());
}

#[test]
fn scan_reports_payload_relative_offsets() {
    let sigs = Signature::read_config_lines(&lines("Tune\nAA BB && CC DD\n"), None).unwrap();
    let mut data = sid_header(b"PSID", 0x7C, [0, 0], 0x100);
    data[0x7E + 5] = 0xAA;
    data[0x7E + 6] = 0xBB;
    data[0x7E + 8] = 0xCC;
    data[0x7E + 9] = 0xDD;
    let found = PlayerId::find_players_in_data("tune.sid", &data, &sigs, false);
    assert_eq!(found.len(), 1);
    assert_eq!(found[0].signature_name, "Tune");
    assert_eq!(found[0].indexes, vec![0x7E + 5, 0x7E + 8]);
}

#[test]
fn sub_patterns_do_not_overlap() {
    let sigs = Signature::read_config_lines(&lines("Twice\n01 02 && 02 03\n"), None).unwrap();
    assert!(PlayerId::find_players_in_buffer(&[0, 1, 2, 3], &sigs, false).is_empty());
    let found = PlayerId::find_players_in_buffer(&[1, 2, 2, 3], &sigs, false);
    assert_eq!(found[0].indexes, vec![0, 2]);
}

#[test]
fn single_and_multiple_scans() {
    let text = "First\n01 02\n\nSecond\n03 04\n\nThird\n09 09\n";
    let sigs = Signature::read_config_lines(&lines(text), None).unwrap();
    let buffer = [3, 4, 0, 1, 2];
    let one = PlayerId::find_players_in_buffer(&buffer, &sigs, false);
    assert_eq!(one.len(), 1);
    assert_eq!(one[0].signature_name, "First");
    let all = PlayerId::find_players_in_buffer(&buffer, &sigs, true);
    assert_eq!(all.len(), 2);
    assert_eq!(all[1].signature_name, "Second");
    assert_eq!(all[1].indexes, vec![0]);
    assert!(PlayerId::find_players_in_buffer(&[7, 7], &sigs, true).is_empty());
}

#[test]
fn same_name_matches_reported_once() {
    let sigs = Signature::read_config_lines(&lines("Dup\n01 02\n03 04\n"), None).unwrap();
    let found = Signature::find_signatures(&[1, 2, 3, 4], 0, &sigs, true);
    assert_eq!(found.len(), 1);
    assert_eq!(found[0].indexes, vec![0]);
}

#[test]
fn start_offset_past_end_finds_nothing() {
    let sigs = Signature::read_config_lines(&lines("One\n01 02\n"), None).unwrap();
    assert!(Signature::find_signatures(&[1, 2], 5, &sigs, true).is_empty());
}

#[test]
fn convert_to_new_format() {
    let text = "First\n01 ?? 03 END\nSecond\n0A 0B && 0C 0D\n(Comment)\nFF EE\n";
    let sigs = Signature::read_config_lines(&lines(text), None).unwrap();
    let out = PlayerId::convert_ids_to_string(sigs, true);
    assert_eq!(out, "First\r\n01 ?? 03\r\n\r\nSecond\r\n0A 0B && 0C 0D\r\n(Comment)\r\nFF EE\r\n");
}

#[test]
fn convert_to_old_format() {
    let sigs = Signature::read_config_lines(&lines("Name\n0A 0B && 0C 0D\n"), None).unwrap();
    let out = PlayerId::convert_ids_to_string(sigs, false);
    assert_eq!(out, "Name\r\n0A 0B AND 0C 0D END\r\n");
}

#[test]
fn convert_then_parse_round_trip() {
    let text = "First\n01 ?? 03 END\nSecond\n0A 0B && 0C 0D\nSecond\n11 22\n";
    for new_format in [true, false] {
        let sigs = Signature::read_config_lines(&lines(text), None).unwrap();
        let out = PlayerId::convert_ids_to_string(sigs, new_format);
        let again = Signature::read_config_lines(&lines(&out), None).unwrap();
        let original = Signature::read_config_lines(&lines(text), None).unwrap();
        assert_eq!(again.len(), original.len());
        for (a, b) in again.iter().zip(original.iter()) {
            assert_eq!(a.signature_name, b.signature_name);
            assert_eq!(a.bndm_configs.len(), b.bndm_configs.len());
            for (x, y) in a.bndm_configs.iter().zip(b.bndm_configs.iter()) {
                assert_eq!(x.pattern, y.pattern);
                assert_eq!(x.wildcard, y.wildcard);
            }
        }
    }
}

#[test]
fn config_path_and_info_path() {
    assert_eq!(PlayerId::get_config_path(None), Ok("sidid.cfg".to_string()));
    let empty = String::new();
    assert!(PlayerId::get_config_path(Some(&empty)).is_err());
    let given = "my.cfg".to_string();
    assert_eq!(PlayerId::get_config_path(Some(&given)), Ok("my.cfg".to_string()));
    assert_eq!(PlayerId::get_info_file_path("dir.cfg/sidid.cfg"), "dir.nfo/sidid.nfo");
}

#[test]
fn argument_numbers() {
    assert_eq!(Config::parse_argument_number("Max threads", "8"), Ok(8));
    assert_eq!(Config::parse_argument_number("Max threads", "+5"), Ok(5));
    assert_eq!(
        Config::parse_argument_number("Max threads", "0"),
        Err("Max threads must be higher than 0.".to_string())
    );
    assert_eq!(
        Config::parse_argument_number("Max threads", "x1"),
        Err("Max threads must be a valid number.".to_string())
    );
    assert!(Config::parse_argument_number("Max threads", "4294967296").is_err());
    assert_eq!(Config::parse_argument_number("Max threads", "4294967295"), Ok(4294967295));
    assert!(Config::parse_argument_number("Max threads", "").is_err());
}

#[test]
fn option_validation() {
    assert!(Config::validate_file_format_option(&Some("n".to_string())).is_ok());
    assert!(Config::validate_file_format_option(&Some("o".to_string())).is_ok());
    assert!(Config::validate_file_format_option(&Some("x".to_string())).is_err());
    assert!(Config::validate_file_format_option(&None).is_ok());
    let empty = String::new();
    let name = "Name".to_string();
    assert!(Config::validate_player_name(Some(&empty)).is_err());
    assert!(Config::validate_player_name(Some(&name)).is_ok());
    assert!(Config::validate_player_info_option(true, None).is_err());
    assert!(Config::validate_player_info_option(true, Some(&name)).is_ok());
    assert!(Config::validate_player_info_option(false, None).is_ok());
}

#[test]
fn unused_config_struct_fields_build() {
    let c = SignatureConfig { bndm_configs: vec![BndmConfig::new(b"ab", None)], signature_name: "X".to_string() };
    assert_eq!(c.bndm_configs[0].masks.len(), 256);
}

#[test]
fn valid_config_has_no_issues() {
    let (bad, issues) = player_id::validate::verify_config_file(&lines("First\n01 02 ?? 04\n\nSecond\n0A 0B && 0C 0D\n"));
    assert!(!bad);
    assert!(issues.is_empty());
}

#[test]
fn config_issues_are_reported() {
    let (bad, issues) = player_id::validate::verify_config_file(&lines("First\n01 02 ab\nFirst\n?? 01\n01  02\n\n\nSecond\n"));
    assert!(bad);
    assert!(issues.len() >= 5);
}

#[test]
fn value_checks() {
    let mut issues = Vec::new();
    let name: Vec<char> = "X".chars().collect();
    let v = |s: &str| s.chars().collect::<Vec<char>>();
    assert!(!player_id::validate::validate_signature_value(&name, &v("01 02 AND 03 04 END"), &mut issues));
    assert!(issues.is_empty());
    assert!(player_id::validate::validate_signature_value(&name, &v("01 02 AND"), &mut issues));
    assert!(player_id::validate::validate_signature_value(&name, &v("01 ?? 02 && ?? 03"), &mut issues));
    assert!(player_id::validate::validate_signature_value(&name, &v("01 02 END 03"), &mut issues));
    assert!(player_id::validate::validate_signature_value(&name, &v("01 0G"), &mut issues));
    assert!(player_id::validate::validate_signature_value(&name, &v("01"), &mut issues));
    assert_eq!(issues.len(), 5);
}

#[test]
fn info_issues_are_reported() {
    let sigs = Signature::read_config_lines(&lines("Player\n01 02\n"), None).unwrap();
    let good = "Player\n     NAME: Some Player\n   AUTHOR: Someone\nREFERENCE: http://example\n";
    let (bad, issues) = player_id::validate::verify_info_file(&lines(good), &sigs);
    assert!(!bad, "{}", issues.len());
    let wrong = "Player \n   AUTHOR: Someone\n     NAME: Some Player\nREFERENCE: ftp://x\nOther\n";
    let (bad, issues) = player_id::validate::verify_info_file(&lines(wrong), &sigs);
    assert!(bad);
    assert!(issues.len() >= 4);
}

fn args(list: &[&str]) -> Vec<String> {
    list.iter().map(|a| a.to_string()).collect()
}

#[test]
fn arguments_set_options() {
    let c = Config::from_arguments(&args(&["player-id", "-m", "-x", "-c4", "-pHubbard", "./music/*.sid"]), 8, None, None).unwrap();
    assert!(c.scan_for_multiple);
    assert!(c.display_hex_offset);
    assert!(!c.recursive);
    assert_eq!(c.cpu_threads, 4);
    assert_eq!(c.player_name, Some("Hubbard".to_string()));
    assert_eq!(c.base_path, "music");
    assert_eq!(c.filename, "*.sid");
    assert_eq!(c.config_file, None);
}

#[test]
fn arguments_clamp_threads_and_use_environment_config() {
    let c = Config::from_arguments(&args(&["player-id", "-c64", "-s", "x.prg"]), 8, Some("env.cfg".to_string()), None).unwrap();
    assert_eq!(c.cpu_threads, 8);
    assert!(c.recursive);
    assert_eq!(c.config_file, Some("env.cfg".to_string()));
    assert_eq!(c.base_path, ".");
    let c = Config::from_arguments(&args(&["player-id", "-fmine.cfg", "x"]), 8, Some("env.cfg".to_string()), None).unwrap();
    assert_eq!(c.config_file, Some("mine.cfg".to_string()));
}

#[test]
fn arguments_for_the_collection() {
    let c = Config::from_arguments(&args(&["player-id", "-h"]), 2, None, Some("/hvsc".to_string())).unwrap();
    assert!(c.scan_hvsc);
    assert!(c.recursive);
    assert_eq!(c.base_path, "/hvsc");
    assert_eq!(c.filename, "*.sid");
    assert_eq!(
        Config::from_arguments(&args(&["player-id", "-h"]), 2, None, None).err(),
        Some("HVSC environment variable not found.".to_string())
    );
}

#[test]
fn arguments_rejected() {
    assert_eq!(
        Config::from_arguments(&args(&["player-id", "-q", "x"]), 2, None, None).err(),
        Some("Unknown option: -q".to_string())
    );
    assert!(Config::from_arguments(&args(&["player-id", "-c0", "x"]), 2, None, None).is_err());
    assert!(Config::from_arguments(&args(&["player-id", "-n", "x"]), 2, None, None).is_err());
    assert!(Config::from_arguments(&args(&["player-id", "-p", "x"]), 2, None, None).is_err());
    assert!(Config::from_arguments(&args(&["player-id", "-wz", "x"]), 2, None, None).is_err());
    assert!(Config::from_arguments(&args(&["player-id", "-wn", "x"]), 2, None, None).is_ok());
}

#[test]
fn sub_pattern_of_255_bytes_is_too_long() {
    let long = vec!["20"; 255].join(" ");
    let (bad, issues) = player_id::validate::verify_config_file(&vec!["PlayerX".to_string(), long]);
    assert!(bad);
    assert_eq!(issues.len(), 1);
    assert!(matches!(issues[0], player_id::validate::Issue::TooLong { .. }));
    let ok = vec!["20"; 254].join(" ");
    let (bad, _) = player_id::validate::verify_config_file(&vec!["PlayerX".to_string(), ok]);
    assert!(!bad);
}

#[test]
fn sub_pattern_needs_two_bytes() {
    let (bad, issues) = player_id::validate::verify_config_file(&lines("PlayerX\n20 30 && 40\n"));
    assert!(bad);
    assert_eq!(issues.len(), 1);
    assert!(matches!(issues[0], player_id::validate::Issue::TooFewValues { .. }));
}

#[test]
fn duplicate_name_is_reported_as_such() {
    let (bad, issues) = player_id::validate::verify_config_file(&lines("Name\n01 02\n\nname\n03 04\n"));
    assert!(bad);
    assert_eq!(issues.len(), 1);
    assert!(matches!(issues[0], player_id::validate::Issue::DuplicateName { .. }));
}

#[test]
fn blank_lines_close_only_open_info_blocks() {
    let text = "\nPlayer\n     NAME: Some Player\n\n\nOther\n     NAME: Other Player\n";
    let infos = Signature::read_info_lines(&lines(&text[1..])).unwrap();
    assert_eq!(infos.len(), 2);
    assert_eq!(infos[0].0, "Player");
    assert_eq!(infos[1].0, "Other");
}

#[test]
fn error_messages() {
    assert_eq!(Signature::read_config_lines(&lines("01 02\n"), None).err(), Some("Not an config file.".to_string()));
    assert_eq!(Signature::read_info_lines(&lines("01 02\n")).err(), Some("Not an info file.".to_string()));
    assert_eq!(PlayerId::load_config_file(&lines(""), None).err(), Some("Not an config file.".to_string()));
    assert_eq!(PlayerId::load_info_file(&lines("Player\n     NAME: X\n")).map(|v| v.len()), Ok(1));
}

#[test]
fn listing_choice() {
    let none = Vec::new();
    assert!(!PlayerId::is_listed(&none, false, false));
    assert!(PlayerId::is_listed(&none, true, false));
    assert!(PlayerId::is_listed(&none, false, true));
    let sigs = Signature::read_config_lines(&lines("One\n01 02\n"), None).unwrap();
    let found = PlayerId::find_players_in_buffer(&[1, 2], &sigs, false);
    assert!(PlayerId::is_listed(&found, false, false));
    assert!(!PlayerId::is_listed(&found, false, true));
}
