use crabsoup::analyzelib::{check_passes, AnalyzeLocation, AnalyzeResult};
use crabsoup::baselib::CrabSoupLib;
use crabsoup::codeclib::{csv_records, csv_to_named_rows, json_is_valid, json_reformat, json_reformat_pretty};
use crabsoup::digestlib::{
    blake2b_hex, blake2s_hex, md5_hex, sha1_hex, sha256_hex, sha512_hex, to_hex_lower,
};
use crabsoup::loglib::{join_logged_values, log_target};
use crabsoup::processlib::{check_status, parse_command_value, status_code, CommandSpec, StdioMode};
use crabsoup::regexlib::{
    regex_escape, regex_find_all, regex_match, regex_replace, regex_replace_all, regex_split,
};
use crabsoup::stringlib::{
    base64_decode, base64_encode, decode_entities, encode_entities, slugify, slugify_ascii,
    slugify_soft, url_decode, url_encode,
};
use crabsoup::syslib::{time_to_num, Timestamp};
use crabsoup::textutil::{check_class_name, default_chunk_name, split_classes};

#[test]
fn digests_have_their_known_values() {
    assert_eq!(md5_hex(b""), "d41d8cd98f00b204e9800998ecf8427e");
    assert_eq!(md5_hex(b"abc"), "900150983cd24fb0d6963f7d28e17f72");
    assert_eq!(sha1_hex(b"abc"), "a9993e364706816aba3e25717850c26c9cd0d89d");
    assert_eq!(
        sha256_hex(b"abc"),
        "ba7816bf8f01cfea414140de5dae2223b00361a396177a9cb410ff61f20015ad"
    );
    assert_eq!(
        sha512_hex(b"abc"),
        "ddaf35a193617abacc417349ae20413112e6fa4e89a97ea20a9eeee64b55d39a2192992a274fc1a836ba3c23a3feebbd454d4423643ce80e2a9ac94fa54ca49f"
    );
    assert_eq!(
        blake2s_hex(b"abc"),
        "508c5e8c327c14e2e1a72ba34eeb452f37458b209ed63a294d999b4c86675982"
    );
    assert_eq!(
        blake2b_hex(b"abc"),
        "ba80a53f981c4d0d6a2797b69f12f6e94c212f14685ac4b74b12bb6fdbffa2d17d87c5392aab792dc252d5de4533cc9518d38aa8dbf1925ab92386edd4009923"
    );
}

#[test]
fn hex_rendering_is_two_lowercase_digits_per_byte() {
    assert_eq!(to_hex_lower(&vec![0x00u8, 0xff, 0x1a]), "00ff1a");
    assert_eq!(to_hex_lower(&vec![]), "");
}

#[test]
fn base64_round_trips() {
    let enc = base64_encode(b"hello");
    assert_eq!(enc, "aGVsbG8=");
    assert_eq!(base64_decode(enc.as_bytes()).unwrap(), b"hello".to_vec());
    assert!(base64_decode(b"!!not base64!!").is_err());
}

#[test]
fn url_encoding_round_trips() {
    let enc = url_encode("a b&c");
    assert_eq!(enc, "a%20b%26c");
    assert_eq!(url_decode(&enc).unwrap(), "a b&c");
}

#[test]
fn entity_encoding_escapes_markup_and_decodes_back() {
    assert_eq!(encode_entities("a<b>&c"), "a&lt;b&gt;&amp;c");
    assert_eq!(decode_entities("a&lt;b&gt;&amp;c"), "a<b>&c");
    assert_eq!(decode_entities("plain"), "plain");
}

#[test]
fn slug_forms() {
    assert_eq!(slugify("hello brave world").unwrap(), "hello_brave_world");
    assert_eq!(slugify("_pad me_").unwrap(), "pad_me");
    assert_eq!(slugify_ascii("a b!c").unwrap(), "a-b-c");
    let soft = slugify_soft("x").unwrap();
    assert_eq!(soft, "x");
}

#[test]
fn regex_surface_behaves() {
    assert_eq!(regex_match("abc123", "[0-9]+").unwrap(), true);
    assert_eq!(regex_match("abcdef", "[0-9]+").unwrap(), false);
    assert!(regex_match("x", "(unclosed").is_err());
    assert_eq!(
        regex_find_all("a1b22c333", "[0-9]+").unwrap(),
        vec!["1".to_string(), "22".to_string(), "333".to_string()]
    );
    assert_eq!(regex_replace("a1b2", "[0-9]", "_").unwrap(), "a_b2");
    assert_eq!(regex_replace_all("a1b2", "[0-9]", "_").unwrap(), "a_b_");
    assert_eq!(
        regex_split("a1b2c", "[0-9]").unwrap(),
        vec!["a".to_string(), "b".to_string(), "c".to_string()]
    );
    let esc = regex_escape("a.b*c");
    assert_eq!(regex_match("a.b*c", &esc).unwrap(), true);
    assert_eq!(regex_match("aXbYc", &esc).unwrap(), false);
}

#[test]
fn csv_parses_and_pairs_headers() {
    let text = b"name,age\nana,3\nbo,5";
    let raw = csv_records(text).unwrap();
    assert_eq!(raw.len(), 3);
    assert_eq!(raw[0], vec!["name".to_string(), "age".to_string()]);
    assert_eq!(raw[2], vec!["bo".to_string(), "5".to_string()]);

    let named = csv_to_named_rows(text).unwrap();
    assert_eq!(named.len(), 2);
    assert_eq!(
        named[0],
        vec![("name".to_string(), "ana".to_string()), ("age".to_string(), "3".to_string())]
    );
    assert_eq!(
        named[1],
        vec![("name".to_string(), "bo".to_string()), ("age".to_string(), "5".to_string())]
    );
    // A row whose width differs from the header row's is a fault.
    assert!(csv_to_named_rows(b"name,age\nana,3\nbo,5,extra").is_err());
    assert!(csv_to_named_rows(b"name,age\nana").is_err());
}

#[test]
fn csv_rejects_malformed_quoting() {
    assert!(csv_records(b"a,\xff\xfe\n1,2").is_err());
}

#[test]
fn split_classes_dedupes_in_first_occurrence_order() {
    assert_eq!(split_classes("a b a\tc  b"), vec!["a", "b", "c"]);
    assert_eq!(split_classes("   "), Vec::<String>::new());
    assert_eq!(split_classes(""), Vec::<String>::new());
    assert_eq!(split_classes("\none\r\ntwo\x0cone"), vec!["one", "two"]);
    // Tokens are trimmed of non-separator whitespace; fully-white tokens
    // vanish.
    assert_eq!(split_classes("\u{a0}a b\u{a0} \u{a0}"), vec!["a", "b"]);
}

#[test]
fn class_names_with_whitespace_are_rejected() {
    assert!(check_class_name("button").is_ok());
    assert!(check_class_name("but ton").is_err());
    assert!(check_class_name(" button").is_err());
    assert!(check_class_name("button\t").is_err());
    // A name edged with other whitespace does not equal its trimmed form.
    assert!(check_class_name("\u{b}button").is_err());
    assert!(check_class_name("button\u{a0}").is_err());
    // Interior non-separator whitespace survives trimming and is accepted.
    assert!(check_class_name("bu\u{b}tton").is_ok());
}

#[test]
fn chunk_names_truncate_at_forty_characters() {
    assert_eq!(default_chunk_name("print(1)"), "print(1)");
    let long = "abcdefghijklmnopqrstuvwxyzabcdefghijklmnopqrstuvwxyz";
    let named = default_chunk_name(long);
    assert_eq!(named.chars().count(), 43);
    assert_eq!(named, "abcdefghijklmnopqrstuvwxyzabcdefghijklmn...");
}

#[test]
fn command_plans_for_shell_and_argv() {
    let spec = CommandSpec {
        shell: Some("ls -l".to_string()),
        args: vec![],
        current_directory: Some("work".to_string()),
        env: vec![("K".to_string(), "V".to_string())],
        stdin: None,
        capture_stdout: true,
        capture_stderr: false,
    };
    let plan = parse_command_value(spec, true).unwrap();
    assert_eq!(plan.program, "sh");
    assert_eq!(plan.args, vec!["-c".to_string(), "ls -l".to_string()]);
    assert_eq!(plan.stdout_mode, StdioMode::Piped);
    assert_eq!(plan.stderr_mode, StdioMode::Inherit);
    assert_eq!(plan.stdin_mode, StdioMode::Null);

    let spec = CommandSpec {
        shell: None,
        args: vec!["tool".to_string(), "x".to_string(), "y".to_string()],
        current_directory: None,
        env: vec![],
        stdin: Some("input".to_string()),
        capture_stdout: false,
        capture_stderr: true,
    };
    let plan = parse_command_value(spec, true).unwrap();
    assert_eq!(plan.program, "tool");
    assert_eq!(plan.args, vec!["x".to_string(), "y".to_string()]);
    assert_eq!(plan.stdin_mode, StdioMode::Piped);
    assert_eq!(plan.stdin_data, Some("input".to_string()));
    assert_eq!(plan.stdout_mode, StdioMode::Null);
    assert_eq!(plan.stderr_mode, StdioMode::Piped);
}

#[test]
fn empty_commands_are_rejected() {
    let spec = CommandSpec {
        shell: None,
        args: vec![],
        current_directory: None,
        env: vec![],
        stdin: None,
        capture_stdout: false,
        capture_stderr: false,
    };
    assert!(parse_command_value(spec, true).is_err());
}

#[test]
fn exit_statuses_are_judged() {
    assert_eq!(status_code(Some(3)).unwrap(), 3);
    assert!(status_code(None).is_err());
    assert!(check_status(Some(0)).is_ok());
    assert!(check_status(Some(1)).is_err());
    assert!(check_status(None).is_err());
}

#[test]
fn static_check_passes_without_hard_errors() {
    let warn = AnalyzeResult {
        location: "plugin.luau".to_string(),
        location_start: AnalyzeLocation { line: 1, column: 0 },
        location_end: AnalyzeLocation { line: 1, column: 4 },
        is_error: false,
        is_lint: true,
        message: "deprecated".to_string(),
    };
    let err = AnalyzeResult {
        location: "plugin.luau".to_string(),
        location_start: AnalyzeLocation { line: 2, column: 0 },
        location_end: AnalyzeLocation { line: 2, column: 4 },
        is_error: true,
        is_lint: false,
        message: "type mismatch".to_string(),
    };
    assert!(check_passes(&vec![]));
    assert!(check_passes(&vec![warn]));
    let warn2 = AnalyzeResult {
        location: "plugin.luau".to_string(),
        location_start: AnalyzeLocation { line: 1, column: 0 },
        location_end: AnalyzeLocation { line: 1, column: 4 },
        is_error: false,
        is_lint: true,
        message: "deprecated".to_string(),
    };
    assert!(!check_passes(&vec![warn2, err]));
}

#[test]
fn timestamps_truncate_to_whole_seconds() {
    assert_eq!(time_to_num(Timestamp { secs: 1000, nanos: 999_999_999 }), 1000);
    assert_eq!(time_to_num(Timestamp { secs: 0, nanos: 1 }), 0);
}

#[test]
fn host_version_strings() {
    let lib = CrabSoupLib;
    assert_eq!(lib.version_string(), "crabsoup 0.1.0");
    assert_eq!(lib.version_only(), "0.1.0");
}

#[test]
fn log_targets_are_normalized() {
    assert_eq!(log_target(None), "<host>");
    assert_eq!(log_target(Some("print(1)")), "<loadstring>");
    assert_eq!(log_target(Some("@site/build.luau")), "site/build");
    assert_eq!(log_target(Some("@plugins/old.lua")), "plugins/old");
    assert_eq!(log_target(Some("@rt/init.luau#chunk")), "rt/init#chunk");
    assert_eq!(
        join_logged_values(&vec!["a".to_string(), "b".to_string(), "c".to_string()]),
        "a\tb\tc"
    );
    assert_eq!(join_logged_values(&vec![]), "");
}

#[test]
fn json_reformatting_normalizes_and_validates() {
    assert_eq!(
        json_reformat(" { \"b\" : 1 , \"a\" : [ true , null ] } ").unwrap(),
        "{\"a\":[true,null],\"b\":1}"
    );
    let pretty = json_reformat_pretty("{\"a\":1}").unwrap();
    assert_eq!(pretty, "{\n  \"a\": 1\n}");
    assert!(json_is_valid("[1,2,3]"));
    assert!(!json_is_valid("{broken"));
    assert!(json_reformat("{broken").is_err());
}
