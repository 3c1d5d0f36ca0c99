use kvs::codec::{decode_record, encode_command, Command};
use kvs::kv::log_file;
use kvs::text::parse_u64;

fn chars(s: &str) -> Vec<char> {
    s.chars().collect()
}

fn text(v: &[char]) -> String {
    v.iter().collect()
}

#[test]
fn encode_put_record_exact_text() {
    let cmd = Command::Put { key: "key".to_owned(), val: "value".to_owned() };
    assert_eq!(text(&encode_command(&cmd)), "S key value\n");
}

#[test]
fn encode_rm_record_exact_text() {
    let cmd = Command::Rm { key: "key".to_owned() };
    assert_eq!(text(&encode_command(&cmd)), "R key\n");
}

#[test]
fn encode_escapes_space_newline_backslash() {
    let cmd = Command::Put { key: "a b".to_owned(), val: "c\nd\\e".to_owned() };
    assert_eq!(text(&encode_command(&cmd)), "S a\\sb c\\nd\\\\e\n");
}

#[test]
fn decode_inverts_encode() {
    let cases = vec![
        ("plain", "value"),
        ("with space", "with\nnewline"),
        ("back\\slash", " leading and trailing "),
        ("", ""),
    ];
    for (k, v) in cases {
        let cmd = Command::Put { key: k.to_owned(), val: v.to_owned() };
        let enc = encode_command(&cmd);
        let (decoded, end) = decode_record(&enc, 0).expect("round trip decodes");
        assert_eq!(end, enc.len());
        match decoded {
            Command::Put { key, val } => {
                assert_eq!(key, k);
                assert_eq!(val, v);
            },
            Command::Rm { .. } => panic!("wrong tag"),
        }
    }
}

#[test]
fn decode_rm_inverts_encode() {
    let cmd = Command::Rm { key: "gone".to_owned() };
    let enc = encode_command(&cmd);
    let (decoded, end) = decode_record(&enc, 0).expect("round trip decodes");
    assert_eq!(end, enc.len());
    match decoded {
        Command::Rm { key } => assert_eq!(key, "gone"),
        Command::Put { .. } => panic!("wrong tag"),
    }
}

#[test]
fn decode_rejects_malformed_records() {
    assert!(decode_record(&chars(""), 0).is_none());
    assert!(decode_record(&chars("X k v\n"), 0).is_none());
    assert!(decode_record(&chars("S k v"), 0).is_none());
    assert!(decode_record(&chars("S k\n"), 0).is_none());
    assert!(decode_record(&chars("S k \\x\n"), 0).is_none());
    assert!(decode_record(&chars("R \\"), 0).is_none());
}

#[test]
fn decode_consumes_one_record_of_a_stream() {
    let stream = chars("S a 1\nS b 2\n");
    let (first, end) = decode_record(&stream, 0).unwrap();
    assert_eq!(end, 6);
    match first {
        Command::Put { key, val } => {
            assert_eq!(key, "a");
            assert_eq!(val, "1");
        },
        Command::Rm { .. } => panic!("wrong tag"),
    }
    let (second, end2) = decode_record(&stream, end).unwrap();
    assert_eq!(end2, stream.len());
    match second {
        Command::Put { key, val } => {
            assert_eq!(key, "b");
            assert_eq!(val, "2");
        },
        Command::Rm { .. } => panic!("wrong tag"),
    }
}

#[test]
fn log_file_names() {
    assert_eq!(log_file(0), "0.log");
    assert_eq!(log_file(42), "42.log");
    assert_eq!(log_file(u64::MAX), "18446744073709551615.log");
}

#[test]
fn parse_u64_accepts_digits() {
    assert_eq!(parse_u64("0"), Some(0));
    assert_eq!(parse_u64("42"), Some(42));
    assert_eq!(parse_u64("007"), Some(7));
    assert_eq!(parse_u64("18446744073709551615"), Some(u64::MAX));
}

#[test]
fn parse_u64_rejects_everything_else() {
    assert_eq!(parse_u64(""), None);
    assert_eq!(parse_u64("1x"), None);
    assert_eq!(parse_u64("-1"), None);
    assert_eq!(parse_u64("+1"), None);
    assert_eq!(parse_u64("18446744073709551616"), None);
    assert_eq!(parse_u64("99999999999999999999999"), None);
}
