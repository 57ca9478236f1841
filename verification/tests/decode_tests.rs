use telemetry_fusion::decode::decode_record;
use telemetry_fusion::record::TelemetryRecord;

fn dec(s: &[u8]) -> Option<TelemetryRecord> {
    decode_record(s)
}

#[test]
fn decodes_well_formed_record() {
    let r = dec(b"{\"id\":1,\"x\":0,\"y\":0,\"z\":10,\"battery\":100,\"status\":\"OK\",\"ts_ms\":1000}")
        .expect("well-formed record");
    assert_eq!(r.id, 1);
    assert_eq!(r.x, 0);
    assert_eq!(r.y, 0);
    assert_eq!(r.z, 10_000);
    assert_eq!(r.battery, 100_000);
    assert_eq!(r.status, b"OK".to_vec());
    assert_eq!(r.ts_ms, 1000);
}

#[test]
fn decodes_fractions_exactly() {
    let r = dec(b"{\"id\":7,\"x\":2.5,\"y\":-3.25,\"z\":0.001,\"battery\":99.9,\"status\":\"ok\",\"ts_ms\":0}")
        .unwrap();
    assert_eq!(r.x, 2_500);
    assert_eq!(r.y, -3_250);
    assert_eq!(r.z, 1);
    assert_eq!(r.battery, 99_900);
}

#[test]
fn truncates_sub_milli_digits_toward_zero() {
    let r = dec(b"{\"id\":1,\"x\":0.0005,\"y\":-0.0009,\"z\":1.23456,\"battery\":0,\"status\":\"\",\"ts_ms\":1}")
        .unwrap();
    assert_eq!(r.x, 0);
    assert_eq!(r.y, 0);
    assert_eq!(r.z, 1_234);
}

#[test]
fn decodes_exponent_forms() {
    let r = dec(b"{\"id\":1,\"x\":1e3,\"y\":2.5e-1,\"z\":4E+2,\"battery\":0e99,\"status\":\"s\",\"ts_ms\":5}")
        .unwrap();
    assert_eq!(r.x, 1_000_000);
    assert_eq!(r.y, 250);
    assert_eq!(r.z, 400_000);
    assert_eq!(r.battery, 0);
}

#[test]
fn accepts_negative_zero_and_plain_zero() {
    let r = dec(b"{\"id\":0,\"x\":-0,\"y\":-0.0,\"z\":0,\"battery\":-0.25,\"status\":\"\",\"ts_ms\":0}")
        .unwrap();
    assert_eq!(r.x, 0);
    assert_eq!(r.y, 0);
    assert_eq!(r.battery, -250);
}

#[test]
fn ignores_unknown_fields() {
    let r = dec(b"{\"id\":3,\"extra\":{\"a\":[1,2,{\"b\":null}],\"c\":\"x\"},\"x\":1,\"y\":2,\"z\":3,\"battery\":4,\"flag\":true,\"status\":\"OK\",\"other\":-1.5e2,\"ts_ms\":9}")
        .unwrap();
    assert_eq!(r.id, 3);
    assert_eq!(r.x, 1_000);
    assert_eq!(r.ts_ms, 9);
}

#[test]
fn accepts_whitespace_everywhere() {
    let r = dec(b" \t\r\n{ \"id\" : 1 , \"x\" : 1 , \"y\" : 2 , \"z\" : 3 , \"battery\" : 4 , \"status\" : \"A B\" , \"ts_ms\" : 12 } \n")
        .unwrap();
    assert_eq!(r.status, b"A B".to_vec());
}

#[test]
fn rejects_missing_required_field() {
    assert!(dec(b"{\"id\":1,\"x\":0,\"y\":0,\"z\":10,\"battery\":100,\"status\":\"OK\"}").is_none());
    assert!(dec(b"{}").is_none());
}

#[test]
fn rejects_mistyped_fields() {
    // string where a number is required
    assert!(dec(b"{\"id\":1,\"x\":\"0\",\"y\":0,\"z\":0,\"battery\":0,\"status\":\"OK\",\"ts_ms\":1}").is_none());
    // float where an unsigned integer is required
    assert!(dec(b"{\"id\":1.5,\"x\":0,\"y\":0,\"z\":0,\"battery\":0,\"status\":\"OK\",\"ts_ms\":1}").is_none());
    assert!(dec(b"{\"id\":1,\"x\":0,\"y\":0,\"z\":0,\"battery\":0,\"status\":\"OK\",\"ts_ms\":1e3}").is_none());
    // negative id
    assert!(dec(b"{\"id\":-1,\"x\":0,\"y\":0,\"z\":0,\"battery\":0,\"status\":\"OK\",\"ts_ms\":1}").is_none());
    // number where a string is required
    assert!(dec(b"{\"id\":1,\"x\":0,\"y\":0,\"z\":0,\"battery\":0,\"status\":3,\"ts_ms\":1}").is_none());
}

#[test]
fn rejects_id_out_of_range() {
    assert!(dec(b"{\"id\":4294967295,\"x\":0,\"y\":0,\"z\":0,\"battery\":0,\"status\":\"\",\"ts_ms\":1}").is_some());
    assert!(dec(b"{\"id\":4294967296,\"x\":0,\"y\":0,\"z\":0,\"battery\":0,\"status\":\"\",\"ts_ms\":1}").is_none());
}

#[test]
fn rejects_duplicate_required_field() {
    assert!(dec(b"{\"id\":1,\"id\":2,\"x\":0,\"y\":0,\"z\":0,\"battery\":0,\"status\":\"\",\"ts_ms\":1}").is_none());
    assert!(dec(b"{\"id\":1,\"x\":0,\"x\":0,\"y\":0,\"z\":0,\"battery\":0,\"status\":\"\",\"ts_ms\":1}").is_none());
    // a repeated unknown key is still ignored
    assert!(dec(b"{\"id\":1,\"q\":1,\"q\":2,\"x\":0,\"y\":0,\"z\":0,\"battery\":0,\"status\":\"\",\"ts_ms\":1}").is_some());
}

#[test]
fn rejects_malformed_structure() {
    assert!(dec(b"").is_none());
    assert!(dec(b"garbage").is_none());
    assert!(dec(b"[1,2,3]").is_none());
    assert!(dec(b"{\"id\":1").is_none());
    assert!(dec(b"{\"id\"1}").is_none());
    assert!(dec(b"{\"id\":1,}").is_none());
    assert!(dec(b"{\"id\":1,\"x\":0,\"y\":0,\"z\":0,\"battery\":0,\"status\":\"\",\"ts_ms\":1} trailing").is_none());
    assert!(dec(b"{\"id\":1,\"x\":0,\"y\":0,\"z\":0,\"battery\":0,\"status\":\"\",\"ts_ms\":1}{}").is_none());
}

#[test]
fn rejects_malformed_numbers() {
    assert!(dec(b"{\"id\":01,\"x\":0,\"y\":0,\"z\":0,\"battery\":0,\"status\":\"\",\"ts_ms\":1}").is_none());
    assert!(dec(b"{\"id\":1,\"x\":01.5,\"y\":0,\"z\":0,\"battery\":0,\"status\":\"\",\"ts_ms\":1}").is_none());
    assert!(dec(b"{\"id\":1,\"x\":.5,\"y\":0,\"z\":0,\"battery\":0,\"status\":\"\",\"ts_ms\":1}").is_none());
    assert!(dec(b"{\"id\":1,\"x\":5.,\"y\":0,\"z\":0,\"battery\":0,\"status\":\"\",\"ts_ms\":1}").is_none());
    assert!(dec(b"{\"id\":1,\"x\":1e,\"y\":0,\"z\":0,\"battery\":0,\"status\":\"\",\"ts_ms\":1}").is_none());
    assert!(dec(b"{\"id\":1,\"x\":+1,\"y\":0,\"z\":0,\"battery\":0,\"status\":\"\",\"ts_ms\":1}").is_none());
}

#[test]
fn rejects_positions_out_of_fixed_point_range() {
    // One thousand billion units is the limit; just beyond it is refused.
    assert!(dec(b"{\"id\":1,\"x\":1000000000000,\"y\":0,\"z\":0,\"battery\":0,\"status\":\"\",\"ts_ms\":1}").is_some());
    assert!(dec(b"{\"id\":1,\"x\":1000000000001,\"y\":0,\"z\":0,\"battery\":0,\"status\":\"\",\"ts_ms\":1}").is_none());
    assert!(dec(b"{\"id\":1,\"x\":3.4e38,\"y\":0,\"z\":0,\"battery\":0,\"status\":\"\",\"ts_ms\":1}").is_none());
}

#[test]
fn decodes_string_escapes() {
    let r = dec(b"{\"id\":1,\"x\":0,\"y\":0,\"z\":0,\"battery\":0,\"status\":\"a\\n\\\"b\\\\c\\u0041\",\"ts_ms\":1}")
        .unwrap();
    assert_eq!(r.status, b"a\n\"b\\cA".to_vec());
}

#[test]
fn decodes_unicode_escapes_and_surrogate_pairs() {
    // U+00E9, U+20AC, and U+1F600 written as a surrogate pair.
    let r = dec(b"{\"id\":1,\"x\":0,\"y\":0,\"z\":0,\"battery\":0,\"status\":\"\\u00e9\\u20ac\\ud83d\\ude00\",\"ts_ms\":1}")
        .unwrap();
    assert_eq!(r.status, "\u{e9}\u{20ac}\u{1f600}".as_bytes().to_vec());
}

#[test]
fn passes_raw_utf8_through() {
    let json = "{\"id\":1,\"x\":0,\"y\":0,\"z\":0,\"battery\":0,\"status\":\"héllo → 😀\",\"ts_ms\":1}";
    let r = dec(json.as_bytes()).unwrap();
    assert_eq!(r.status, "héllo → 😀".as_bytes().to_vec());
}

#[test]
fn rejects_invalid_utf8_and_bad_escapes() {
    // a raw 0xFF byte inside the status string
    let mut bad = b"{\"id\":1,\"x\":0,\"y\":0,\"z\":0,\"battery\":0,\"status\":\"a".to_vec();
    bad.push(0xFF);
    bad.extend_from_slice(b"\",\"ts_ms\":1}");
    assert!(dec(&bad).is_none());
    // a lone continuation byte
    let mut bad2 = b"{\"id\":1,\"x\":0,\"y\":0,\"z\":0,\"battery\":0,\"status\":\"".to_vec();
    bad2.push(0x80);
    bad2.extend_from_slice(b"\",\"ts_ms\":1}");
    assert!(dec(&bad2).is_none());
    // an overlong two-byte encoding of an ASCII character
    let mut bad3 = b"{\"id\":1,\"x\":0,\"y\":0,\"z\":0,\"battery\":0,\"status\":\"".to_vec();
    bad3.extend_from_slice(&[0xC0, 0xAF]);
    bad3.extend_from_slice(b"\",\"ts_ms\":1}");
    assert!(dec(&bad3).is_none());
    // a lone high surrogate escape
    assert!(dec(b"{\"id\":1,\"x\":0,\"y\":0,\"z\":0,\"battery\":0,\"status\":\"\\ud83d\",\"ts_ms\":1}").is_none());
    // an unknown escape
    assert!(dec(b"{\"id\":1,\"x\":0,\"y\":0,\"z\":0,\"battery\":0,\"status\":\"\\q\",\"ts_ms\":1}").is_none());
    // an unescaped control character
    assert!(dec(b"{\"id\":1,\"x\":0,\"y\":0,\"z\":0,\"battery\":0,\"status\":\"a\x01b\",\"ts_ms\":1}").is_none());
}

#[test]
fn accepts_large_ts_ms() {
    let r = dec(b"{\"id\":1,\"x\":0,\"y\":0,\"z\":0,\"battery\":0,\"status\":\"\",\"ts_ms\":340282366920938463463374607431768211455}")
        .unwrap();
    assert_eq!(r.ts_ms, u128::MAX);
    assert!(dec(b"{\"id\":1,\"x\":0,\"y\":0,\"z\":0,\"battery\":0,\"status\":\"\",\"ts_ms\":340282366920938463463374607431768211456}").is_none());
}

#[test]
fn agrees_with_general_parser_on_acceptance() {
    // Structural acceptance matches a general-purpose parser for record
    // inputs: whatever it refuses as text, the decoder refuses too.
    let cases: [&[u8]; 5] = [
        b"{\"id\":1,\"x\":0,\"y\":0,\"z\":0,\"battery\":0,\"status\":\"ok\",\"ts_ms\":1}",
        b"{\"id\":1,",
        b"not json",
        b"{\"id\":1,\"x\":0,\"y\":0,\"z\":0,\"battery\":0,\"status\":\"ok\",\"ts_ms\":1} x",
        b"{\"a\":}",
    ];
    for c in cases.iter() {
        let general = serde_json::from_slice::<serde_json::Value>(c);
        if general.is_err() {
            assert!(dec(c).is_none());
        }
    }
}
