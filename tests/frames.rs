use telemetry_frames::{
    build_frame, build_sequence, check_consistency, decode_binary, decode_binary_expecting,
    decode_text, decode_text_expecting, encode_binary,
    encode_text, parse_field, same_sequence, ConsistencyError, ConvertError, DecodeError,
    DriverData, UpdateFrame, VisualizationData, SLOTS,
};

fn row(fields: &[&str]) -> Vec<String> {
    fields.iter().map(|s| s.to_string()).collect()
}

fn rec(driver_number: u8, led_num: u8) -> Option<DriverData> {
    Some(DriverData { driver_number, led_num })
}

fn sample(rate: u32, frames: Vec<Vec<Option<DriverData>>>) -> VisualizationData {
    VisualizationData {
        update_rate_ms: rate,
        frames: frames.into_iter().map(|frame| UpdateFrame { frame }).collect(),
    }
}

#[test]
fn two_columns_fill_two_slots() {
    let f = build_frame(&row(&["0", "5", "9"]), 0, 2, false).unwrap();
    assert_eq!(f.frame, vec![rec(1, 5), rec(2, 9)]);
}

#[test]
fn unparsable_field_fails_strict_row() {
    let r = build_frame(&row(&["0", "x"]), 0, 1, false);
    assert_eq!(r.unwrap_err(), ConvertError::ParseFailure { row: 0, column: 1 });
}

#[test]
fn unparsable_field_is_absent_when_lenient() {
    let f = build_frame(&row(&["0", "x"]), 0, 1, true).unwrap();
    assert_eq!(f.frame, vec![None]);
}

#[test]
fn three_frames_decode_in_both_forms() {
    let v = sample(250, vec![vec![None, rec(2, 10)]; 3]);
    let t = decode_text(&encode_text(&v), 2).unwrap();
    let b = decode_binary(&encode_binary(&v), 2).unwrap();
    assert_eq!(t.update_rate_ms, 250);
    assert_eq!(t.frames.len(), 3);
    assert_eq!(b.update_rate_ms, 250);
    assert_eq!(b.frames.len(), 3);
}

#[test]
fn short_second_frame_is_schema_mismatch() {
    let full = vec!["null"; 20].join(",");
    let text = format!(
        "{{\"update_rate_ms\":250,\"frames\":[[{}],[null,null,null]]}}",
        full
    );
    let r = decode_text(&text.into_bytes(), SLOTS);
    assert_eq!(r.unwrap_err(), DecodeError::SchemaMismatch { frame: 1 });
}

#[test]
fn frame_always_has_k_slots() {
    for fields in [vec!["0"], vec!["0", "3"], vec!["0", "1", "2", "3"]] {
        let f = build_frame(&row(&fields), 0, 20, true).unwrap();
        assert_eq!(f.frame.len(), 20);
    }
    let empty: Vec<String> = Vec::new();
    assert_eq!(build_frame(&empty, 0, 20, false).unwrap().frame.len(), 20);
}

#[test]
fn too_wide_row_is_shape_mismatch() {
    let r = build_frame(&row(&["0", "1", "2", "3"]), 4, 2, true);
    assert_eq!(r.unwrap_err(), ConvertError::ShapeMismatch { row: 4 });
}

#[test]
fn absent_and_zero_record_stay_apart() {
    let v = sample(0, vec![vec![None, rec(0, 0)]]);
    let t = decode_text(&encode_text(&v), 2).unwrap();
    let b = decode_binary(&encode_binary(&v), 2).unwrap();
    assert_eq!(t.frames[0].frame, vec![None, rec(0, 0)]);
    assert_eq!(b.frames[0].frame, vec![None, rec(0, 0)]);
    assert_ne!(encode_binary(&sample(0, vec![vec![None]])), encode_binary(&sample(0, vec![vec![rec(0, 0)]])));
}

#[test]
fn round_trip_both_forms() {
    let v = sample(
        4_000_000_000,
        vec![vec![rec(23, 65), None, rec(255, 0)], vec![None, None, None], vec![rec(1, 9), rec(2, 10), rec(3, 100)]],
    );
    let t = decode_text(&encode_text(&v), 3).unwrap();
    let b = decode_binary(&encode_binary(&v), 3).unwrap();
    assert!(same_sequence(&t, &v));
    assert!(same_sequence(&b, &v));
    assert!(same_sequence(&t, &b));
}

#[test]
fn empty_sequence_round_trips() {
    let v = sample(250, vec![]);
    assert_eq!(encode_text(&v), b"{\"update_rate_ms\":250,\"frames\":[]}".to_vec());
    assert_eq!(decode_text(&encode_text(&v), 20).unwrap().frames.len(), 0);
    assert_eq!(decode_binary(&encode_binary(&v), 20).unwrap().frames.len(), 0);
}

#[test]
fn text_form_is_exact() {
    let v = sample(250, vec![vec![None, rec(2, 10)]]);
    let text = String::from_utf8(encode_text(&v)).unwrap();
    assert_eq!(
        text,
        "{\"update_rate_ms\":250,\"frames\":[[null,{\"driver_number\":2,\"led_num\":10}]]}"
    );
}

#[test]
fn text_form_is_json_that_serde_json_reads() {
    let v = sample(250, vec![vec![None, rec(2, 10)], vec![rec(1, 0), None]]);
    let doc: serde_json::Value = serde_json::from_slice(&encode_text(&v)).unwrap();
    assert_eq!(doc["update_rate_ms"].as_u64(), Some(250));
    assert!(doc["frames"][0][0].is_null());
    assert_eq!(doc["frames"][0][1]["driver_number"].as_u64(), Some(2));
    assert_eq!(doc["frames"][0][1]["led_num"].as_u64(), Some(10));
    assert_eq!(doc["frames"][1][0]["led_num"].as_u64(), Some(0));
}

#[test]
fn binary_form_matches_bincode_layout() {
    let v = sample(250, vec![vec![None, rec(2, 10)], vec![rec(1, 0), None]]);
    let plain: (u32, Vec<[Option<(u8, u8)>; 2]>) =
        (250, vec![[None, Some((2, 10))], [Some((1, 0)), None]]);
    assert_eq!(encode_binary(&v), bincode::serialize(&plain).unwrap());
}

#[test]
fn binary_form_is_exact() {
    let v = sample(0x0102_0304, vec![vec![None, rec(2, 10)]]);
    assert_eq!(
        encode_binary(&v),
        vec![4, 3, 2, 1, 1, 0, 0, 0, 0, 0, 0, 0, 0, 1, 2, 10]
    );
}

#[test]
fn truncated_binary_is_malformed() {
    let v = sample(250, vec![vec![None, rec(2, 10)]]);
    let mut bytes = encode_binary(&v);
    bytes.pop();
    assert_eq!(decode_binary(&bytes, 2).unwrap_err(), DecodeError::MalformedInput);
    assert_eq!(decode_binary(&vec![1, 2, 3], 2).unwrap_err(), DecodeError::MalformedInput);
    let mut extra = encode_binary(&v);
    extra.push(0);
    assert_eq!(decode_binary(&extra, 2).unwrap_err(), DecodeError::MalformedInput);
}

#[test]
fn corrupt_text_is_malformed() {
    let r = decode_text(&b"{\"update_rate_ms\":250,\"frames\":[[nul]]}".to_vec(), 1);
    assert_eq!(r.unwrap_err(), DecodeError::MalformedInput);
    let r = decode_text(&b"{\"update_rate_ms\":250,\"frames\":[]".to_vec(), 1);
    assert_eq!(r.unwrap_err(), DecodeError::MalformedInput);
    let r = decode_text(&b"{\"update_rate_ms\":025,\"frames\":[]}".to_vec(), 1);
    assert_eq!(r.unwrap_err(), DecodeError::MalformedInput);
}

#[test]
fn out_of_range_text_number_is_type_mismatch() {
    let r = decode_text(
        &b"{\"update_rate_ms\":250,\"frames\":[[{\"driver_number\":300,\"led_num\":1}]]}".to_vec(),
        1,
    );
    assert_eq!(r.unwrap_err(), DecodeError::TypeMismatch);
    let r = decode_text(&b"{\"update_rate_ms\":4294967296,\"frames\":[]}".to_vec(), 1);
    assert_eq!(r.unwrap_err(), DecodeError::TypeMismatch);
}

#[test]
fn parse_field_follows_unsigned_rules() {
    assert_eq!(parse_field(&"0".to_string()), Some(0));
    assert_eq!(parse_field(&"255".to_string()), Some(255));
    assert_eq!(parse_field(&"+7".to_string()), Some(7));
    assert_eq!(parse_field(&"007".to_string()), Some(7));
    assert_eq!(parse_field(&"256".to_string()), None);
    assert_eq!(parse_field(&"".to_string()), None);
    assert_eq!(parse_field(&"+".to_string()), None);
    assert_eq!(parse_field(&"-1".to_string()), None);
    assert_eq!(parse_field(&" 1".to_string()), None);
    assert_eq!(parse_field(&"99999999999".to_string()), None);
}

#[test]
fn sequence_from_rows() {
    let rows = vec![row(&["0", "5", "9"]), row(&["1", "6"])];
    let v = build_sequence(&rows, 2, 250, Some(2), false).unwrap();
    assert_eq!(v.update_rate_ms, 250);
    assert_eq!(v.frames[0].frame, vec![rec(1, 5), rec(2, 9)]);
    assert_eq!(v.frames[1].frame, vec![rec(1, 6), None]);
}

#[test]
fn sequence_reports_first_failing_row() {
    let rows = vec![row(&["0", "5"]), row(&["1", "y"]), row(&["2", "1", "2", "3"])];
    let r = build_sequence(&rows, 2, 250, None, false);
    assert_eq!(r.unwrap_err(), ConvertError::ParseFailure { row: 1, column: 1 });
    let r = build_sequence(&rows, 2, 250, None, true);
    assert_eq!(r.unwrap_err(), ConvertError::ShapeMismatch { row: 2 });
}

#[test]
fn sequence_checks_expected_frame_count() {
    let rows = vec![row(&["0", "5"])];
    let r = build_sequence(&rows, 1, 250, Some(3), false);
    assert_eq!(r.unwrap_err(), ConvertError::FrameCountMismatch { expected: 3, found: 1 });
}

#[test]
fn consistency_of_both_artifacts() {
    let v = sample(250, vec![vec![None, rec(2, 10)]; 2]);
    let ok = check_consistency(&encode_text(&v), &encode_binary(&v), 2).unwrap();
    assert!(same_sequence(&ok, &v));
    let other = sample(251, vec![vec![None, rec(2, 10)]; 2]);
    let r = check_consistency(&encode_text(&v), &encode_binary(&other), 2);
    assert_eq!(r.unwrap_err(), ConsistencyError::Mismatch);
    let r = check_consistency(&vec![b'x'], &encode_binary(&v), 2);
    assert_eq!(r.unwrap_err(), ConsistencyError::Text(DecodeError::MalformedInput));
    let r = check_consistency(&encode_text(&v), &vec![0], 2);
    assert_eq!(r.unwrap_err(), ConsistencyError::Binary(DecodeError::MalformedInput));
}

#[test]
fn negative_text_numbers_are_type_mismatch() {
    let r = decode_text(
        &b"{\"update_rate_ms\":250,\"frames\":[[{\"driver_number\":-1,\"led_num\":1}]]}".to_vec(),
        1,
    );
    assert_eq!(r.unwrap_err(), DecodeError::TypeMismatch);
    let r = decode_text(
        &b"{\"update_rate_ms\":250,\"frames\":[[{\"driver_number\":1,\"led_num\":-5}]]}".to_vec(),
        1,
    );
    assert_eq!(r.unwrap_err(), DecodeError::TypeMismatch);
    let r = decode_text(&b"{\"update_rate_ms\":-1,\"frames\":[]}".to_vec(), 1);
    assert_eq!(r.unwrap_err(), DecodeError::TypeMismatch);
}

#[test]
fn lone_minus_sign_is_malformed() {
    let r = decode_text(
        &b"{\"update_rate_ms\":250,\"frames\":[[{\"driver_number\":-,\"led_num\":1}]]}".to_vec(),
        1,
    );
    assert_eq!(r.unwrap_err(), DecodeError::MalformedInput);
}

#[test]
fn hand_written_null_and_zero_record_decode_apart() {
    let t1 = b"{\"update_rate_ms\":9,\"frames\":[[null,null]]}".to_vec();
    let t2 = b"{\"update_rate_ms\":9,\"frames\":[[null,{\"driver_number\":0,\"led_num\":0}]]}".to_vec();
    let a = decode_text(&t1, 2).unwrap();
    let b = decode_text(&t2, 2).unwrap();
    assert_eq!(a.frames[0].frame[1], None);
    assert_eq!(b.frames[0].frame[1], rec(0, 0));
    assert!(!same_sequence(&a, &b));
    let b1 = vec![9, 0, 0, 0, 1, 0, 0, 0, 0, 0, 0, 0, 0, 0];
    let b2 = vec![9, 0, 0, 0, 1, 0, 0, 0, 0, 0, 0, 0, 0, 1, 0, 0];
    assert_eq!(decode_binary(&b1, 2).unwrap().frames[0].frame, vec![None, None]);
    assert_eq!(decode_binary(&b2, 2).unwrap().frames[0].frame, vec![None, rec(0, 0)]);
}

#[test]
fn decoders_check_expected_frame_count() {
    let v = sample(250, vec![vec![None, rec(2, 10)]; 3]);
    let t = encode_text(&v);
    let b = encode_binary(&v);
    assert_eq!(decode_text_expecting(&t, 2, Some(3)).unwrap().frames.len(), 3);
    assert_eq!(decode_binary_expecting(&b, 2, None).unwrap().frames.len(), 3);
    assert_eq!(
        decode_text_expecting(&t, 2, Some(4)).unwrap_err(),
        DecodeError::FrameCountMismatch { expected: 4, found: 3 }
    );
    assert_eq!(
        decode_binary_expecting(&b, 2, Some(2)).unwrap_err(),
        DecodeError::FrameCountMismatch { expected: 2, found: 3 }
    );
    assert_eq!(decode_binary_expecting(&vec![0], 2, Some(3)).unwrap_err(), DecodeError::MalformedInput);
}
