use safari_stats::camera_codec::{decode_mapping, encode_mapping, DecodeError};
use safari_stats::camera_mapping::CameraBestAvgPicsMapping;
use safari_stats::camera_top::CameraBestAvgPics;
use safari_stats::parsing::{hex_value, parse_byte, parse_log, parse_record_line, parse_uuid};
use safari_stats::record::Record;
use safari_stats::text::{hex_digit, push_decimal, push_uuid};
use safari_stats::writing::{camera_records, needs_flush, row_line, CameraBestAvgPicsRecord};

fn uuid_line(id: u128) -> String {
    let mut text = String::new();
    push_uuid(&mut text, id);
    text
}

#[test]
fn identifiers_are_written_like_uuids() {
    for id in [0u128, 1, 42, 0x0123456789abcdef0123456789abcdef, u128::MAX, 1 << 127, 0xfedcba9876543210] {
        assert_eq!(uuid_line(id), uuid::Uuid::from_u128(id).to_string());
    }
    let mut text = "x".to_string();
    push_uuid(&mut text, 255);
    assert_eq!(text, "x00000000-0000-0000-0000-0000000000ff");
}

#[test]
fn identifiers_are_read_like_uuids() {
    for id in [0u128, 1, 42, 0x0123456789abcdef0123456789abcdef, u128::MAX, 1 << 127] {
        let text = uuid::Uuid::from_u128(id).to_string();
        assert_eq!(parse_uuid(text.as_bytes(), 0), Some(id));
        let upper = text.to_uppercase();
        assert_eq!(parse_uuid(upper.as_bytes(), 0), Some(id));
    }
    let padded = b"..00000000-0000-0000-0000-00000000002a..";
    assert_eq!(parse_uuid(padded, 2), Some(42));
    assert_eq!(parse_uuid(b"00000000-0000-0000-0000-00000000002g", 0), None);
    assert_eq!(parse_uuid(b"00000000+0000-0000-0000-00000000002a", 0), None);
    assert_eq!(parse_uuid(b"000000000-000-0000-0000-00000000002a", 0), None);
    assert_eq!(parse_uuid(b"0000000000000000000000000000002a....", 0), None);
}

#[test]
fn digits() {
    assert_eq!(hex_digit(0), '0');
    assert_eq!(hex_digit(9), '9');
    assert_eq!(hex_digit(10), 'a');
    assert_eq!(hex_digit(15), 'f');
    assert_eq!(hex_value(b'0'), Some(0));
    assert_eq!(hex_value(b'9'), Some(9));
    assert_eq!(hex_value(b'a'), Some(10));
    assert_eq!(hex_value(b'F'), Some(15));
    assert_eq!(hex_value(b'g'), None);
    assert_eq!(hex_value(b'-'), None);
    for n in [0u8, 7, 9, 10, 42, 99, 100, 101, 200, 255] {
        let mut text = String::new();
        push_decimal(&mut text, n);
        assert_eq!(text, n.to_string());
        assert_eq!(parse_byte(text.as_bytes(), 0, text.len()), Some(n));
    }
    assert_eq!(parse_byte(b"007", 0, 3), Some(7));
    assert_eq!(parse_byte(b"256", 0, 3), None);
    assert_eq!(parse_byte(b"99999999999999999999999", 0, 23), None);
    assert_eq!(parse_byte(b"", 0, 0), None);
    assert_eq!(parse_byte(b"+5", 0, 2), None);
    assert_eq!(parse_byte(b"5 ", 0, 2), None);
    assert_eq!(parse_byte(b"a12b", 1, 3), Some(12));
}

#[test]
fn a_row_is_read_from_a_line() {
    let line = b"00000000-0000-0000-0000-000000000001,00000000-0000-0000-0000-000000000002,7,3";
    assert_eq!(
        parse_record_line(line),
        Some(Record { user_id: 1, session_id: 2, camera_id: 7, nb_pics: 3 })
    );
    let line = b"ffffffff-ffff-ffff-ffff-ffffffffffff,00000000-0000-0000-0000-0000000000ff,255,0";
    assert_eq!(
        parse_record_line(line),
        Some(Record { user_id: u128::MAX, session_id: 255, camera_id: 255, nb_pics: 0 })
    );
}

#[test]
fn what_is_no_row_is_passed_over() {
    let u = "00000000-0000-0000-0000-000000000001";
    let s = "00000000-0000-0000-0000-000000000002";
    let bad = [
        "This row is corrupted".to_string(),
        "garbage".to_string(),
        String::new(),
        format!("{},{},7", u, s),
        format!("{},{},7,", u, s),
        format!("{},{},,3", u, s),
        format!("{},{},7,3,1", u, s),
        format!("{},{},256,3", u, s),
        format!("{},{},7,300", u, s),
        format!("{},{},-7,3", u, s),
        format!("{},{},7,3 ", u, s),
        format!("{} {},7,3", u, s),
        format!("{}x,{},7,3", u, s),
        format!("{},{}7,3", u, s),
        format!("{},{},7;3", u, s),
    ];
    for line in bad.iter() {
        assert_eq!(parse_record_line(line.as_bytes()), None);
    }
}

#[test]
fn a_written_row_is_read_back() {
    for row in [
        Record { user_id: 1, session_id: 2, camera_id: 3, nb_pics: 4 },
        Record { user_id: u128::MAX, session_id: 0, camera_id: 255, nb_pics: 0 },
        Record { user_id: 0xabcdef, session_id: 1 << 100, camera_id: 100, nb_pics: 10 },
    ] {
        let line = row_line(&row);
        assert_eq!(parse_record_line(line.as_bytes()), Some(row));
    }
    assert_eq!(
        row_line(&Record { user_id: 1, session_id: 2, camera_id: 3, nb_pics: 4 }),
        "00000000-0000-0000-0000-000000000001,00000000-0000-0000-0000-000000000002,3,4"
    );
}

#[test]
fn malformed_row_tolerance() {
    let mut clean = String::new();
    let mut dirty = String::new();
    for i in 0..1000u32 {
        let row = Record {
            user_id: (i % 50 + 1) as u128,
            session_id: (i / 4) as u128,
            camera_id: (i % 7) as u8,
            nb_pics: (i % 6) as u8,
        };
        let line = row_line(&row);
        clean.push_str(&line);
        clean.push('\n');
        dirty.push_str(&line);
        dirty.push('\n');
        if i == 0 || i == 500 || i == 999 {
            dirty.push_str("garbage\n");
        }
    }
    let rows = parse_log(clean.as_bytes());
    assert_eq!(rows.len(), 1000);
    assert_eq!(parse_log(dirty.as_bytes()), rows);
    let mut first = String::from("garbage\n");
    first.push_str(&clean);
    assert_eq!(parse_log(first.as_bytes()), rows);
}

#[test]
fn lines_of_a_log() {
    let a = "00000000-0000-0000-0000-000000000001,00000000-0000-0000-0000-000000000002,7,3";
    let b = "00000000-0000-0000-0000-000000000003,00000000-0000-0000-0000-000000000004,1,0";
    let ra = Record { user_id: 1, session_id: 2, camera_id: 7, nb_pics: 3 };
    let rb = Record { user_id: 3, session_id: 4, camera_id: 1, nb_pics: 0 };
    assert_eq!(parse_log(format!("{}\n{}\n", a, b).as_bytes()), vec![ra, rb]);
    assert_eq!(parse_log(format!("{}\r\n{}", a, b).as_bytes()), vec![ra, rb]);
    assert_eq!(parse_log(format!("\n\n{}\n\n", a).as_bytes()), vec![ra]);
    assert_eq!(parse_log(format!("{}{}\n", a, b).as_bytes()), Vec::new());
    assert_eq!(parse_log(b""), Vec::new());
}

#[test]
fn flush_when_little_room_is_left() {
    assert!(!needs_flush(400_000, 0, 4000));
    assert!(!needs_flush(400_000, 396_000, 4000));
    assert!(needs_flush(400_000, 396_001, 4000));
    assert!(needs_flush(400_000, 400_000, 4000));
    assert!(needs_flush(10, 11, 0));
    assert!(!needs_flush(10, 10, 0));
}

#[test]
fn camera_line_format() {
    let mut board = CameraBestAvgPics::default();
    board.update_on_improvement(1, 4.0f32.to_bits());
    board.update_on_improvement(2, 2.5f32.to_bits());
    let record = CameraBestAvgPicsRecord::new(7, board);
    assert_eq!(record.camera_id(), 7);
    assert_eq!(record.sessions(), board.sessions());
    assert_eq!(record.avg_pics(), board.avg_pics());
    let texts: Vec<String> =
        record.avg_pics().iter().map(|b| format!("{}", f32::from_bits(*b))).collect();
    let line = record.to_line(&texts);
    let mut expected = String::from(
        "7|00000000-0000-0000-0000-000000000001:4,00000000-0000-0000-0000-000000000002:2.5,",
    );
    for _ in 2..100 {
        expected.push_str("00000000-0000-0000-0000-000000000000:0,");
    }
    assert_eq!(line, expected);
}

#[test]
fn cameras_are_written_in_ascending_order() {
    let mut mapping = CameraBestAvgPicsMapping::new();
    mapping.update_on_improvement(200, 1, 1.0f32.to_bits());
    mapping.update_on_improvement(3, 2, 2.0f32.to_bits());
    mapping.update_on_improvement(17, 3, 3.0f32.to_bits());
    let records = camera_records(&mapping);
    let ids: Vec<u8> = records.iter().map(|r| r.camera_id()).collect();
    assert_eq!(ids, vec![3, 17, 200]);
    assert_eq!(records[1].sessions()[0], 3);
    assert!(camera_records(&CameraBestAvgPicsMapping::new()).is_empty());
}

#[test]
fn stored_leaderboards_are_read_back() {
    let mut mapping = CameraBestAvgPicsMapping::new();
    for s in 1..=150u128 {
        mapping.update_on_improvement((s % 3) as u8 * 100, s << 64, ((s % 11) as f32 / 3.0).to_bits());
    }
    mapping.update_on_improvement(255, 9, 0.0f32.to_bits());
    let bytes = encode_mapping(&mapping);
    assert_eq!(bytes.len(), 2 + 4 * 2001);
    assert_eq!(bytes[..3], [0, 4, 0]);
    let back = decode_mapping(&bytes).unwrap();
    assert_eq!(back.camera_ids(), mapping.camera_ids());
    for id in mapping.camera_ids() {
        assert_eq!(back.get(id).unwrap().sessions(), mapping.get(id).unwrap().sessions());
        assert_eq!(back.get(id).unwrap().avg_pics(), mapping.get(id).unwrap().avg_pics());
    }
    let empty = encode_mapping(&CameraBestAvgPicsMapping::new());
    assert_eq!(empty, vec![0, 0]);
    assert!(decode_mapping(&empty).unwrap().camera_ids().is_empty());
}

#[test]
fn what_is_no_stored_form_is_refused() {
    let mut mapping = CameraBestAvgPicsMapping::new();
    mapping.update_on_improvement(5, 1, 2.0f32.to_bits());
    mapping.update_on_improvement(6, 2, 1.0f32.to_bits());
    let bytes = encode_mapping(&mapping);
    assert!(decode_mapping(&bytes).is_ok());
    assert_eq!(decode_mapping(&[]).err(), Some(DecodeError::Malformed));
    assert_eq!(decode_mapping(&[0]).err(), Some(DecodeError::Malformed));
    assert_eq!(decode_mapping(&bytes[..bytes.len() - 1]).err(), Some(DecodeError::Malformed));
    let mut more = bytes.clone();
    more.push(0);
    assert!(decode_mapping(&more).is_err());
    let mut count = bytes.clone();
    count[1] = 3;
    assert!(decode_mapping(&count).is_err());
    // the second camera is not above the first
    let mut order = bytes.clone();
    order[2 + 2001] = 5;
    assert!(decode_mapping(&order).is_err());
    // the second slot of the first camera holds a larger average than the first
    let mut slots = bytes.clone();
    slots[2 + 1 + 20 + 16] = 0x50;
    assert!(decode_mapping(&slots).is_err());
    // a slot holds what is no average
    let mut nan = bytes.clone();
    nan[2 + 1 + 16] = 0xff;
    assert!(decode_mapping(&nan).is_err());
}
