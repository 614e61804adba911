//! Checks of the library on concrete values: the laws the proofs state, the
//! edge cases the code handles, and each refusal.

use base64::Engine;
use brusdk::ble::{name_matches, NAME_PREFIX};
use brusdk::job::{encode, fragments, new_job_id, GrayPixels, JobParams, Raster};
use brusdk::printer::{job_result, print_step, PrintStep};
use brusdk::probes::{probes, render, ROWS};
use brusdk::proto::{
    frame, Message, Properties, PropertyEntry, Reassembler, Status, TextMap, PROP_BATTERY, PROP_FEED,
    PROP_JOB_STATUS, PROP_LAST_JOB_FAILED, PROP_READY, PROP_REMAINING_PCT, TOKEN,
};
use brusdk::request::{
    gray_from_buffer, plan_job, raster_preview, request_image, request_supply, Refusal, NOT_CONNECTED,
};
use brusdk::server::{
    battery_percent, busy_error, clipped, error_severity, one, outcome_after_sending, outcome_before_sending,
    HEAD_ROWS, SDK_DEFAULT_ROW,
};
use brusdk::supply::{canvas_rows, default_row, job_prefix, lookup, supplies, HEAD_MILS};
use brusdk::text::{parse_u32, trim};

fn entry(id: &str, value: &str) -> PropertyEntry {
    PropertyEntry { id: id.to_string(), value: value.to_string(), status: Some("Successful".to_string()) }
}

fn props(pairs: &[(&str, &str)]) -> Properties {
    let mut p: Properties = TextMap::new();
    p.record(Message { get_responses: pairs.iter().map(|(k, v)| entry(k, v)).collect() });
    p
}

fn png_base64(width: u32, height: u32, data: Vec<u8>) -> String {
    let img = image::GrayImage::from_raw(width, height, data).unwrap();
    let mut out = Vec::new();
    img.write_to(&mut std::io::Cursor::new(&mut out), image::ImageFormat::Png).unwrap();
    base64::engine::general_purpose::STANDARD.encode(&out)
}

#[test]
fn fragments_reassemble_to_the_job() {
    let job: Vec<u8> = (0..5000u32).map(|i| (i % 251) as u8).collect();
    let f = fragments(&job);
    assert_eq!(f.len(), 34);
    let mut joined = Vec::new();
    for (i, frag) in f.iter().enumerate() {
        let kind = if i == 33 { 3 } else if i % 16 == 15 { 2 } else { 1 };
        assert_eq!(frag[0], kind);
        assert_eq!(frag[1], i as u8);
        assert_eq!(frag[2], 0);
        assert!(frag.len() <= 151);
        joined.extend_from_slice(&frag[3..]);
    }
    assert_eq!(joined, job);
}

#[test]
fn sixteenth_fragment_is_kind_two() {
    let job = vec![7u8; 148 * 20];
    let f = fragments(&job);
    assert_eq!(f.len(), 20);
    assert_eq!(f[14][0], 1);
    assert_eq!(f[15][0], 2);
    assert_eq!(f[16][0], 1);
    assert_eq!(f[19][0], 3);
    assert_eq!(f[19].len(), 151);
}

#[test]
fn empty_job_has_no_fragments() {
    assert!(fragments(&[]).is_empty());
    let one_byte = fragments(&[9]);
    assert_eq!(one_byte, vec![vec![3, 0, 0, 9]]);
}

#[test]
fn frame_is_token_length_payload() {
    let f = frame(b"abc");
    assert_eq!(&f[..16], &TOKEN);
    assert_eq!(&f[16..20], &[3, 0, 0, 0]);
    assert_eq!(&f[20..], b"abc");
}

#[test]
fn framed_payload_comes_back_byte_by_byte() {
    let payload = br#"{"PropertyGetResponses":[{"ID":"0029","Value":"x:Successful"}]}"#;
    let framed = frame(payload);
    let mut r = Reassembler::new();
    let mut got = Vec::new();
    for b in &framed {
        got.extend(r.push(&[*b]));
    }
    assert_eq!(got.len(), 1);
    assert_eq!(got[0].as_ref().unwrap(), &payload.to_vec());
}

#[test]
fn split_points_do_not_change_what_comes_out() {
    let mut stream = frame(b"first");
    stream.extend(frame(b""));
    stream.extend(frame(b"third one"));
    let mut whole = Reassembler::new();
    let all = whole.push(&stream);
    assert_eq!(all.len(), 3);
    for cut in 0..=stream.len() {
        let mut r = Reassembler::new();
        let mut got = r.push(&stream[..cut]);
        got.extend(r.push(&stream[cut..]));
        assert_eq!(got, all);
    }
    assert_eq!(all[0].as_ref().unwrap(), b"first");
    assert!(all[1].as_ref().unwrap().is_empty());
    assert_eq!(all[2].as_ref().unwrap(), b"third one");
}

#[test]
fn foreign_token_is_reported_before_its_payload() {
    let mut msg: Vec<u8> = (0u8..16).collect();
    msg.extend_from_slice(&2u32.to_le_bytes());
    msg.extend_from_slice(b"ok");
    let mut r = Reassembler::new();
    let out = r.push(&msg);
    assert_eq!(out.len(), 2);
    assert_eq!(out[0].as_ref().unwrap_err(), "unexpected token 000102030405060708090a0b0c0d0e0f");
    assert_eq!(out[1].as_ref().unwrap(), b"ok");
}

#[test]
fn incomplete_message_waits() {
    let framed = frame(b"hello");
    let mut r = Reassembler::new();
    assert!(r.push(&framed[..19]).is_empty());
    assert!(r.push(&framed[19..24]).is_empty());
    let out = r.push(&framed[24..]);
    assert_eq!(out.len(), 1);
}

#[test]
fn parse_u32_like_std() {
    assert_eq!(parse_u32("90"), Some(90));
    assert_eq!(parse_u32("+7"), Some(7));
    assert_eq!(parse_u32("007"), Some(7));
    assert_eq!(parse_u32("4294967295"), Some(u32::MAX));
    assert_eq!(parse_u32("4294967296"), None);
    assert_eq!(parse_u32(""), None);
    assert_eq!(parse_u32("+"), None);
    assert_eq!(parse_u32("-1"), None);
    assert_eq!(parse_u32(" 5"), None);
    assert_eq!(parse_u32("5%"), None);
}

#[test]
fn trim_removes_unicode_whitespace() {
    assert_eq!(trim(" \t\r\n abc d \u{3000}\u{a0}"), "abc d");
    assert_eq!(trim("  \n "), "");
    assert_eq!(trim("x"), "x");
    assert_eq!(trim("\u{2028}é\u{85}"), "é");
}

#[test]
fn text_map_keeps_one_value_per_key() {
    let mut m: TextMap<u32> = TextMap::new();
    assert_eq!(m.len(), 0);
    assert_eq!(m.get("a"), None);
    m.insert("a".to_string(), 1);
    m.insert("b".to_string(), 2);
    m.insert("a".to_string(), 3);
    assert_eq!(m.len(), 2);
    assert_eq!(m.get("a"), Some(&3));
    assert_eq!(m.get("b"), Some(&2));
    assert_eq!(m.get("c"), None);
    assert_eq!(m.entries().len(), 2);
}

#[test]
fn later_entries_of_a_message_win() {
    let p = props(&[("0016", "80"), ("0016", "90"), ("0001", "High")]);
    assert_eq!(p.len(), 2);
    assert_eq!(p.get(PROP_REMAINING_PCT).map(|s| s.as_str()), Some("90"));
    assert_eq!(p.get(PROP_BATTERY).map(|s| s.as_str()), Some("High"));
}

#[test]
fn status_from_properties() {
    let p = props(&[
        ("0020", "1.2.3"),
        ("004D", "5073028"),
        ("000C", "355"),
        ("0016", "42"),
        ("0001", "High"),
        ("0009", "True"),
        ("0029", ""),
        ("001F", "False"),
        ("0066", "True"),
        ("0061", "False"),
        ("005A", "true"),
    ]);
    let s = Status::from_props(&p);
    assert_eq!(s.firmware_version.as_deref(), Some("1.2.3"));
    assert_eq!(s.supply_part_number.as_deref(), Some("5073028"));
    assert_eq!(s.supply_width_mils.as_deref(), Some("355"));
    assert_eq!(s.supply_remaining_pct, Some(42));
    assert_eq!(s.battery.as_deref(), Some("High"));
    assert!(s.last_job_failed);
    assert_eq!(s.last_job_status, None);
    assert_eq!(s.ready, Some(false));
    assert_eq!(s.flags.len(), 2);
    assert_eq!(s.flags.get("0066"), Some(&true));
    assert_eq!(s.flags.get("0061"), Some(&false));
    assert_eq!(s.flags.get(PROP_READY), None);
    assert_eq!(s.flags.get(PROP_LAST_JOB_FAILED), None);
    assert_eq!(s.flags.get("005A"), None);
}

#[test]
fn status_of_no_properties() {
    let s = Status::from_props(&TextMap::new());
    assert_eq!(s.firmware_version, None);
    assert_eq!(s.supply_remaining_pct, None);
    assert!(!s.last_job_failed);
    assert_eq!(s.ready, None);
    assert_eq!(s.flags.len(), 0);
    let s = Status::from_props(&props(&[("0016", "n/a"), ("0029", "abc:Successful")]));
    assert_eq!(s.supply_remaining_pct, None);
    assert_eq!(s.last_job_status.as_deref(), Some("abc:Successful"));
}

#[test]
fn supply_table_lookup() {
    let s = lookup("5073028").unwrap();
    assert_eq!(s.name, "M4C-250-7641-YL");
    assert_eq!(s.width_mils, 355);
    assert!(!s.die_cut);
    assert_eq!(lookup("5153508").unwrap().name, "M5C-1500-595-WT-BK");
    assert!(lookup("").is_none());
    assert!(lookup("515350").is_none());
    assert_eq!(supplies().len(), 6);
}

#[test]
fn canvas_and_default_rows() {
    assert_eq!(canvas_rows(1500), 450);
    assert_eq!(canvas_rows(355), 106);
    assert_eq!(canvas_rows(0), 0);
    assert_eq!(default_row(1500), 36);
    assert_eq!(default_row(355), 0);
    assert_eq!(default_row(HEAD_MILS), 0);
    assert_eq!(default_row(1441), 1);
    assert_eq!(default_row(u32::MAX), i32::MAX);
}

#[test]
fn job_prefix_takes_ten_characters() {
    assert_eq!(job_prefix("M5C-1500-595-WT-BK"), "M5C-1500-5");
    assert_eq!(job_prefix("M4C-250-7641-YL"), "M4C-250-76");
    assert_eq!(job_prefix("short"), "short");
    assert_eq!(job_prefix("ääääääääääää"), "ääääääääää");
}

#[test]
fn raster_set_get_and_ink_rows() {
    let mut r = Raster::new(4, 10);
    assert_eq!(r.ink_rows(), None);
    assert!(!r.get(3, 9));
    r.set(3, 9, true);
    r.set(0, 2, true);
    r.set(1, 5, true);
    r.set(1, 5, false);
    assert!(r.get(3, 9));
    assert!(!r.get(1, 5));
    assert_eq!(r.ink_rows(), Some((2, 9)));
    let img = r.to_image();
    assert_eq!((img.width, img.height), (4, 10));
    assert_eq!(img.data.len(), 40);
    assert_eq!(img.data[2 * 4], 0);
    assert_eq!(img.data[9 * 4 + 3], 0);
    assert_eq!(img.data.iter().filter(|v| **v == 0).count(), 2);
    assert!(img.data.iter().all(|v| *v == 0 || *v == 255));
}

#[test]
fn place_shifts_and_drops() {
    let img = GrayPixels { width: 3, height: 2, data: vec![0, 200, 127, 128, 5, 255] };
    let r = Raster::place(&img, 4, 1, 1);
    assert_eq!((r.cols, r.rows), (3, 4));
    assert!(r.get(1, 1));
    assert!(!r.get(2, 1));
    assert!(r.get(2, 2));
    assert!(!r.get(0, 0));
    assert_eq!(r.ink_rows(), Some((1, 2)));
    let r = Raster::place(&img, 2, -1, -1);
    assert!(r.get(0, 0));
    assert!(!r.get(1, 0));
    assert_eq!(r.ink_rows(), Some((0, 0)));
    let r = Raster::from_gray(&img, 1);
    assert!(r.get(0, 0));
    assert!(r.get(2, 0));
    assert!(!r.get(1, 0));
}

#[test]
fn copies_repeat_the_label_block() {
    let img = GrayPixels { width: 2, height: 8, data: vec![0; 16] };
    let r = Raster::from_gray(&img, 8);
    let mut p = JobParams::new("0123456789abcdef0123456789abcdef".to_string(), "M5C-1500-5".to_string());
    let one_copy = encode(&p, &r).len();
    p.copies = 3;
    let three = encode(&p, &r);
    let block = three.len() - one_copy;
    assert_eq!(block % 2, 0);
    assert!(three.ends_with(b"\x02a\x02G\x02A\x02K\x00\x0b"));
    assert_eq!(three.windows(4).filter(|w| *w == b"\x02G\x02A").count(), 3);
}

#[test]
fn fresh_job_ids_are_uuid_v4() {
    let a = new_job_id();
    let b = new_job_id();
    for id in [&a, &b] {
        assert_eq!(id.len(), 32);
        assert!(id.chars().all(|c| c.is_ascii_digit() || ('a'..='f').contains(&c)));
        assert_eq!(id.as_bytes()[12], b'4');
        assert!(b"89ab".contains(&id.as_bytes()[16]));
    }
    assert_ne!(a, b);
}

#[test]
fn probe_list_and_render() {
    let ps = probes(64);
    let names: Vec<&str> = ps.iter().map(|p| p.name.as_str()).collect();
    assert_eq!(
        names,
        vec![
            "white-64", "dot-r0c0-64", "dot-r1c0-64", "dot-r0c1-64", "dot-r8c0-64", "dot-r431cLast-64", "col5-64",
            "row100-64", "altrows-64", "band-r100-200-64", "checker-64", "corners-m2-64", "corners-m1-64",
            "corners-p1-64",
        ]
    );
    assert_eq!(ps[11].width, 62);
    assert_eq!(ps[13].width, 65);
    let img = render(&ps[5]);
    assert_eq!((img.width, img.height), (64, ROWS));
    assert_eq!(img.data[431 * 64 + 63], 0);
    assert_eq!(img.data.iter().filter(|v| **v == 0).count(), 1);
    let corners = render(&ps[13]);
    assert_eq!(corners.data[0], 0);
    assert_eq!(corners.data[431 * 65 + 64], 0);
    let band = render(&ps[9]);
    assert_eq!(band.data.iter().filter(|v| **v == 0).count(), 100 * 64);
}

#[test]
fn job_status_answers_only_its_job() {
    let r = job_result("abc", "abc:Successful", 500, 4).unwrap();
    assert!(r.ok);
    assert_eq!((r.job_id.as_str(), r.status.as_str(), r.bytes, r.fragments), ("abc", "abc:Successful", 500, 4));
    let r = job_result("abc", "abc:Failed", 1, 1).unwrap();
    assert!(!r.ok);
    assert!(job_result("abc", "abd:Successful", 1, 1).is_none());
    assert!(job_result("abc", "abc", 1, 1).is_none());
    assert!(!job_result("abc", "abc:Successful ", 1, 1).unwrap().ok);
    assert!(matches!(print_step("abc", "abc:Successful", 1, 1, false), PrintStep::Answered(r) if r.ok));
    assert!(matches!(print_step("abc", "", 1, 1, true), PrintStep::Wait));
    assert!(matches!(print_step("abc", "", 1, 1, false), PrintStep::TimedOut));
    assert_eq!(PROP_JOB_STATUS, "0029");
}

#[test]
fn advertised_names() {
    assert!(name_matches(Some("M511-1234"), NAME_PREFIX));
    assert!(name_matches(Some("M511"), NAME_PREFIX));
    assert!(!name_matches(Some("M51"), NAME_PREFIX));
    assert!(!name_matches(Some("xM511"), NAME_PREFIX));
    assert!(!name_matches(None, NAME_PREFIX));
}

#[test]
fn server_decisions() {
    assert_eq!(battery_percent(Some("High")), Some(100));
    assert_eq!(battery_percent(Some("Low")), None);
    assert_eq!(battery_percent(None), None);
    assert_eq!(busy_error(Some("printing")).as_deref(), Some("printer is busy (printing)"));
    assert_eq!(busy_error(None), None);
    assert!(clipped(Some((0, HEAD_ROWS))));
    assert!(!clipped(Some((0, HEAD_ROWS - 1))));
    assert!(!clipped(None));
    assert_eq!(error_severity(true), "Error");
    assert_eq!(error_severity(false), "");
    assert_eq!(one(), 1);
    assert_eq!(PROP_FEED, "0007");
}

#[test]
fn print_request_outcomes() {
    let dry = outcome_before_sending(true, None).unwrap();
    assert!(dry.ok && dry.error.is_none() && dry.message.is_none());
    let blank = outcome_before_sending(false, None).unwrap();
    assert!(!blank.ok);
    assert_eq!(
        blank.error.as_deref(),
        Some("nothing to print: the raster is blank (the printer rejects blank jobs)")
    );
    assert!(outcome_before_sending(false, Some((0, 3))).is_none());
    let res = job_result("j", "j:Failed", 10, 1).unwrap();
    let failed = outcome_after_sending(Ok(res));
    assert!(!failed.ok);
    assert_eq!(failed.error.as_deref(), Some("j:Failed"));
    assert_eq!(failed.message.as_deref(), Some("j:Failed"));
    let res = job_result("j", "j:Successful", 10, 1).unwrap();
    let done = outcome_after_sending(Ok(res));
    assert!(done.ok && done.error.is_none());
    let lost = outcome_after_sending(Err("write job fragment".to_string()));
    assert!(!lost.ok && lost.message.is_none());
    assert_eq!(lost.error.as_deref(), Some("write job fragment"));
}

#[test]
fn request_image_decodes_trimmed_base64_png() {
    let text = format!("  {}\n", png_base64(3, 2, vec![0, 100, 200, 255, 127, 128]));
    let g = request_image(&text).unwrap();
    assert_eq!((g.width, g.height), (3, 2));
    assert_eq!(g.data, vec![0, 100, 200, 255, 127, 128]);
}

#[test]
fn request_image_refusals() {
    let e = request_image("not base64!").unwrap_err();
    assert!(e.starts_with("pngBase64: "), "{e}");
    assert!(e.len() > "pngBase64: ".len());
    let e = request_image(&base64::engine::general_purpose::STANDARD.encode(b"plain text")).unwrap_err();
    assert!(e.starts_with("png: "), "{e}");
}

#[test]
fn gray_buffer_keeps_one_value_per_pixel() {
    let g = gray_from_buffer(2, 2, vec![1, 2, 3, 4, 5, 6]);
    assert_eq!(g.data, vec![1, 2, 3, 4]);
    let g = gray_from_buffer(0, 5, vec![9]);
    assert!(g.data.is_empty());
}

#[test]
fn supply_of_a_request() {
    let s = request_supply(true, Some("5073028"), false).unwrap();
    assert_eq!(s.width_mils, 355);
    match request_supply(true, Some("999"), true) {
        Err(Refusal::UnknownSupply(p)) => assert_eq!(p, "999"),
        other => panic!("{other:?}"),
    }
    match request_supply(true, None, false) {
        Err(Refusal::UnknownSupply(p)) => assert_eq!(p, ""),
        other => panic!("{other:?}"),
    }
    assert_eq!(request_supply(false, Some("5073028"), true).unwrap().part_number, "5153508");
    assert!(matches!(request_supply(false, None, false), Err(Refusal::NotConnected)));
    assert!(NOT_CONNECTED.starts_with("printer not connected"));
}

#[test]
fn plan_lays_the_image_out() {
    let img = GrayPixels { width: 2, height: 2, data: vec![0, 255, 255, 0] };
    let supply = lookup("5073028").unwrap();
    let plan = plan_job(&img, supply, 1, -36, 0, 2, "id".to_string());
    assert_eq!((plan.raster.cols, plan.raster.rows), (2, 106));
    assert!(plan.raster.get(1, 0));
    assert!(!plan.raster.get(0, 0));
    assert_eq!(plan.raster.ink_rows(), Some((0, 0)));
    assert_eq!(plan.params.copies, 1);
    assert_eq!(plan.params.cut, 2);
    assert_eq!(plan.params.supply_prefix, "M4C-250-76");
    assert_eq!(plan.params.job_id, "id");
    let plan = plan_job(&img, supply, 0, 0, 4, 0, "id".to_string());
    assert!(plan.raster.get(0, SDK_DEFAULT_ROW as u32));
    assert!(plan.raster.get(1, SDK_DEFAULT_ROW as u32 + 1));
    assert_eq!(plan.params.copies, 4);
}

#[test]
fn preview_is_the_raster_as_png() {
    let mut r = Raster::new(3, 2);
    r.set(2, 1, true);
    let text = raster_preview(&r).unwrap();
    assert!(text.starts_with("iVBORw0KGgo"));
    let png = base64::engine::general_purpose::STANDARD.decode(&text).unwrap();
    let back = image::load_from_memory(&png).unwrap().to_luma8();
    assert_eq!(back.dimensions(), (3, 2));
    assert_eq!(back.into_raw(), vec![255, 255, 255, 255, 255, 0]);
}

/// Reads one column's wire form back into `rows` pixels: `80 n` and packed
/// bytes, or `81 n` and run bytes (bit 7 the colour, bits 0-6 the length - 1).
fn decode_column(wire: &[u8], rows: usize) -> (Vec<bool>, usize) {
    let n = wire[1] as usize;
    let payload = &wire[2..2 + n];
    let mut bits = Vec::new();
    if wire[0] == 0x80 {
        for b in payload {
            for k in 0..8 {
                bits.push(b & (0x80 >> k) != 0);
            }
        }
    } else {
        assert_eq!(wire[0], 0x81);
        for b in payload {
            let len = (b & 0x7f) as usize + 1;
            bits.extend(std::iter::repeat(b & 0x80 != 0).take(len));
        }
    }
    bits.resize(rows, false);
    (bits, 2 + n)
}

fn column_wire(pixels: &[bool]) -> Vec<u8> {
    let rows = pixels.len() as u32;
    let mut r = Raster::new(1, rows);
    for (y, b) in pixels.iter().enumerate() {
        r.set(0, y as u32, *b);
    }
    let p = JobParams::new("0123456789abcdef0123456789abcdef".to_string(), "M5C-1500-5".to_string());
    let job = encode(&p, &r);
    let marker = b"\x02IBUlbl0\x0d\x58\x00\x00\x59\x00\x00";
    let start = job.windows(marker.len()).position(|w| w == marker).unwrap() + marker.len();
    job[start..].to_vec()
}

#[test]
fn columns_decode_to_their_pixels() {
    let patterns: Vec<Vec<bool>> = vec![
        (0..40).map(|y| !(10..12).contains(&y)).collect(),
        (0..40).map(|y| y % 2 == 0).collect(),
        vec![true; 300],
        (0..450).map(|y| y == 449).collect(),
        (0..17).map(|y| y < 3).collect(),
    ];
    for pixels in patterns {
        let wire = column_wire(&pixels);
        let (bits, used) = decode_column(&wire, pixels.len());
        assert_eq!(bits, pixels);
        assert_eq!(&wire[used..], b"\xff\xff\x0d\x02a\x02G\x02A\x02K\x00\x0b");
    }
    let mut runs_form = column_wire(&vec![true; 300]);
    runs_form.truncate(5);
    assert_eq!(runs_form, vec![0x81, 3, 0xff, 0xff, 0xab]);
}

#[test]
fn entries_come_in_key_order() {
    let mut m: TextMap<u32> = TextMap::new();
    for (i, k) in ["b", "0029", "a", "001F", "0016", "é", "ab", "0016"].iter().enumerate() {
        m.insert(k.to_string(), i as u32);
    }
    let keys: Vec<&str> = m.entries().iter().map(|(k, _)| k.as_str()).collect();
    assert_eq!(keys, vec!["0016", "001F", "0029", "a", "ab", "b", "é"]);
    assert_eq!(m.get("0016"), Some(&7));
    let s = Status::from_props(&props(&[("0066", "True"), ("0006", "False"), ("0021", "True")]));
    let flags: Vec<&str> = s.flags.entries().iter().map(|(k, _)| k.as_str()).collect();
    assert_eq!(flags, vec!["0006", "0021", "0066"]);
}

#[test]
fn zero_copies_is_one_copy_with_copies_field_zero() {
    let img = GrayPixels { width: 3, height: 8, data: (0..24).map(|i| if i % 5 == 0 { 0 } else { 255 }).collect() };
    let r = Raster::from_gray(&img, 8);
    let mut p = JobParams::new("0123456789abcdef0123456789abcdef".to_string(), "M5C-1500-5".to_string());
    p.copies = 0;
    let zero = encode(&p, &r);
    p.copies = 1;
    let one_copy = encode(&p, &r);
    assert_eq!(zero.len(), one_copy.len());
    let diff: Vec<usize> = (0..zero.len()).filter(|i| zero[*i] != one_copy[*i]).collect();
    assert_eq!(diff.len(), 1);
    let i = diff[0];
    assert_eq!(&zero[i - 6..=i], b"\x02C+0000");
    assert_eq!(&one_copy[i - 6..=i], b"\x02C+0001");
}

#[test]
fn pixels_read_as_last_written() {
    let mut r = Raster::new(5, 4);
    let writes = [(1, 1, true), (4, 3, true), (1, 1, false), (2, 0, true), (4, 3, true), (2, 0, false), (2, 0, true)];
    for (x, y, b) in writes {
        r.set(x, y, b);
    }
    for y in 0..4 {
        for x in 0..5 {
            let last = writes.iter().rev().find(|(wx, wy, _)| *wx == x && *wy == y).map(|w| w.2).unwrap_or(false);
            assert_eq!(r.get(x, y), last);
        }
    }
}

/// Reads a raster section back: wire column index to its pixels.
fn read_section(s: &[u8], rows: usize) -> std::collections::BTreeMap<usize, Vec<bool>> {
    assert_eq!(&s[..3], &[0x58, 0, 0]);
    let mut i = 3;
    let mut cursor = 0;
    let mut out = std::collections::BTreeMap::new();
    loop {
        match s[i] {
            0x59 => {
                cursor = s[i + 1] as usize + 256 * s[i + 2] as usize;
                i += 3;
            }
            0x80 | 0x81 => {
                let (bits, used) = decode_column(&s[i..], rows);
                out.insert(cursor, bits);
                cursor += 1;
                i += used;
            }
            _ => break,
        }
    }
    assert_eq!(&s[i..i + 3], &[0xff, 0xff, 0x0d]);
    out
}

#[test]
fn raster_section_gives_back_every_inked_column() {
    let (cols, rows) = (7u32, 20u32);
    let mut r = Raster::new(cols, rows);
    for (x, y) in [(0, 0), (0, 19), (2, 5), (2, 6), (3, 1), (6, 10)] {
        r.set(x, y, true);
    }
    let p = JobParams::new("0123456789abcdef0123456789abcdef".to_string(), "M5C-1500-5".to_string());
    let job = encode(&p, &r);
    let marker = b"\x02IBUlbl0\x0d";
    let start = job.windows(marker.len()).position(|w| w == marker).unwrap() + marker.len();
    let got = read_section(&job[start..], rows as usize);
    let mut expected = std::collections::BTreeMap::new();
    for y in 0..cols {
        let x = cols - 1 - y;
        let bits: Vec<bool> = (0..rows).map(|row| r.get(x, row)).collect();
        if bits.iter().any(|b| *b) {
            expected.insert(y as usize, bits);
        }
    }
    assert_eq!(got, expected);
    assert_eq!(got.keys().copied().collect::<Vec<_>>(), vec![0, 3, 4, 6]);
}

#[test]
fn base64_must_be_canonical() {
    let png = png_base64(1, 1, vec![0]);
    assert!(request_image(&png).is_ok());
    assert!(request_image(png.trim_end_matches('=')).unwrap_err().starts_with("pngBase64: "));
    assert!(request_image("QR==").unwrap_err().starts_with("pngBase64: "));
    assert!(request_image("QQ==").unwrap_err().starts_with("png: "));
    assert!(request_image("").unwrap_err().starts_with("png: "));
}
