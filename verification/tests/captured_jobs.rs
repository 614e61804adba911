//! Byte-exact check of the encoder against the jobs captured from the SDK:
//! the probe images come from the probe generator, the expected bytes from
//! the recorded raster sections and job sizes of each capture session.

use brusdk::job::{encode, fragments, GrayPixels, JobParams, Raster};
use brusdk::probes::{probes, render};

/// The job id of the dot-r0c0-150 capture.
const JOB_ID: &str = "b8c4e834a8384349ad74f6ffdcc13f16";

fn probe_image(name: &str, w: u32) -> GrayPixels {
    let ps = probes(w);
    let p = ps.iter().find(|p| p.name == name).expect("probe");
    render(p)
}

fn dot_image(width: u32, height: u32) -> GrayPixels {
    let mut data = vec![255u8; (width * height) as usize];
    data[0] = 0;
    GrayPixels { width, height, data }
}

fn block(job_id: &str, header: Option<(&str, u32, u8)>, rows: u32, cols: u32, raster: &[u8]) -> Vec<u8> {
    let mut out = vec![0x02, b'K', 0x00, 0x0a];
    out.extend_from_slice(job_id.as_bytes());
    out.push(0x0d);
    if let Some((prefix, copies, cut)) = header {
        out.extend_from_slice(&[0x02, b'K', 0x00, 0x09]);
        out.extend_from_slice(prefix.as_bytes());
        out.push(0x0d);
        out.extend_from_slice(b"\x02D+0001");
        out.extend_from_slice(format!("\x02C+{:04}", copies).as_bytes());
        out.extend_from_slice(&[0x02, b'c', 0x00]);
        out.extend_from_slice(b"\x02p+00\x02o+00\x02O+00\x02b+00");
        out.extend_from_slice(&[0x02, b'M', cut]);
    }
    out.extend_from_slice(&[0x02, b'K', 0x00, 0x0c]);
    out.extend_from_slice(format!("{:04}{:04}", rows, cols).as_bytes());
    out.extend_from_slice(b"\x02A\x02Q\x02a\x02IBUlbl0\x0d");
    out.extend_from_slice(raster);
    out.extend_from_slice(b"\x02a\x02G\x02A\x02K\x00\x0b");
    out
}

fn raster_section(columns: &[u8]) -> Vec<u8> {
    let mut s = vec![0x58, 0, 0, 0x59, 0, 0];
    s.extend_from_slice(columns);
    s.extend_from_slice(&[0xff, 0xff, 0x0d]);
    s
}

fn expected_fragments(job: &[u8]) -> Vec<Vec<u8>> {
    let n = job.len().div_ceil(148);
    (0..n)
        .map(|i| {
            let kind = if i + 1 == n { 3 } else if i % 16 == 15 { 2 } else { 1 };
            let mut f = vec![kind, i as u8, 0];
            f.extend_from_slice(&job[i * 148..((i + 1) * 148).min(job.len())]);
            f
        })
        .collect()
}

fn check_job(params: JobParams, raster: &Raster, expected: Vec<u8>, len: usize, frags: usize) {
    let ours = encode(&params, raster);
    assert_eq!(ours, expected);
    assert_eq!(ours.len(), len);
    let f = fragments(&ours);
    assert_eq!(f.len(), frags);
    assert_eq!(f, expected_fragments(&expected));
}

fn check_s1(probe: &str, columns: Vec<u8>, len: usize, frags: usize) {
    let img = probe_image(probe, 150);
    let raster = Raster::place(&img, 450, 0, 0);
    let params = JobParams::new(JOB_ID.to_string(), "M5C-1500-5".to_string());
    let expected = block(JOB_ID, Some(("M5C-1500-5", 1, 0)), 450, 150, &raster_section(&columns));
    check_job(params, &raster, expected, len, frags);
}

fn repeat(unit: &[u8], n: usize) -> Vec<u8> {
    unit.iter().copied().cycle().take(unit.len() * n).collect()
}

#[test]
fn white_150() {
    check_s1("white-150", vec![], 138, 1);
}

#[test]
fn dot_r0c0_150() {
    check_s1("dot-r0c0-150", vec![0x59, 0x95, 0x00, 0x80, 0x01, 0x80], 144, 1);
}

#[test]
fn dot_r1c0_150() {
    check_s1("dot-r1c0-150", vec![0x59, 0x95, 0x00, 0x80, 0x01, 0x40], 144, 1);
}

#[test]
fn dot_r0c1_150() {
    check_s1("dot-r0c1-150", vec![0x59, 0x94, 0x00, 0x80, 0x01, 0x80, 0x59, 0x96, 0x00], 147, 1);
}

#[test]
fn dot_r8c0_150() {
    check_s1("dot-r8c0-150", vec![0x59, 0x95, 0x00, 0x80, 0x02, 0x00, 0x80], 145, 1);
}

#[test]
fn dot_r431clast_150() {
    check_s1("dot-r431cLast-150", vec![0x81, 0x05, 0x7f, 0x7f, 0x7f, 0x2e, 0x80, 0x59, 0x96, 0x00], 148, 1);
}

#[test]
fn col5_150() {
    check_s1("col5-150", vec![0x59, 0x90, 0x00, 0x81, 0x04, 0xff, 0xff, 0xff, 0xaf, 0x59, 0x96, 0x00], 150, 2);
}

#[test]
fn row100_150() {
    check_s1("row100-150", repeat(&[0x81, 0x02, 0x63, 0x80], 150), 738, 5);
}

#[test]
fn altrows_150() {
    let mut column = vec![0x80, 0x36];
    column.extend(std::iter::repeat(0xaa).take(54));
    check_s1("altrows-150", repeat(&column, 150), 8538, 58);
}

#[test]
fn band_r100_200_150() {
    check_s1("band-r100-200-150", repeat(&[0x81, 0x02, 0x63, 0xe3], 150), 738, 5);
}

#[test]
fn checker_150() {
    let mut odd = vec![0x80, 0x36];
    odd.extend(std::iter::repeat(0x55).take(54));
    let mut even = vec![0x80, 0x36];
    even.extend(std::iter::repeat(0xaa).take(54));
    let pair: Vec<u8> = odd.iter().chain(even.iter()).copied().collect();
    check_s1("checker-150", repeat(&pair, 75), 8538, 58);
}

fn dot_job(tweak: fn(JobParams) -> JobParams, col: i32, row: i32) -> (JobParams, Raster) {
    let img = probe_image("dot-r0c0-150", 150);
    let raster = Raster::place(&img, 450, col, row);
    (tweak(JobParams::new(JOB_ID.to_string(), "M5C-1500-5".to_string())), raster)
}

const DOT_COLUMN: [u8; 6] = [0x59, 0x95, 0x00, 0x80, 0x01, 0x80];

#[test]
fn s2_copies2() {
    let (params, raster) = dot_job(|mut p| {
        p.copies = 2;
        p
    }, 0, 0);
    let mut expected = block(JOB_ID, Some(("M5C-1500-5", 2, 0)), 450, 150, &raster_section(&DOT_COLUMN));
    expected.extend(block(JOB_ID, None, 450, 150, &raster_section(&DOT_COLUMN)));
    check_job(params, &raster, expected, 233, 2);
}

#[test]
fn s2_cut1() {
    let (params, raster) = dot_job(|mut p| {
        p.cut = 1;
        p
    }, 0, 0);
    let expected = block(JOB_ID, Some(("M5C-1500-5", 1, 1)), 450, 150, &raster_section(&DOT_COLUMN));
    check_job(params, &raster, expected, 144, 1);
}

#[test]
fn s2_cut2() {
    let (params, raster) = dot_job(|mut p| {
        p.cut = 2;
        p
    }, 0, 0);
    let expected = block(JOB_ID, Some(("M5C-1500-5", 1, 2)), 450, 150, &raster_section(&DOT_COLUMN));
    check_job(params, &raster, expected, 144, 1);
}

/// SDK x offset 0 (instead of -0.12 in) puts the image 36 rows down the canvas.
#[test]
fn s2_x0() {
    let (params, raster) = dot_job(|p| p, 0, 36);
    let columns = [0x59, 0x95, 0x00, 0x81, 0x02, 0x23, 0x80];
    let expected = block(JOB_ID, Some(("M5C-1500-5", 1, 0)), 450, 150, &raster_section(&columns));
    check_job(params, &raster, expected, 145, 1);
}

/// SDK y offset 0.1 in moves the image 30 columns along the tape.
#[test]
fn s2_y0_1() {
    let (params, raster) = dot_job(|p| p, 30, 0);
    let columns = [0x59, 0x77, 0x00, 0x80, 0x01, 0x80, 0x59, 0x96, 0x00];
    let expected = block(JOB_ID, Some(("M5C-1500-5", 1, 0)), 450, 150, &raster_section(&columns));
    check_job(params, &raster, expected, 147, 1);
}

#[test]
fn s2_corners_p1_150() {
    let img = probe_image("corners-p1-150", 150);
    assert_eq!(img.width, 151);
    let raster = Raster::place(&img, 450, 0, 0);
    let params = JobParams::new(JOB_ID.to_string(), "M5C-1500-5".to_string());
    let columns = [0x81, 0x05, 0x7f, 0x7f, 0x7f, 0x2e, 0x80, 0x59, 0x96, 0x00, 0x80, 0x01, 0x80];
    let expected = block(JOB_ID, Some(("M5C-1500-5", 1, 0)), 450, 151, &raster_section(&columns));
    check_job(params, &raster, expected, 151, 2);
}

/// Narrow supply (M4C-250-7641-YL, 0.355 in = 355 mils): the SDK's canvas is 149 x 106
/// (its own raster is the input here), height field 0106, dot at row 0 with a zero x
/// offset, supply prefix "M4C-250-76".
#[test]
fn s4_m4c_dot() {
    let img = dot_image(149, 106);
    let width_mils = 355;
    assert_eq!(brusdk::supply::canvas_rows(width_mils), 106);
    assert_eq!(brusdk::supply::default_row(width_mils), 0);
    assert_eq!(brusdk::supply::default_row(1500), 36);
    let raster = Raster::place(&img, brusdk::supply::canvas_rows(width_mils), 0, brusdk::supply::default_row(width_mils));
    let ours = encode(&JobParams::new(JOB_ID.to_string(), brusdk::supply::job_prefix("M4C-250-7641-YL")), &raster);
    let columns = [0x59, 0x94, 0x00, 0x80, 0x01, 0x80];
    let expected = block(JOB_ID, Some(("M4C-250-76", 1, 0)), 106, 149, &raster_section(&columns));
    assert_eq!(hex::encode(&ours), hex::encode(&expected));
}
