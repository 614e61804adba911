//! Print jobs: the 1-bit raster, its column encoding (literal bytes or run
//! lengths, whichever is shorter), the STX command stream around it, and the
//! split of a job into write fragments.

use vstd::prelude::*;
use vstd::string::*;
use vstd::utf8::encode_utf8;
use crate::wire::{decimal, le16, be16, padded_decimal, signed_decimal, push_all, push_padded_decimal, push_signed_decimal, le16_bytes, be16_bytes};
use crate::text::{push_str, digits_value, all_digits};

verus! {

fn column_bit(bytes: &[u8], y: u32) -> (b: bool)
    requires
        (y / 8) < bytes@.len(),
    ensures
        b == col_bit(bytes@, y as int),
{
    bytes[(y / 8) as usize] & (0x80u8 >> ((y % 8) as u8)) != 0
}

/// Encode one column: literal bytes with trailing zeros trimmed, or run lengths when strictly shorter.
fn encode_column(bytes: &[u8], rows: u32) -> (out: Vec<u8>)
    requires
        rows <= 8 * bytes@.len(),
    ensures
        out@ == column_encoding(bytes@, rows as nat),
{
    let mut lit_len: usize = bytes.len();
    assert(bytes@.take(lit_len as int) =~= bytes@);
    while lit_len > 0 && bytes[lit_len - 1] == 0
        invariant
            lit_len <= bytes@.len(),
            trimmed_len(bytes@.take(lit_len as int)) == trimmed_len(bytes@),
        decreases lit_len,
    {
        assert(bytes@.take(lit_len as int).drop_last() =~= bytes@.take(lit_len - 1));
        lit_len = lit_len - 1;
    }
    proof {
        if lit_len > 0 {
            assert(bytes@.take(lit_len as int).last() != 0);
        }
    }
    let ghost bits = unpack(bytes@, rows as nat);
    let mut runs_out: Vec<u8> = Vec::new();
    let mut y: u32 = 0;
    while y < rows
        invariant
            rows <= 8 * bytes@.len(),
            bits == unpack(bytes@, rows as nat),
            y <= rows,
            runs_out@ + runs_from(bits, y as nat) == runs(bits),
        decreases rows - y,
    {
        let black = column_bit(bytes, y);
        let start = y;
        while y < rows && column_bit(bytes, y) == black
            invariant
                rows <= 8 * bytes@.len(),
                bits == unpack(bytes@, rows as nat),
                start <= y <= rows,
                start < rows,
                bits[start as int] == black,
                run_len(bits, start as int, black) == (y - start) + run_len(bits, y as int, black),
            decreases rows - y,
        {
            proof {
                lemma_run_len_step(bits, y as int, black);
            }
            y = y + 1;
        }
        let ghost total = (y - start) as nat;
        assert(run_len(bits, y as int, black) == 0);
        proof {
            lemma_run_len_step(bits, start as int, black);
        }
        if black || y != rows {
            let mut len: u32 = y - start;
            let ghost base = runs_out@;
            while len > 0
                invariant
                    len <= total,
                    runs_out@ + run_chunks(black, len as nat) == base + run_chunks(black, total),
                decreases len,
            {
                let n: u32 = if len < 128 { len } else { 128 };
                let tag: u8 = if black { 0x80 } else { 0 };
                proof {
                    lemma_run_byte_tag(black, n as u8);
                }
                let ghost before = runs_out@;
                runs_out.push(tag | ((n - 1) as u8));
                len = len - n;
                assert(run_chunks(black, (len + n) as nat) =~= seq![run_byte(black, n as nat)]
                    + run_chunks(black, len as nat));
                assert(runs_out@ + run_chunks(black, len as nat) =~= before + run_chunks(
                    black,
                    (len + n) as nat,
                ));
            }
            assert(runs_from(bits, start as nat) =~= run_chunks(black, total) + runs_from(
                bits,
                y as nat,
            ));
            assert(runs_out@ + runs_from(bits, y as nat) =~= base + runs_from(bits, start as nat));
        } else {
            assert(runs_from(bits, start as nat) =~= Seq::<u8>::empty());
            assert(runs_from(bits, y as nat) =~= Seq::<u8>::empty());
        }
    }
    assert(runs_from(bits, rows as nat) =~= Seq::<u8>::empty());
    let mut out: Vec<u8> = Vec::new();
    if runs_out.len() < lit_len {
        out.push(0x81u8);
        out.push(#[verifier::truncate] (runs_out.len() as u8));
        push_all(&mut out, runs_out.as_slice());
    } else {
        out.push(0x80u8);
        out.push(#[verifier::truncate] (lit_len as u8));
        let mut i: usize = 0;
        while i < lit_len
            invariant
                i <= lit_len <= bytes@.len(),
                out@ == seq![0x80u8, lit_len as u8] + bytes@.take(i as int),
            decreases lit_len - i,
        {
            out.push(bytes[i]);
            i = i + 1;
            assert(bytes@.take(i as int) =~= bytes@.take(i - 1).push(bytes@[i - 1]));
        }
    }
    out
}

/// The mathematical content of a raster: `cols` columns along the tape,
/// `rows` rows across it, and one cell per pixel, row by row.
pub struct RasterView {
    pub cols: nat,
    pub rows: nat,
    pub cells: Seq<bool>,
}

impl RasterView {
    /// The cell count matches the dimensions, whose product fits in a `u32`.
    pub open spec fn wf(self) -> bool {
        &&& self.cells.len() == self.cols * self.rows
        &&& self.cols * self.rows <= u32::MAX
    }

    /// Whether pixel `(x, y)` (column `x`, row `y`) is black; false outside
    /// the raster.
    pub open spec fn pixel(self, x: int, y: int) -> bool {
        0 <= x < self.cols && 0 <= y < self.rows && self.cells[y * self.cols + x]
    }

    /// Whether row `y` holds at least one black pixel.
    pub open spec fn row_has_ink(self, y: int) -> bool {
        exists|x: int| 0 <= x < self.cols && #[trigger] self.pixel(x, y)
    }

    /// Column `x` as a sequence of `rows` pixels, row 0 first.
    pub open spec fn column_bits(self, x: int) -> Seq<bool> {
        Seq::new(self.rows, |y: int| self.pixel(x, y))
    }
}

/// The byte whose bits, most significant first, are `b0` to `b7`.
pub open spec fn pack8(b0: bool, b1: bool, b2: bool, b3: bool, b4: bool, b5: bool, b6: bool, b7: bool) -> u8 {
    (if b0 { 0x80u8 } else { 0u8 }) | (if b1 { 0x40u8 } else { 0u8 }) | (if b2 { 0x20u8 } else { 0u8 })
        | (if b3 { 0x10u8 } else { 0u8 }) | (if b4 { 0x08u8 } else { 0u8 }) | (if b5 { 0x04u8 } else { 0u8 })
        | (if b6 { 0x02u8 } else { 0u8 }) | (if b7 { 0x01u8 } else { 0u8 })
}

/// Whether bit `k` of `b`, counted from the most significant bit, is set.
pub open spec fn bit_set(b: u8, k: u8) -> bool {
    b & (0x80u8 >> k) != 0u8
}

/// Whether row `y` of a packed column is black: bit `y % 8` (most significant
/// first) of byte `y / 8`.
pub open spec fn col_bit(bytes: Seq<u8>, y: int) -> bool {
    bit_set(bytes[y / 8], (y % 8) as u8)
}

/// The first `rows` rows of a packed column.
pub open spec fn unpack(bytes: Seq<u8>, rows: nat) -> Seq<bool> {
    Seq::new(rows, |y: int| col_bit(bytes, y))
}

/// Bit `i` of a bit sequence, false past its end.
pub open spec fn bit_at(bits: Seq<bool>, i: int) -> bool {
    0 <= i < bits.len() && bits[i]
}

/// Byte `j` of the packing of `bits`: bits `8j` to `8j + 7`, most significant first.
pub open spec fn pack_byte(bits: Seq<bool>, j: int) -> u8 {
    pack8(
        bit_at(bits, 8 * j),
        bit_at(bits, 8 * j + 1),
        bit_at(bits, 8 * j + 2),
        bit_at(bits, 8 * j + 3),
        bit_at(bits, 8 * j + 4),
        bit_at(bits, 8 * j + 5),
        bit_at(bits, 8 * j + 6),
        bit_at(bits, 8 * j + 7),
    )
}

/// The number of bytes that hold `n` bits.
pub open spec fn byte_count(n: nat) -> nat {
    (n + 7) / 8
}

/// `bits` packed eight to a byte, row 0 in the most significant bit of byte 0,
/// the last byte padded with zero bits.
#[verifier::opaque]
pub open spec fn pack(bits: Seq<bool>) -> Seq<u8> {
    Seq::new(byte_count(bits.len()), |j: int| pack_byte(bits, j))
}

/// Bit `k` of `pack8(b0, .., b7)` is `bk`.
pub proof fn lemma_pack8_bit(b0: bool, b1: bool, b2: bool, b3: bool, b4: bool, b5: bool, b6: bool, b7: bool, k: u8)
    requires
        k < 8,
    ensures
        bit_set(pack8(b0, b1, b2, b3, b4, b5, b6, b7), k) == (
            (k == 0 && b0) || (k == 1 && b1) || (k == 2 && b2) || (k == 3 && b3)
            || (k == 4 && b4) || (k == 5 && b5) || (k == 6 && b6) || (k == 7 && b7)),
{
    assert(bit_set(pack8(b0, b1, b2, b3, b4, b5, b6, b7), k) == (
        (k == 0 && b0) || (k == 1 && b1) || (k == 2 && b2) || (k == 3 && b3)
        || (k == 4 && b4) || (k == 5 && b5) || (k == 6 && b6) || (k == 7 && b7))) by (bit_vector)
        requires
            k < 8,
    ;
}

/// Or-ing in the mask of bit `k` sets that bit of a packed byte.
proof fn lemma_pack8_set(b0: bool, b1: bool, b2: bool, b3: bool, b4: bool, b5: bool, b6: bool, b7: bool, k: u8)
    requires
        k < 8,
    ensures
        pack8(b0, b1, b2, b3, b4, b5, b6, b7) | (0x80u8 >> k) == pack8(
            b0 || k == 0,
            b1 || k == 1,
            b2 || k == 2,
            b3 || k == 3,
            b4 || k == 4,
            b5 || k == 5,
            b6 || k == 6,
            b7 || k == 7,
        ),
{
    assert(pack8(b0, b1, b2, b3, b4, b5, b6, b7) | (0x80u8 >> k) == pack8(
        b0 || k == 0,
        b1 || k == 1,
        b2 || k == 2,
        b3 || k == 3,
        b4 || k == 4,
        b5 || k == 5,
        b6 || k == 6,
        b7 || k == 7,
    )) by (bit_vector)
        requires
            k < 8,
    ;
}

proof fn lemma_pack8_zero()
    ensures
        pack8(false, false, false, false, false, false, false, false) == 0u8,
{
    assert(pack8(false, false, false, false, false, false, false, false) == 0u8) by (bit_vector);
}

/// A packing holds one byte per eight bits, rounded up.
pub proof fn lemma_pack_len(bits: Seq<bool>)
    ensures
        pack(bits).len() == byte_count(bits.len()),
{
    reveal(pack);
}

/// Reading row `y` back from a packed column gives bit `y`.
pub proof fn lemma_pack_unpack(bits: Seq<bool>, y: int)
    requires
        0 <= y < bits.len(),
    ensures
        col_bit(pack(bits), y) == bits[y],
{
    reveal(pack);
    let j = y / 8;
    let k = (y % 8) as u8;
    assert(0 <= j < byte_count(bits.len()));
    lemma_pack8_bit(
        bit_at(bits, 8 * j),
        bit_at(bits, 8 * j + 1),
        bit_at(bits, 8 * j + 2),
        bit_at(bits, 8 * j + 3),
        bit_at(bits, 8 * j + 4),
        bit_at(bits, 8 * j + 5),
        bit_at(bits, 8 * j + 6),
        bit_at(bits, 8 * j + 7),
        k,
    );
}

/// Column `x` of a raster packed into bytes, as it goes on the wire.
pub open spec fn column_bytes(r: RasterView, x: int) -> Seq<u8> {
    pack(r.column_bits(x))
}

/// How many bits from position `y` on have colour `c` before the colour
/// changes or the bits end.
pub open spec fn run_len(b: Seq<bool>, y: int, c: bool) -> nat
    decreases b.len() - y,
{
    if 0 <= y < b.len() && b[y] == c {
        1 + run_len(b, y + 1, c)
    } else {
        0
    }
}

/// The byte for a run of `n` (1 to 128) rows of colour `c`: bit 7 is the colour
/// (1 = black), bits 0-6 hold `n - 1`.
pub open spec fn run_byte(c: bool, n: nat) -> u8 {
    ((if c { 128int } else { 0int }) + n - 1) as u8
}

/// A run of `n` rows of colour `c`, as run bytes of at most 128 rows each.
pub open spec fn run_chunks(c: bool, n: nat) -> Seq<u8>
    decreases n,
{
    if n == 0 {
        Seq::empty()
    } else if n <= 128 {
        seq![run_byte(c, n)]
    } else {
        seq![run_byte(c, 128)] + run_chunks(c, (n - 128) as nat)
    }
}

/// The run-length encoding of `b` from position `y` on: each maximal run in
/// order, except a white run that reaches the end.
pub open spec fn runs_from(b: Seq<bool>, y: nat) -> Seq<u8>
    decreases b.len() - y,
{
    if y >= b.len() {
        Seq::empty()
    } else {
        let c = b[y as int];
        let n = run_len(b, y as int, c);
        if n == 0 || (!c && y + n == b.len()) {
            Seq::empty()
        } else {
            proof {
                lemma_run_len_bound(b, y as int, c);
            }
            run_chunks(c, n) + runs_from(b, y + n)
        }
    }
}

/// The run-length encoding of a whole column.
pub open spec fn runs(b: Seq<bool>) -> Seq<u8> {
    runs_from(b, 0)
}

/// The length of `s` without its trailing zero bytes.
pub open spec fn trimmed_len(s: Seq<u8>) -> nat
    decreases s.len(),
{
    if s.len() == 0 {
        0
    } else if s.last() != 0 {
        s.len()
    } else {
        trimmed_len(s.drop_last())
    }
}

/// One column on the wire: `81 n` and the run bytes when they are strictly
/// fewer than the literal bytes, else `80 n` and the column bytes with trailing
/// zero bytes trimmed (`n` is the payload length, kept to its low eight bits).
pub open spec fn column_encoding(bytes: Seq<u8>, rows: nat) -> Seq<u8> {
    let lit = trimmed_len(bytes);
    let rl = runs(unpack(bytes, rows));
    if rl.len() < lit {
        seq![0x81u8, rl.len() as u8] + rl
    } else {
        seq![0x80u8, lit as u8] + bytes.take(lit as int)
    }
}

/// A run never reaches past the end of the bits.
pub proof fn lemma_run_len_bound(b: Seq<bool>, y: int, c: bool)
    requires
        0 <= y,
    ensures
        y + run_len(b, y, c) <= b.len() || run_len(b, y, c) == 0,
    decreases b.len() - y,
{
    if 0 <= y < b.len() && b[y] == c {
        lemma_run_len_bound(b, y + 1, c);
    }
}

proof fn lemma_run_len_step(b: Seq<bool>, y: int, c: bool)
    requires
        0 <= y < b.len(),
        b[y] == c,
    ensures
        run_len(b, y, c) == 1 + run_len(b, y + 1, c),
{
}

proof fn lemma_trimmed_len_bound(s: Seq<u8>)
    ensures
        trimmed_len(s) <= s.len(),
    decreases s.len(),
{
    if s.len() > 0 && s.last() == 0 {
        lemma_trimmed_len_bound(s.drop_last());
    }
}

proof fn lemma_run_byte_tag(black: bool, n: u8)
    requires
        1 <= n <= 128,
    ensures
        (if black { 0x80u8 } else { 0u8 }) | ((n - 1) as u8) == run_byte(black, n as nat),
{
    let m = (n - 1) as u8;
    assert(0x80u8 | m == (128 + m) as u8) by (bit_vector)
        requires
            m < 128,
    ;
    assert(0u8 | m == m) by (bit_vector);
}

/// A one-letter command: STX then the letter.
pub open spec fn stx(letter: u8) -> Seq<u8> {
    seq![0x02u8, letter]
}

/// A `K` command with its big-endian 16-bit subcommand.
pub open spec fn stx_k(sub: u16) -> Seq<u8> {
    stx(0x4bu8) + be16(sub)
}

/// Whether a packed column holds no black pixel.
pub open spec fn column_blank(bytes: Seq<u8>) -> bool {
    forall|i: int| 0 <= i < bytes.len() ==> bytes[i] == 0
}

/// The column data for the first `n` wire columns (`Y` = 0 .. n - 1, wire
/// column `Y` holding raster column `cols - 1 - Y`), and the cursor after them.
/// Blank columns are skipped; a non-blank column is preceded by `Y` and its
/// little-endian index unless the cursor already stands there, and moves the
/// cursor past itself.
pub open spec fn raster_columns(r: RasterView, n: nat) -> (Seq<u8>, nat)
    decreases n,
{
    if n == 0 {
        (Seq::empty(), 0)
    } else {
        let (s, cursor) = raster_columns(r, (n - 1) as nat);
        let yidx = (n - 1) as nat;
        let bytes = column_bytes(r, r.cols - 1 - yidx);
        if column_blank(bytes) {
            (s, cursor)
        } else {
            let jump = if cursor != yidx {
                seq![0x59u8] + le16(yidx as u16)
            } else {
                Seq::empty()
            };
            (s + jump + column_encoding(bytes, r.rows), n)
        }
    }
}

/// The raster section of a label: `X 0 Y 0`, the columns, a final `Y cols`
/// when some column was sent and the cursor stopped short of the width, and
/// the end marker `ff ff 0d`.
#[verifier::opaque]
pub open spec fn raster_section(r: RasterView) -> Seq<u8> {
    let (body, cursor) = raster_columns(r, r.cols);
    let tail = if cursor != 0 && cursor != r.cols {
        seq![0x59u8] + le16(r.cols as u16)
    } else {
        Seq::empty()
    };
    seq![0x58u8, 0u8, 0u8, 0x59u8, 0u8, 0u8] + body + tail + seq![0xffu8, 0xffu8, 0x0du8]
}

/// The job header that the first label block carries: supply prefix, `D`,
/// copies `C`, `c`, `p o O b`, and the cut option `M`.
#[verifier::opaque]
pub open spec fn job_header(p: JobParams) -> Seq<u8> {
    stx_k(0x0009) + encode_utf8(p.supply_prefix@) + seq![0x0du8]
        + stx(0x44u8) + signed_decimal(p.d as int, 4)
        + stx(0x43u8) + signed_decimal((p.copies as i32) as int, 4)
        + stx(0x63u8) + seq![p.c_lower]
        + stx(0x70u8) + signed_decimal(p.p as int, 2)
        + stx(0x6fu8) + signed_decimal(p.o as int, 2)
        + stx(0x4fu8) + signed_decimal(p.o_upper as int, 2)
        + stx(0x62u8) + signed_decimal(p.b as int, 2)
        + stx(0x4du8) + seq![p.cut]
}

/// One label block: job id, the header on the first block only, canvas size
/// (`rows` then `cols`, four digits each), `A Q a`, the label name, the
/// raster, and `a G A K/000b`.
pub open spec fn label_block(p: JobParams, r: RasterView, first: bool) -> Seq<u8> {
    stx_k(0x000a) + encode_utf8(p.job_id@) + seq![0x0du8]
        + (if first { job_header(p) } else { Seq::empty() })
        + stx_k(0x000c) + padded_decimal(r.rows, 4) + padded_decimal(r.cols, 4)
        + stx(0x41u8) + stx(0x51u8) + stx(0x61u8)
        + stx(0x49u8) + encode_utf8(p.label_name@) + seq![0x0du8]
        + raster_section(r)
        + stx(0x61u8) + stx(0x47u8) + stx(0x41u8) + stx_k(0x000b)
}

/// The first `k` label blocks of a job.
pub open spec fn label_blocks(p: JobParams, r: RasterView, k: nat) -> Seq<u8>
    decreases k,
{
    if k == 0 {
        Seq::empty()
    } else {
        label_blocks(p, r, (k - 1) as nat) + label_block(p, r, k == 1)
    }
}

/// How many label blocks a job holds: the copies, and at least one.
pub open spec fn block_count(p: JobParams) -> nat {
    if p.copies == 0 {
        1
    } else {
        p.copies as nat
    }
}

/// The whole job: one label block per copy, the first with the header.
pub open spec fn job_bytes(p: JobParams, r: RasterView) -> Seq<u8> {
    label_blocks(p, r, block_count(p))
}

/// The job text ahead of the copies digits: job id, supply prefix, `D`, and
/// the `C` command.
pub open spec fn before_copies(p: JobParams) -> Seq<u8> {
    stx_k(0x000a) + encode_utf8(p.job_id@) + seq![0x0du8]
        + (stx_k(0x0009) + encode_utf8(p.supply_prefix@) + seq![0x0du8]
        + stx(0x44u8) + signed_decimal(p.d as int, 4)
        + stx(0x43u8))
}

/// The header after the copies digits.
spec fn header_after_copies(p: JobParams) -> Seq<u8> {
    stx(0x63u8) + seq![p.c_lower]
        + stx(0x70u8) + signed_decimal(p.p as int, 2)
        + stx(0x6fu8) + signed_decimal(p.o as int, 2)
        + stx(0x4fu8) + signed_decimal(p.o_upper as int, 2)
        + stx(0x62u8) + signed_decimal(p.b as int, 2)
        + stx(0x4du8) + seq![p.cut]
}

/// A label block after its header.
spec fn block_after_header(p: JobParams, r: RasterView) -> Seq<u8> {
    stx_k(0x000c) + padded_decimal(r.rows, 4) + padded_decimal(r.cols, 4)
        + stx(0x41u8) + stx(0x51u8) + stx(0x61u8)
        + stx(0x49u8) + encode_utf8(p.label_name@) + seq![0x0du8]
        + raster_section(r)
        + stx(0x61u8) + stx(0x47u8) + stx(0x41u8) + stx_k(0x000b)
}

proof fn lemma_header_parts(p: JobParams)
    ensures
        job_header(p) == (stx_k(0x0009) + encode_utf8(p.supply_prefix@) + seq![0x0du8]
            + stx(0x44u8) + signed_decimal(p.d as int, 4)
            + stx(0x43u8)) + signed_decimal((p.copies as i32) as int, 4) + header_after_copies(p),
{
    reveal(job_header);
    assert(job_header(p) =~= (stx_k(0x0009) + encode_utf8(p.supply_prefix@) + seq![0x0du8]
            + stx(0x44u8) + signed_decimal(p.d as int, 4)
            + stx(0x43u8)) + signed_decimal((p.copies as i32) as int, 4) + header_after_copies(p));
}

proof fn lemma_first_block_parts(p: JobParams, r: RasterView)
    ensures
        label_block(p, r, true) == stx_k(0x000a) + encode_utf8(p.job_id@) + seq![0x0du8] + job_header(p)
            + block_after_header(p, r),
{
    assert(label_block(p, r, true) =~= stx_k(0x000a) + encode_utf8(p.job_id@) + seq![0x0du8] + job_header(p)
            + block_after_header(p, r));
}

/// A job of zero copies is the job of one copy with the copies field written
/// `+0000` instead of `+0001`: one header and one label block either way.
#[verifier::spinoff_prover]
#[verifier::rlimit(80)]
pub proof fn lemma_zero_copies_is_one_copy(p: JobParams, r: RasterView)
    requires
        p.copies == 0,
    ensures
        ({
            let q = JobParams { copies: 1, ..p };
            exists|rest: Seq<u8>|
                {
                    &&& job_bytes(p, r) == before_copies(p) + seq![43u8, 48u8, 48u8, 48u8, 48u8] + rest
                    &&& #[trigger] job_bytes(q, r) == before_copies(p) + seq![43u8, 48u8, 48u8, 48u8, 49u8] + rest
                }
        }),
{
    let q = JobParams { copies: 1, ..p };
    assert(decimal(0) == seq![48u8]);
    assert(decimal(1) == seq![49u8]);
    assert(padded_decimal(0, 4) =~= seq![48u8, 48u8, 48u8, 48u8]);
    assert(padded_decimal(1, 4) =~= seq![48u8, 48u8, 48u8, 49u8]);
    let d0 = signed_decimal(0, 4);
    let d1 = signed_decimal(1, 4);
    assert(d0 =~= seq![43u8, 48u8, 48u8, 48u8, 48u8]);
    assert(d1 =~= seq![43u8, 48u8, 48u8, 48u8, 49u8]);
    lemma_header_parts(p);
    lemma_header_parts(q);
    lemma_first_block_parts(p, r);
    lemma_first_block_parts(q, r);
    assert(header_after_copies(q) == header_after_copies(p));
    assert(block_after_header(q, r) == block_after_header(p, r));
    let a = stx_k(0x000a) + encode_utf8(p.job_id@) + seq![0x0du8];
    let h = stx_k(0x0009) + encode_utf8(p.supply_prefix@) + seq![0x0du8]
        + stx(0x44u8) + signed_decimal(p.d as int, 4)
        + stx(0x43u8);
    let rest = header_after_copies(p) + block_after_header(p, r);
    assert(before_copies(p) == a + h);
    assert(label_blocks(p, r, 0) == Seq::<u8>::empty());
    assert(label_blocks(q, r, 0) == Seq::<u8>::empty());
    assert(job_bytes(p, r) == Seq::<u8>::empty() + label_block(p, r, true));
    assert(job_bytes(q, r) == Seq::<u8>::empty() + label_block(q, r, true));
    assert(job_bytes(p, r) =~= (a + h) + d0 + rest);
    assert(job_bytes(q, r) =~= (a + h) + d1 + rest);
}

proof fn lemma_zeros_value(k: nat)
    ensures
        digits_value(Seq::new(k, |i: int| 48u8)) == 0,
        all_digits(Seq::new(k, |i: int| 48u8)),
    decreases k,
{
    if k > 0 {
        lemma_zeros_value((k - 1) as nat);
        assert(Seq::new(k, |i: int| 48u8).drop_last() =~= Seq::new((k - 1) as nat, |i: int| 48u8));
    }
}

proof fn lemma_padding_value(z: Seq<u8>, d: Seq<u8>)
    requires
        digits_value(z) == 0,
        all_digits(z),
        all_digits(d),
    ensures
        digits_value(z + d) == digits_value(d),
        all_digits(z + d),
    decreases d.len(),
{
    if d.len() == 0 {
        assert(z + d =~= z);
    } else {
        assert((z + d).drop_last() =~= z + d.drop_last());
        lemma_padding_value(z, d.drop_last());
    }
}

proof fn lemma_decimal_value(n: nat, k: nat)
    requires
        n < pow10(k),
        k >= 1,
    ensures
        digits_value(decimal(n)) == n,
        all_digits(decimal(n)),
        1 <= decimal(n).len() <= k,
    decreases n,
{
    assert(pow10(0) == 1);
    assert(pow10(1) == 10);
    if n >= 10 {
        assert(k >= 2);
        assert(pow10(k) == 10 * pow10((k - 1) as nat));
        assert(n / 10 < pow10((k - 1) as nat));
        lemma_decimal_value(n / 10, (k - 1) as nat);
        let d = decimal(n);
        assert(d == decimal(n / 10).push((48 + n % 10) as u8));
        assert(d.drop_last() =~= decimal(n / 10));
        assert(d.last() == (48 + n % 10) as u8);
        assert(digits_value(d) == 10 * (n / 10) + n % 10);
    } else {
        let d = decimal(n);
        assert(d.drop_last() =~= Seq::<u8>::empty());
        assert(digits_value(d.drop_last()) == 0);
        assert(d.last() == (48 + n) as u8);
        assert(digits_value(d) == n);
    }
}

/// Ten to the power `k`.
spec fn pow10(k: nat) -> nat
    decreases k,
{
    if k == 0 {
        1
    } else {
        10 * pow10((k - 1) as nat)
    }
}

/// A number below 10000 written as four zero-padded digits reads back as
/// itself.
proof fn lemma_padded4_value(n: nat)
    requires
        n < 10000,
    ensures
        padded_decimal(n, 4).len() == 4,
        all_digits(padded_decimal(n, 4)),
        digits_value(padded_decimal(n, 4)) == n,
{
    assert(pow10(0) == 1);
    assert(pow10(1) == 10);
    assert(pow10(2) == 100);
    assert(pow10(3) == 1000);
    assert(pow10(4) == 10000);
    lemma_decimal_value(n, 4);
    let d = decimal(n);
    if d.len() < 4 {
        let z = Seq::new((4 - d.len()) as nat, |i: int| 48u8);
        lemma_zeros_value((4 - d.len()) as nat);
        lemma_padding_value(z, d);
    }
}

/// Every label block carries its canvas size: `K 00 0c` followed by eight
/// ASCII digits that read, four by four, as the raster's rows and columns.
pub proof fn lemma_canvas_field(p: JobParams, r: RasterView, first: bool)
    requires
        r.rows < 10000,
        r.cols < 10000,
    ensures
        exists|i: int|
            0 <= i && i + 12 <= label_block(p, r, first).len() && {
                let b = #[trigger] label_block(p, r, first).subrange(i, i + 12);
                &&& b.subrange(0, 4) == seq![0x02u8, 0x4bu8, 0x00u8, 0x0cu8]
                &&& all_digits(b.subrange(4, 8))
                &&& digits_value(b.subrange(4, 8)) == r.rows
                &&& all_digits(b.subrange(8, 12))
                &&& digits_value(b.subrange(8, 12)) == r.cols
            },
{
    lemma_padded4_value(r.rows);
    lemma_padded4_value(r.cols);
    let a = stx_k(0x000a) + encode_utf8(p.job_id@) + seq![0x0du8] + (if first { job_header(p) } else { Seq::empty() });
    let f = stx_k(0x000c) + padded_decimal(r.rows, 4) + padded_decimal(r.cols, 4);
    let blk = label_block(p, r, first);
    let i = a.len() as int;
    assert(blk.subrange(i, i + 12) =~= f) by {
        assert(blk =~= a + f + (blk.skip(i + 12)));
    }
    assert(f.subrange(0, 4) =~= seq![0x02u8, 0x4bu8, 0x00u8, 0x0cu8]);
    assert(f.subrange(4, 8) =~= padded_decimal(r.rows, 4));
    assert(f.subrange(8, 12) =~= padded_decimal(r.cols, 4));
}

/// The signed fields of a job that `{:+0N}`-style formatting can write:
/// none is `i32::MIN`, whose magnitude has no `i32`.
pub open spec fn params_formattable(p: JobParams) -> bool {
    &&& p.d != i32::MIN
    &&& (p.copies as i32) != i32::MIN
    &&& p.p != i32::MIN
    &&& p.o != i32::MIN
    &&& p.o_upper != i32::MIN
    &&& p.b != i32::MIN
}

/// An 8-bit grayscale image (0 = black, 255 = white), row by row: the pixel
/// values of an `image::GrayImage`.
#[derive(Clone, Debug)]
pub struct GrayPixels {
    pub width: u32,
    pub height: u32,
    pub data: Vec<u8>,
}

impl GrayPixels {
    /// One value per pixel.
    pub open spec fn wf(&self) -> bool {
        self.data@.len() == self.width * self.height
    }

    /// The value of pixel `(x, y)`.
    pub open spec fn value(&self, x: int, y: int) -> u8 {
        self.data@[y * self.width + x]
    }

    /// Whether pixel `(x, y)` lies in the image and is dark (below 128).
    pub open spec fn dark(&self, x: int, y: int) -> bool {
        0 <= x < self.width && 0 <= y < self.height && self.value(x, y) < 128
    }
}

/// The raster that putting `img` on a `rows`-tall canvas as wide as the image,
/// with its top-left pixel at (`col`, `row`), gives: a pixel is black where
/// the image pixel it lands on is dark; pixels no image pixel lands on are
/// white.
pub open spec fn placed(img: GrayPixels, rows: nat, col: int, row: int) -> RasterView {
    let w = img.width as int;
    RasterView {
        cols: img.width as nat,
        rows,
        cells: Seq::new((w * rows) as nat, |i: int| img.dark(i % w - col, i / w - row)),
    }
}

/// Each cell of a well-formed raster is the pixel whose index it holds.
proof fn lemma_cells_are_pixels(v: RasterView)
    requires
        v.wf(),
    ensures
        forall|i: int|
            0 <= i < v.cells.len() ==> #[trigger] v.cells[i] == v.pixel(i % (v.cols as int), i / (v.cols as int)),
{
    assert forall|i: int| 0 <= i < v.cells.len() implies #[trigger] v.cells[i] == v.pixel(
        i % (v.cols as int),
        i / (v.cols as int),
    ) by {
        let w = v.cols as int;
        let h = v.rows as int;
        assert(w > 0) by (nonlinear_arith)
            requires
                0 <= i < w * h,
                w >= 0,
                h >= 0,
        ;
        let q = i / w;
        let r = i % w;
        vstd::arithmetic::div_mod::lemma_fundamental_div_mod(i, w);
        vstd::arithmetic::div_mod::lemma_mod_pos_bound(i, w);
        assert(0 <= q < h) by (nonlinear_arith)
            requires
                i == w * q + r,
                0 <= r < w,
                0 <= i < w * h,
                w > 0,
        ;
        assert(q * w + r == i) by (nonlinear_arith)
            requires
                i == w * q + r,
        ;
    }
}

/// A raster whose pixels are those of `placed(img, rows, col, row)` is that raster.
proof fn lemma_placed(v: RasterView, img: GrayPixels, rows: nat, col: int, row: int)
    requires
        v.wf(),
        v.cols == img.width,
        v.rows == rows,
        forall|x: int, y: int| 0 <= x < img.width && 0 <= y < rows ==> #[trigger] v.pixel(x, y) == img.dark(x - col, y - row),
    ensures
        v == placed(img, rows, col, row),
{
    lemma_cells_are_pixels(v);
    let p = placed(img, rows, col, row);
    assert forall|i: int| 0 <= i < v.cells.len() implies #[trigger] v.cells[i] == p.cells[i] by {
        let w = img.width as int;
        let h = rows as int;
        assert(w > 0) by (nonlinear_arith)
            requires
                0 <= i < w * h,
                w >= 0,
                h >= 0,
        ;
        let q = i / w;
        let r = i % w;
        vstd::arithmetic::div_mod::lemma_fundamental_div_mod(i, w);
        vstd::arithmetic::div_mod::lemma_mod_pos_bound(i, w);
        assert(0 <= q < h) by (nonlinear_arith)
            requires
                i == w * q + r,
                0 <= r < w,
                0 <= i < w * h,
                w > 0,
        ;
        assert(v.cells[i] == v.pixel(r, q));
        assert(v.pixel(r, q) == img.dark(r - col, q - row));
    }
    assert(v.cells =~= p.cells);
}

/// Distinct pixels of a raster have distinct cells.
proof fn lemma_index_injective(w: nat, x1: nat, y1: nat, x2: nat, y2: nat)
    requires
        x1 < w,
        x2 < w,
        y1 * w + x1 == y2 * w + x2,
    ensures
        x1 == x2,
        y1 == y2,
{
    if y1 < y2 {
        assert(y1 * w + x1 < (y1 + 1) * w) by (nonlinear_arith)
            requires
                x1 < w,
        ;
        assert((y1 + 1) * w <= y2 * w) by (nonlinear_arith)
            requires
                y1 < y2,
        ;
    } else if y2 < y1 {
        assert(y2 * w + x2 < (y2 + 1) * w) by (nonlinear_arith)
            requires
                x2 < w,
        ;
        assert((y2 + 1) * w <= y1 * w) by (nonlinear_arith)
            requires
                y2 < y1,
        ;
    }
}

/// 1-bit raster: `rows` across the tape, `cols` along it; `black(x, y)` with y = row.
pub struct Raster {
    pub cols: u32,
    pub rows: u32,
    bits: Vec<bool>,
}

impl View for Raster {
    type V = RasterView;

    closed spec fn view(&self) -> RasterView {
        RasterView { cols: self.cols as nat, rows: self.rows as nat, cells: self.bits@ }
    }
}

proof fn lemma_index_in_range(cols: nat, rows: nat, x: nat, y: nat)
    requires
        x < cols,
        y < rows,
    ensures
        y * cols + x < cols * rows,
{
    assert(y * cols + x < (y + 1) * cols) by (nonlinear_arith)
        requires
            x < cols,
    ;
    assert((y + 1) * cols <= rows * cols) by (nonlinear_arith)
        requires
            y < rows,
    ;
    assert(rows * cols == cols * rows) by (nonlinear_arith);
}

/// What `get` reads is what `set` last wrote there: once a pixel is set it
/// reads back as set, and every other pixel reads as it did before.
pub proof fn lemma_set_then_get(r: RasterView, x: nat, y: nat, black: bool, x2: nat, y2: nat)
    requires
        r.wf(),
        x < r.cols,
        y < r.rows,
    ensures
        ({
            let s = RasterView { cols: r.cols, rows: r.rows, cells: r.cells.update((y * r.cols + x) as int, black) };
            &&& s.wf()
            &&& s.pixel(x as int, y as int) == black
            &&& (x2 != x || y2 != y) ==> s.pixel(x2 as int, y2 as int) == r.pixel(x2 as int, y2 as int)
        }),
{
    lemma_index_in_range(r.cols, r.rows, x, y);
    if x2 < r.cols && y2 < r.rows && (x2 != x || y2 != y) {
        lemma_index_in_range(r.cols, r.rows, x2, y2);
        if y2 * r.cols + x2 == y * r.cols + x {
            lemma_index_injective(r.cols, x2, y2, x, y);
        }
    }
}

/// The raster after the pixel writes `w` (column, row, colour), in order, as
/// `Raster::set` makes them.
pub open spec fn apply_sets(r: RasterView, w: Seq<(nat, nat, bool)>) -> RasterView
    decreases w.len(),
{
    if w.len() == 0 {
        r
    } else {
        let s = apply_sets(r, w.drop_last());
        let (x, y, b) = w.last();
        RasterView { cols: s.cols, rows: s.rows, cells: s.cells.update((y * s.cols + x) as int, b) }
    }
}

/// The colour that the last write to pixel (`x`, `y`) in `w` gave it, if any.
pub open spec fn last_write(w: Seq<(nat, nat, bool)>, x: nat, y: nat) -> Option<bool>
    decreases w.len(),
{
    if w.len() == 0 {
        None
    } else if w.last().0 == x && w.last().1 == y {
        Some(w.last().2)
    } else {
        last_write(w.drop_last(), x, y)
    }
}

/// After any sequence of writes inside the raster, a pixel reads as the last
/// write to it left it, and a pixel that no write touched reads as before
/// (white, on a fresh raster).
pub proof fn lemma_sets_then_get(r: RasterView, w: Seq<(nat, nat, bool)>, x: nat, y: nat)
    requires
        r.wf(),
        forall|i: int| 0 <= i < w.len() ==> (#[trigger] w[i]).0 < r.cols && w[i].1 < r.rows,
    ensures
        apply_sets(r, w).wf(),
        apply_sets(r, w).cols == r.cols,
        apply_sets(r, w).rows == r.rows,
        apply_sets(r, w).pixel(x as int, y as int) == match last_write(w, x, y) {
            Some(b) => x < r.cols && y < r.rows && b,
            None => r.pixel(x as int, y as int),
        },
    decreases w.len(),
{
    if w.len() > 0 {
        let v = w.drop_last();
        assert forall|i: int| 0 <= i < v.len() implies (#[trigger] v[i]).0 < r.cols && v[i].1 < r.rows by {
            assert(v[i] == w[i]);
        }
        lemma_sets_then_get(r, v, x, y);
        let s = apply_sets(r, v);
        let (wx, wy, wb) = w.last();
        assert(w[w.len() - 1] == w.last());
        lemma_set_then_get(s, wx, wy, wb, x, y);
    }
}

impl Raster {
    /// The raster's fields agree with its view, and the view is well formed.
    pub closed spec fn wf(&self) -> bool {
        &&& self@.cols == self.cols as nat
        &&& self@.rows == self.rows as nat
        &&& self@.wf()
    }

    /// A well-formed raster has a well-formed view.
    pub proof fn lemma_view_wf(&self)
        requires
            self.wf(),
        ensures
            self@.wf(),
    {
    }

    /// An all-white raster of `cols` by `rows` pixels.
    pub fn new(cols: u32, rows: u32) -> (r: Self)
        requires
            cols * rows <= u32::MAX,
        ensures
            r.wf(),
            r@.cols == cols,
            r@.rows == rows,
            r@.cells == Seq::new((cols * rows) as nat, |i: int| false),
    {
        let n = cols * rows;
        let mut bits: Vec<bool> = Vec::new();
        let mut i: u32 = 0;
        while i < n
            invariant
                i <= n,
                bits@ == Seq::new(i as nat, |j: int| false),
            decreases n - i,
        {
            bits.push(false);
            i = i + 1;
            assert(bits@ =~= Seq::new(i as nat, |j: int| false));
        }
        Raster { cols, rows, bits }
    }

    /// Sets the cell at index `y * cols + x`, which is pixel `(x, y)` when
    /// `x < cols`.
    pub fn set(&mut self, x: u32, y: u32, black: bool)
        requires
            old(self).wf(),
            y * old(self)@.cols + x < old(self)@.cols * old(self)@.rows,
        ensures
            final(self).wf(),
            final(self)@.cols == old(self)@.cols,
            final(self)@.rows == old(self)@.rows,
            final(self)@.cells == old(self)@.cells.update(y * old(self)@.cols + x, black),
    {
        let i = y * self.cols + x;
        self.bits.set(i as usize, black);
    }

    /// The cell at index `y * cols + x`, which is pixel `(x, y)` when `x < cols`.
    pub fn get(&self, x: u32, y: u32) -> (black: bool)
        requires
            self.wf(),
            y * self@.cols + x < self@.cols * self@.rows,
        ensures
            black == self@.cells[y * self@.cols + x],
    {
        self.bits[(y * self.cols + x) as usize]
    }

    fn pixel_at(&self, x: u32, y: u32) -> (black: bool)
        requires
            self.wf(),
            x < self.cols,
            y < self.rows,
        ensures
            black == self@.pixel(x as int, y as int),
    {
        proof {
            lemma_index_in_range(self.cols as nat, self.rows as nat, x as nat, y as nat);
        }
        self.get(x, y)
    }

    fn row_ink(&self, y: u32) -> (ink: bool)
        requires
            self.wf(),
            y < self.rows,
        ensures
            ink == self@.row_has_ink(y as int),
    {
        let mut x: u32 = 0;
        while x < self.cols
            invariant
                self.wf(),
                y < self.rows,
                x <= self.cols,
                forall|i: int| 0 <= i < x ==> !#[trigger] self@.pixel(i, y as int),
            decreases self.cols - x,
        {
            if self.pixel_at(x, y) {
                return true;
            }
            x = x + 1;
        }
        false
    }

    /// Place a grayscale image (0 = black) at the top-left of a `rows`-tall raster; pixels < 128 are black.
    pub fn from_gray(img: &GrayPixels, rows: u32) -> (r: Self)
        requires
            img.wf(),
            img.width * rows <= u32::MAX,
        ensures
            r.wf(),
            r@.cols == img.width,
            r@.rows == rows,
            forall|x: int, y: int| 0 <= x < img.width && 0 <= y < rows ==> #[trigger] r@.pixel(x, y) == img.dark(x, y),
            r@ == placed(*img, rows as nat, 0, 0),
    {
        let mut r = Self::new(img.width, rows);
        let w = img.width;
        let dlen = img.data.len();
        proof {
            assert forall|cx: int, cy: int| 0 <= cx < w && 0 <= cy < rows implies !#[trigger] r@.pixel(cx, cy) by {
                lemma_index_in_range(w as nat, rows as nat, cx as nat, cy as nat);
            }
        }
        let mut y: u32 = 0;
        while y < img.height
            invariant
                img.wf(),
                dlen == img.data@.len(),
                w == img.width,
                img.width * rows <= u32::MAX,
                r.wf(),
                r@.cols == w,
                r@.rows == rows,
                y <= img.height,
                forall|cx: int, cy: int|
                    0 <= cx < w && 0 <= cy < rows ==> #[trigger] r@.pixel(cx, cy) == (img.dark(cx, cy) && cy < y),
            decreases img.height - y,
        {
            let mut x: u32 = 0;
            while x < w
                invariant
                    img.wf(),
                    dlen == img.data@.len(),
                    w == img.width,
                    r.wf(),
                    r@.cols == w,
                    r@.rows == rows,
                    y < img.height,
                    x <= w,
                    forall|cx: int, cy: int|
                        0 <= cx < w && 0 <= cy < rows ==> #[trigger] r@.pixel(cx, cy) == (img.dark(cx, cy)
                            && (cy < y || (cy == y && cx < x))),
                decreases w - x,
            {
                proof {
                    lemma_index_in_range(w as nat, img.height as nat, x as nat, y as nat);
                }
                let p = img.data[y as usize * w as usize + x as usize];
                if y < rows {
                    let ghost before = r@;
                    proof {
                        lemma_index_in_range(w as nat, rows as nat, x as nat, y as nat);
                    }
                    r.set(x, y, p < 128);
                    proof {
                        assert forall|ax: int, ay: int| 0 <= ax < w && 0 <= ay < rows implies #[trigger] r@.pixel(ax, ay) == (
                            img.dark(ax, ay) && (ay < y || (ay == y && ax < x + 1))) by {
                            lemma_index_in_range(w as nat, rows as nat, ax as nat, ay as nat);
                            if ay * w + ax == y * w + x {
                                lemma_index_injective(w as nat, ax as nat, ay as nat, x as nat, y as nat);
                            } else {
                                assert(before.pixel(ax, ay) == r@.pixel(ax, ay));
                            }
                        }
                    }
                }
                x = x + 1;
            }
            y = y + 1;
        }
        proof {
            lemma_placed(r@, *img, rows as nat, 0, 0);
        }
        r
    }

    /// Place a 1-bit image on a `rows`-tall canvas with its top-left at (`col`, `row`); pixels outside are dropped.
    /// Canvas width = image width (columns shifted off the right edge are lost, as in the captured jobs).
    pub fn place(img: &GrayPixels, rows: u32, col: i32, row: i32) -> (r: Self)
        requires
            img.wf(),
            img.width * rows <= u32::MAX,
            img.width <= 0x8000_0000,
            img.height <= 0x8000_0000,
            img.width + col <= 0x8000_0000,
            img.height + row <= 0x8000_0000,
        ensures
            r.wf(),
            r@.cols == img.width,
            r@.rows == rows,
            forall|x: int, y: int|
                0 <= x < img.width && 0 <= y < rows ==> #[trigger] r@.pixel(x, y) == img.dark(x - col, y - row),
            r@ == placed(*img, rows as nat, col as int, row as int),
    {
        let mut r = Self::new(img.width, rows);
        let w = img.width;
        let dlen = img.data.len();
        proof {
            assert forall|cx: int, cy: int| 0 <= cx < w && 0 <= cy < rows implies !#[trigger] r@.pixel(cx, cy) by {
                lemma_index_in_range(w as nat, rows as nat, cx as nat, cy as nat);
            }
        }
        let mut y: u32 = 0;
        while y < img.height
            invariant
                img.wf(),
                dlen == img.data@.len(),
                w == img.width,
                img.width + col <= 0x8000_0000,
                img.height + row <= 0x8000_0000,
                img.width <= 0x8000_0000,
                img.height <= 0x8000_0000,
                r.wf(),
                r@.cols == w,
                r@.rows == rows,
                y <= img.height,
                forall|cx: int, cy: int|
                    0 <= cx < w && 0 <= cy < rows ==> #[trigger] r@.pixel(cx, cy) == (img.dark(cx - col, cy - row)
                        && cy - row < y),
            decreases img.height - y,
        {
            let mut x: u32 = 0;
            while x < w
                invariant
                    img.wf(),
                    dlen == img.data@.len(),
                    w == img.width,
                    img.width + col <= 0x8000_0000,
                    img.height + row <= 0x8000_0000,
                    img.width <= 0x8000_0000,
                    img.height <= 0x8000_0000,
                    r.wf(),
                    r@.cols == w,
                    r@.rows == rows,
                    y < img.height,
                    x <= w,
                    forall|cx: int, cy: int|
                        0 <= cx < w && 0 <= cy < rows ==> #[trigger] r@.pixel(cx, cy) == (img.dark(cx - col, cy - row)
                            && (cy - row < y || (cy - row == y && cx - col < x))),
                decreases w - x,
            {
                proof {
                    lemma_index_in_range(w as nat, img.height as nat, x as nat, y as nat);
                }
                let p = img.data[y as usize * w as usize + x as usize];
                let cx: i32 = x as i32 + col;
                let cy: i32 = y as i32 + row;
                if p < 128 && cx >= 0 && cy >= 0 && (cx as u32) < r.cols && (cy as u32) < rows {
                    let ghost before = r@;
                    proof {
                        lemma_index_in_range(w as nat, rows as nat, cx as nat, cy as nat);
                    }
                    r.set(cx as u32, cy as u32, true);
                    proof {
                        assert forall|ax: int, ay: int| 0 <= ax < w && 0 <= ay < rows implies #[trigger] r@.pixel(ax, ay) == (
                            img.dark(ax - col, ay - row) && (ay - row < y || (ay - row == y && ax - col < x + 1))) by {
                            lemma_index_in_range(w as nat, rows as nat, ax as nat, ay as nat);
                            if ay * w + ax == cy * w + cx {
                                lemma_index_injective(w as nat, ax as nat, ay as nat, cx as nat, cy as nat);
                            } else {
                                assert(before.pixel(ax, ay) == r@.pixel(ax, ay));
                            }
                        }
                    }
                } else {
                    proof {
                        assert forall|ax: int, ay: int| 0 <= ax < w && 0 <= ay < rows implies #[trigger] r@.pixel(ax, ay) == (
                            img.dark(ax - col, ay - row) && (ay - row < y || (ay - row == y && ax - col < x + 1))) by {
                            if ay - row == y && ax - col == x {
                                assert(!img.dark(x as int, y as int) || cx < 0 || cy < 0 || cx >= w || cy >= rows);
                            }
                        }
                    }
                }
                x = x + 1;
            }
            y = y + 1;
        }
        proof {
            lemma_placed(r@, *img, rows as nat, col as int, row as int);
        }
        r
    }

    /// The raster as a grayscale image: black pixels 0, white ones 255.
    pub fn to_image(&self) -> (img: GrayPixels)
        requires
            self.wf(),
        ensures
            img.wf(),
            img.width == self@.cols,
            img.height == self@.rows,
            img.data@ == self@.cells.map_values(|b: bool| if b { 0u8 } else { 255u8 }),
    {
        let mut data: Vec<u8> = Vec::new();
        let mut i: usize = 0;
        while i < self.bits.len()
            invariant
                i <= self.bits@.len(),
                data@ == self.bits@.take(i as int).map_values(|b: bool| if b { 0u8 } else { 255u8 }),
            decreases self.bits@.len() - i,
        {
            data.push(if self.bits[i] { 0u8 } else { 255u8 });
            i = i + 1;
            assert(self.bits@.take(i as int).map_values(|b: bool| if b { 0u8 } else { 255u8 }) =~= self.bits@.take(
                i - 1,
            ).map_values(|b: bool| if b { 0u8 } else { 255u8 }).push(if self.bits@[i - 1] { 0u8 } else { 255u8 }));
        }
        assert(self.bits@.take(self.bits@.len() as int) =~= self.bits@);
        GrayPixels { width: self.cols, height: self.rows, data }
    }

    /// The packed bits of column `x` (row 0 in the top bit of byte 0).
    fn column(&self, x: u32) -> (bytes: Vec<u8>)
        requires
            self.wf(),
            x < self.cols,
        ensures
            bytes@ == column_bytes(self@, x as int),
    {
        let n: u32 = self.rows / 8 + if self.rows % 8 != 0 { 1 } else { 0 };
        assert(n == byte_count(self.rows as nat));
        let mut bytes: Vec<u8> = Vec::new();
        let mut i: u32 = 0;
        while i < n
            invariant
                i <= n,
                bytes@ == Seq::new(i as nat, |j: int| 0u8),
            decreases n - i,
        {
            bytes.push(0u8);
            i = i + 1;
            assert(bytes@ =~= Seq::new(i as nat, |j: int| 0u8));
        }
        let ghost v = self@;
        let ghost cb = v.column_bits(x as int);
        proof {
            lemma_pack8_zero();
        }
        let mut y: u32 = 0;
        while y < self.rows
            invariant
                self.wf(),
                v == self@,
                cb == v.column_bits(x as int),
                x < self.cols,
                y <= self.rows,
                n == byte_count(self.rows as nat),
                bytes@.len() == n,
                pack8(false, false, false, false, false, false, false, false) == 0u8,
                forall|j: int|
                    0 <= j < n ==> #[trigger] bytes@[j] == pack8(
                        8 * j < y && cb[8 * j],
                        8 * j + 1 < y && cb[8 * j + 1],
                        8 * j + 2 < y && cb[8 * j + 2],
                        8 * j + 3 < y && cb[8 * j + 3],
                        8 * j + 4 < y && cb[8 * j + 4],
                        8 * j + 5 < y && cb[8 * j + 5],
                        8 * j + 6 < y && cb[8 * j + 6],
                        8 * j + 7 < y && cb[8 * j + 7],
                    ),
            decreases self.rows - y,
        {
            let black = self.pixel_at(x, y);
            let j = y / 8;
            let k = (y % 8) as u8;
            let ghost old_bytes = bytes@;
            if black {
                let m: u8 = 0x80u8 >> k;
                let b = bytes[j as usize] | m;
                bytes.set(j as usize, b);
                proof {
                    let jj = j as int;
                    lemma_pack8_set(
                        8 * jj < y && cb[8 * jj],
                        8 * jj + 1 < y && cb[8 * jj + 1],
                        8 * jj + 2 < y && cb[8 * jj + 2],
                        8 * jj + 3 < y && cb[8 * jj + 3],
                        8 * jj + 4 < y && cb[8 * jj + 4],
                        8 * jj + 5 < y && cb[8 * jj + 5],
                        8 * jj + 6 < y && cb[8 * jj + 6],
                        8 * jj + 7 < y && cb[8 * jj + 7],
                        k,
                    );
                }
            }
            proof {
                assert(cb[y as int] == black);
                assert forall|jj: int| 0 <= jj < n implies #[trigger] bytes@[jj] == pack8(
                    8 * jj < y + 1 && cb[8 * jj],
                    8 * jj + 1 < y + 1 && cb[8 * jj + 1],
                    8 * jj + 2 < y + 1 && cb[8 * jj + 2],
                    8 * jj + 3 < y + 1 && cb[8 * jj + 3],
                    8 * jj + 4 < y + 1 && cb[8 * jj + 4],
                    8 * jj + 5 < y + 1 && cb[8 * jj + 5],
                    8 * jj + 6 < y + 1 && cb[8 * jj + 6],
                    8 * jj + 7 < y + 1 && cb[8 * jj + 7],
                ) by {
                    assert(old_bytes[jj] == pack8(
                        8 * jj < y && cb[8 * jj],
                        8 * jj + 1 < y && cb[8 * jj + 1],
                        8 * jj + 2 < y && cb[8 * jj + 2],
                        8 * jj + 3 < y && cb[8 * jj + 3],
                        8 * jj + 4 < y && cb[8 * jj + 4],
                        8 * jj + 5 < y && cb[8 * jj + 5],
                        8 * jj + 6 < y && cb[8 * jj + 6],
                        8 * jj + 7 < y && cb[8 * jj + 7],
                    ));
                }
            }
            y = y + 1;
        }
        proof {
            assert forall|jj: int| 0 <= jj < n implies #[trigger] bytes@[jj] == pack_byte(cb, jj) by {
                assert(cb.len() == self.rows);
            }
            reveal(pack);
            assert(bytes@ =~= pack(cb));
        }
        bytes
    }

    /// First and last row containing ink, if any.
    pub fn ink_rows(&self) -> (r: Option<(u32, u32)>)
        requires
            self.wf(),
        ensures
            match r {
                None => forall|y: int| 0 <= y < self@.rows ==> !#[trigger] self@.row_has_ink(y),
                Some((first, last)) => {
                    &&& first <= last < self@.rows
                    &&& self@.row_has_ink(first as int)
                    &&& self@.row_has_ink(last as int)
                    &&& forall|y: int| 0 <= y < first ==> !#[trigger] self@.row_has_ink(y)
                    &&& forall|y: int| last < y < self@.rows ==> !#[trigger] self@.row_has_ink(y)
                },
            },
    {
        let mut first: Option<u32> = None;
        let mut last: u32 = 0;
        let mut y: u32 = 0;
        while y < self.rows
            invariant
                self.wf(),
                y <= self.rows,
                match first {
                    None => forall|i: int| 0 <= i < y ==> !#[trigger] self@.row_has_ink(i),
                    Some(f) => {
                        &&& f <= last < y
                        &&& self@.row_has_ink(f as int)
                        &&& self@.row_has_ink(last as int)
                        &&& forall|i: int| 0 <= i < f ==> !#[trigger] self@.row_has_ink(i)
                        &&& forall|i: int| last < i < y ==> !#[trigger] self@.row_has_ink(i)
                    },
                },
            decreases self.rows - y,
        {
            if self.row_ink(y) {
                if first.is_none() {
                    first = Some(y);
                }
                last = y;
            }
            y = y + 1;
        }
        match first {
            None => None,
            Some(f) => Some((f, last)),
        }
    }
}

pub const MAX_FRAGMENT_PAYLOAD: usize = 148;

#[derive(Clone, Debug)]
pub struct JobParams {
    /// 32 lowercase hex digits (a UUIDv4 without dashes).
    pub job_id: String,
    /// First 10 characters of the supply name, e.g. "M5C-1500-5".
    pub supply_prefix: String,
    pub d: i32,
    /// Number of copies: the `C` field, and the label block is repeated that many times.
    pub copies: u32,
    pub c_lower: u8,
    /// `M` byte: 0 = cut at end of job, 1 = cut after each label, 2 = never cut.
    pub cut: u8,
    pub p: i32,
    pub o: i32,
    pub o_upper: i32,
    pub b: i32,
    pub m: u8,
    pub label_name: String,
}

impl JobParams {
    /// Parameters for a one-copy job, cut at the end, with the constant fields
    /// seen in every captured job.
    pub fn new(job_id: String, supply_prefix: String) -> (p: Self)
        ensures
            p.job_id@ == job_id@,
            p.supply_prefix@ == supply_prefix@,
            p.d == 1,
            p.copies == 1,
            p.c_lower == 0,
            p.cut == 0,
            p.p == 0,
            p.o == 0,
            p.o_upper == 0,
            p.b == 0,
            p.m == 0,
            p.label_name@ == "BUlbl0"@,
    {
        JobParams {
            job_id,
            supply_prefix,
            d: 1,
            copies: 1,
            c_lower: 0,
            cut: 0,
            p: 0,
            o: 0,
            o_upper: 0,
            b: 0,
            m: 0,
            label_name: String::from_str("BUlbl0"),
        }
    }
}

fn cmd(out: &mut Vec<u8>, letter: u8)
    ensures
        final(out)@ == old(out)@ + stx(letter),
{
    out.push(0x02u8);
    out.push(letter);
    assert(out@ =~= old(out)@ + stx(letter));
}

fn cmd_k(out: &mut Vec<u8>, sub: u16)
    ensures
        final(out)@ == old(out)@ + stx_k(sub),
{
    cmd(out, 0x4bu8);
    let b = be16_bytes(sub);
    push_all(out, &b);
    assert(out@ =~= old(out)@ + stx_k(sub));
}

fn signed(out: &mut Vec<u8>, v: i32, digits: usize)
    requires
        v != i32::MIN,
    ensures
        final(out)@ == old(out)@ + signed_decimal(v as int, digits as nat),
{
    push_signed_decimal(out, v, digits);
}

fn all_zero(bytes: &Vec<u8>) -> (z: bool)
    ensures
        z == column_blank(bytes@),
{
    let mut i: usize = 0;
    while i < bytes.len()
        invariant
            i <= bytes@.len(),
            forall|j: int| 0 <= j < i ==> bytes@[j] == 0,
        decreases bytes@.len() - i,
    {
        if bytes[i] != 0 {
            return false;
        }
        i = i + 1;
    }
    true
}

fn encode_raster(out: &mut Vec<u8>, r: &Raster)
    requires
        r.wf(),
    ensures
        final(out)@ == old(out)@ + raster_section(r@),
{
    let ghost v = r@;
    push_all(out, &[0x58u8, 0u8, 0u8, 0x59u8, 0u8, 0u8]);
    let ghost head = out@;
    let mut cursor: u32 = 0;
    let mut yidx: u32 = 0;
    while yidx < r.cols
        invariant
            r.wf(),
            v == r@,
            yidx <= r.cols,
            out@ == head + raster_columns(v, yidx as nat).0,
            cursor == raster_columns(v, yidx as nat).1,
            cursor <= yidx,
        decreases r.cols - yidx,
    {
        let x = r.cols - 1 - yidx;
        let bytes = r.column(x);
        assert(v.cols - 1 - yidx == x);
        if !all_zero(&bytes) {
            let ghost before = out@;
            if cursor != yidx {
                out.push(0x59u8);
                let b = le16_bytes(#[verifier::truncate] (yidx as u16));
                push_all(out, &b);
            }
            proof {
                lemma_pack_len(v.column_bits(x as int));
            }
            assert(bytes@.len() == byte_count(v.rows));
            let enc = encode_column(bytes.as_slice(), r.rows);
            push_all(out, enc.as_slice());
            cursor = yidx + 1;
            proof {
                let jump = if raster_columns(v, yidx as nat).1 != yidx {
                    seq![0x59u8] + le16(yidx as u16)
                } else {
                    Seq::empty()
                };
                assert(out@ =~= before + jump + column_encoding(bytes@, v.rows));
            }
        }
        yidx = yidx + 1;
    }
    if cursor != 0 && cursor != r.cols {
        out.push(0x59u8);
        let b = le16_bytes(#[verifier::truncate] (r.cols as u16));
        push_all(out, &b);
    }
    push_all(out, &[0xffu8, 0xffu8, 0x0du8]);
    proof {
        reveal(raster_section);
        let (body, c) = raster_columns(v, v.cols);
        let tail = if c != 0 && c != v.cols {
            seq![0x59u8] + le16(v.cols as u16)
        } else {
            Seq::empty()
        };
        assert(out@ =~= old(out)@ + (seq![0x58u8, 0u8, 0u8, 0x59u8, 0u8, 0u8] + body + tail + seq![
            0xffu8,
            0xffu8,
            0x0du8,
        ]));
    }
}

#[verifier::spinoff_prover]
#[verifier::rlimit(40)]
fn push_header(out: &mut Vec<u8>, p: &JobParams)
    requires
        params_formattable(*p),
    ensures
        final(out)@ == old(out)@ + job_header(*p),
{
    let ghost o = old(out)@;
    cmd_k(out, 0x0009);
    let ghost h = stx_k(0x0009);
    push_str(out, p.supply_prefix.as_str());
    proof { h = h + encode_utf8(p.supply_prefix@); assert(out@ =~= o + h); }
    out.push(0x0du8);
    proof { h = h + seq![0x0du8]; assert(out@ =~= o + h); }
    cmd(out, 0x44u8);
    proof { h = h + stx(0x44u8); assert(out@ =~= o + h); }
    signed(out, p.d, 4);
    proof { h = h + signed_decimal(p.d as int, 4); assert(out@ =~= o + h); }
    cmd(out, 0x43u8);
    proof { h = h + stx(0x43u8); assert(out@ =~= o + h); }
    signed(out, #[verifier::truncate] (p.copies as i32), 4);
    proof { h = h + signed_decimal((p.copies as i32) as int, 4); assert(out@ =~= o + h); }
    cmd(out, 0x63u8);
    proof { h = h + stx(0x63u8); assert(out@ =~= o + h); }
    out.push(p.c_lower);
    proof { h = h + seq![p.c_lower]; assert(out@ =~= o + h); }
    cmd(out, 0x70u8);
    proof { h = h + stx(0x70u8); assert(out@ =~= o + h); }
    signed(out, p.p, 2);
    proof { h = h + signed_decimal(p.p as int, 2); assert(out@ =~= o + h); }
    cmd(out, 0x6fu8);
    proof { h = h + stx(0x6fu8); assert(out@ =~= o + h); }
    signed(out, p.o, 2);
    proof { h = h + signed_decimal(p.o as int, 2); assert(out@ =~= o + h); }
    cmd(out, 0x4fu8);
    proof { h = h + stx(0x4fu8); assert(out@ =~= o + h); }
    signed(out, p.o_upper, 2);
    proof { h = h + signed_decimal(p.o_upper as int, 2); assert(out@ =~= o + h); }
    cmd(out, 0x62u8);
    proof { h = h + stx(0x62u8); assert(out@ =~= o + h); }
    signed(out, p.b, 2);
    proof { h = h + signed_decimal(p.b as int, 2); assert(out@ =~= o + h); }
    cmd(out, 0x4du8);
    proof { h = h + stx(0x4du8); assert(out@ =~= o + h); }
    out.push(p.cut);
    proof { h = h + seq![p.cut]; assert(out@ =~= o + h); reveal(job_header); assert(h == job_header(*p)); }
}

#[verifier::spinoff_prover]
#[verifier::rlimit(40)]
fn push_label_block(out: &mut Vec<u8>, p: &JobParams, r: &Raster, first: bool)
    requires
        params_formattable(*p),
        r.wf(),
    ensures
        final(out)@ == old(out)@ + label_block(*p, r@, first),
{
    let ghost o = old(out)@;
    let ghost v = r@;
    cmd_k(out, 0x000a);
    let ghost h = stx_k(0x000a);
    push_str(out, p.job_id.as_str());
    proof { h = h + encode_utf8(p.job_id@); assert(out@ =~= o + h); }
    out.push(0x0du8);
    proof { h = h + seq![0x0du8]; assert(out@ =~= o + h); }
    if first {
        push_header(out, p);
    }
    proof { h = h + (if first { job_header(*p) } else { Seq::empty() }); assert(out@ =~= o + h); }
    cmd_k(out, 0x000c);
    proof { h = h + stx_k(0x000c); assert(out@ =~= o + h); }
    push_padded_decimal(out, r.rows, 4);
    proof { h = h + padded_decimal(v.rows, 4); assert(out@ =~= o + h); }
    push_padded_decimal(out, r.cols, 4);
    proof { h = h + padded_decimal(v.cols, 4); assert(out@ =~= o + h); }
    cmd(out, 0x41u8);
    proof { h = h + stx(0x41u8); assert(out@ =~= o + h); }
    cmd(out, 0x51u8);
    proof { h = h + stx(0x51u8); assert(out@ =~= o + h); }
    cmd(out, 0x61u8);
    proof { h = h + stx(0x61u8); assert(out@ =~= o + h); }
    cmd(out, 0x49u8);
    proof { h = h + stx(0x49u8); assert(out@ =~= o + h); }
    push_str(out, p.label_name.as_str());
    proof { h = h + encode_utf8(p.label_name@); assert(out@ =~= o + h); }
    out.push(0x0du8);
    proof { h = h + seq![0x0du8]; assert(out@ =~= o + h); }
    encode_raster(out, r);
    proof { h = h + raster_section(v); assert(out@ =~= o + h); }
    cmd(out, 0x61u8);
    proof { h = h + stx(0x61u8); assert(out@ =~= o + h); }
    cmd(out, 0x47u8);
    proof { h = h + stx(0x47u8); assert(out@ =~= o + h); }
    cmd(out, 0x41u8);
    proof { h = h + stx(0x41u8); assert(out@ =~= o + h); }
    cmd_k(out, 0x000b);
    proof { h = h + stx_k(0x000b); assert(out@ =~= o + h); assert(h == label_block(*p, v, first)); }
}

/// The byte stream of a print job: one label block per copy (at least one),
/// the first carrying the job header.
pub fn encode(p: &JobParams, r: &Raster) -> (out: Vec<u8>)
    requires
        params_formattable(*p),
        r.wf(),
    ensures
        out@ == job_bytes(*p, r@),
{
    let n: u32 = if p.copies > 1 { p.copies } else { 1 };
    let mut out: Vec<u8> = Vec::new();
    let mut copy: u32 = 0;
    while copy < n
        invariant
            params_formattable(*p),
            r.wf(),
            n == block_count(*p),
            copy <= n,
            out@ == label_blocks(*p, r@, copy as nat),
        decreases n - copy,
    {
        push_label_block(&mut out, p, r, copy == 0);
        copy = copy + 1;
    }
    out
}

/// How many write fragments a job of `len` bytes takes: one per 148 bytes or
/// part of them.
pub open spec fn fragment_count(len: nat) -> nat {
    (len + 147) / 148
}

/// The first header byte of fragment `i` of `n`: `03` on the last, `02` on
/// every 16th (`i % 16 == 15`), `01` otherwise.
pub open spec fn fragment_kind(i: nat, n: nat) -> u8 {
    if i + 1 == n {
        3
    } else if i % 16 == 15 {
        2
    } else {
        1
    }
}

/// The job bytes that fragment `i` carries: bytes `148 i` up to `148 (i + 1)`.
pub open spec fn fragment_payload(job: Seq<u8>, i: nat) -> Seq<u8> {
    let start: int = (148 * i) as int;
    let end: int = if start + 148 < job.len() {
        start + 148
    } else {
        job.len() as int
    };
    job.subrange(start as int, end)
}

/// Fragment `i` of a job: `kind idx 00` (the index kept to its low eight
/// bits), then its payload.
pub open spec fn fragment(job: Seq<u8>, i: nat) -> Seq<u8> {
    seq![fragment_kind(i, fragment_count(job.len())), (i % 256) as u8, 0u8] + fragment_payload(job, i)
}

/// Fragments are numbered in order: byte 1 of fragment `i` is `i` modulo 256
/// (the index counts up from 0 and wraps), and byte 2 is 0.
pub proof fn lemma_fragment_index(job: Seq<u8>, i: nat)
    requires
        i < fragment_count(job.len()),
    ensures
        fragment(job, i)[1] as nat == i % 256,
        fragment(job, i)[2] == 0,
{
}

/// Split a job into write fragments: `01 idx 00` + up to 148 bytes; `02` on every 16th fragment (idx % 16 == 15), `03` on the last.
pub fn fragments(job: &[u8]) -> (frags: Vec<Vec<u8>>)
    ensures
        frags@.len() == fragment_count(job@.len()),
        forall|i: int| 0 <= i < frags@.len() ==> #[trigger] frags@[i]@ == fragment(job@, i as nat),
{
    let len = job.len();
    let n: usize = len / MAX_FRAGMENT_PAYLOAD + if len % MAX_FRAGMENT_PAYLOAD != 0 { 1 } else { 0 };
    assert(n == fragment_count(len as nat));
    let mut frags: Vec<Vec<u8>> = Vec::new();
    let mut i: usize = 0;
    while i < n
        invariant
            len == job@.len(),
            n == fragment_count(len as nat),
            i <= n,
            frags@.len() == i,
            forall|j: int| 0 <= j < i ==> #[trigger] frags@[j]@ == fragment(job@, j as nat),
        decreases n - i,
    {
        let start = MAX_FRAGMENT_PAYLOAD * i;
        let end = if len - start > MAX_FRAGMENT_PAYLOAD { start + MAX_FRAGMENT_PAYLOAD } else { len };
        let kind: u8 = if i + 1 == n { 0x03 } else if i % 16 == 15 { 0x02 } else { 0x01 };
        let mut f: Vec<u8> = Vec::new();
        f.push(kind);
        f.push(#[verifier::truncate] (i as u8));
        f.push(0u8);
        proof {
            assert((i as u8) == (i % 256) as u8) by (bit_vector);
            assert(f@ =~= seq![kind, (i % 256) as u8, 0u8] + job@.subrange(start as int, start as int));
        }
        let mut k: usize = start;
        while k < end
            invariant
                start <= k <= end <= len,
                len == job@.len(),
                f@ == seq![kind, (i % 256) as u8, 0u8] + job@.subrange(start as int, k as int),
            decreases end - k,
        {
            f.push(job[k]);
            k = k + 1;
            assert(job@.subrange(start as int, k as int) =~= job@.subrange(start as int, k - 1).push(job@[k - 1]));
        }
        proof {
            assert(f@ =~= fragment(job@, i as nat));
        }
        frags.push(f);
        i = i + 1;
    }
    frags
}

/// The payloads of fragments `k` onwards, concatenated, are the job bytes
/// from `148 k` on.
proof fn lemma_payloads_from(job: Seq<u8>, k: nat)
    requires
        k <= fragment_count(job.len()),
    ensures
        Seq::new((fragment_count(job.len()) - k) as nat, |i: int| fragment_payload(job, (k + i) as nat)).flatten()
            == job.subrange(if 148 * k < job.len() { (148 * k) as int } else { job.len() as int }, job.len() as int),
    decreases fragment_count(job.len()) - k,
{
    let n = fragment_count(job.len());
    let s = Seq::new((n - k) as nat, |i: int| fragment_payload(job, (k + i) as nat));
    if k == n {
        assert(job.subrange(job.len() as int, job.len() as int) =~= Seq::<u8>::empty());
    } else {
        lemma_payloads_from(job, k + 1);
        assert(s.drop_first() =~= Seq::new((n - (k + 1)) as nat, |i: int| fragment_payload(job, (k + 1 + i) as nat)));
        let start: int = (148 * k) as int;
        let end: int = if start + 148 < job.len() { start + 148 } else { job.len() as int };
        assert(s.first() == fragment_payload(job, k));
        assert(job.subrange(start as int, job.len() as int) =~= job.subrange(start as int, end)
            + job.subrange(if 148 * (k + 1) < job.len() { (148 * (k + 1)) as int } else { job.len() as int }, job.len() as int));
    }
}

/// Stripping the three-byte header off every fragment of a job and joining
/// what is left gives back the job; every fragment is at most 151 bytes, and
/// exactly the last one is marked `03`.
pub proof fn lemma_fragments_reassemble(job: Seq<u8>)
    ensures
        Seq::new(fragment_count(job.len()), |i: int| fragment(job, i as nat).skip(3)).flatten() == job,
        forall|i: nat| i < fragment_count(job.len()) ==> 3 < #[trigger] fragment(job, i).len() <= 151,
        forall|i: nat| i < fragment_count(job.len()) ==> (#[trigger] fragment(job, i)[0] == 3u8 <==> i + 1
            == fragment_count(job.len())),
{
    let n = fragment_count(job.len());
    lemma_payloads_from(job, 0);
    assert forall|i: int| 0 <= i < n implies #[trigger] fragment(job, i as nat).skip(3) =~= fragment_payload(job, (0 + i) as nat) by {}
    assert(Seq::new(n, |i: int| fragment(job, i as nat).skip(3)) =~= Seq::new(
        (n - 0) as nat,
        |i: int| fragment_payload(job, (0 + i) as nat),
    ));
    assert(job.subrange(0, job.len() as int) =~= job);
    assert forall|i: nat| i < n implies 3 < #[trigger] fragment(job, i).len() <= 151 by {
        assert(148 * i < job.len());
    }
}

/// Whether `c` is a lowercase hexadecimal digit.
pub open spec fn is_lower_hex(c: char) -> bool {
    (48 <= c as u32 <= 57) || (97 <= c as u32 <= 102)
}

/// Whether `s` is a version 4 UUID in the simple format: 32 lowercase hex
/// digits, the version digit (index 12) `4`, the variant digit (index 16) one
/// of `8 9 a b`.
pub open spec fn is_simple_uuid_v4(s: Seq<char>) -> bool {
    &&& s.len() == 32
    &&& forall|i: int| 0 <= i < 32 ==> is_lower_hex(#[trigger] s[i])
    &&& s[12] == '4'
    &&& (s[16] == '8' || s[16] == '9' || s[16] == 'a' || s[16] == 'b')
}

/// `uuid::Uuid::new_v4().simple().to_string()`: a random UUID with the
/// version bits set to 4 and the variant bits to `10`, written as 32 lowercase
/// hex digits. Which random digits come out is not stated.
#[verifier::external_body]
fn random_uuid_v4_simple() -> (s: String)
    ensures
        is_simple_uuid_v4(s@),
{
    uuid::Uuid::new_v4().simple().to_string()
}

/// A fresh job id: a random UUIDv4 without dashes.
pub fn new_job_id() -> (id: String)
    ensures
        is_simple_uuid_v4(id@),
{
    random_uuid_v4_simple()
}

/// The rows a sequence of run bytes stands for: each byte a run of
/// `(b & 0x7f) + 1` rows, black when bit 7 is set.
pub open spec fn expand_runs(r: Seq<u8>) -> Seq<bool>
    decreases r.len(),
{
    if r.len() == 0 {
        Seq::empty()
    } else {
        Seq::new((r[0] % 128) as nat + 1, |i: int| r[0] >= 128) + expand_runs(r.drop_first())
    }
}

/// `bits` cut or padded with white rows to `rows` rows.
pub open spec fn fit_rows(bits: Seq<bool>, rows: nat) -> Seq<bool> {
    Seq::new(rows, |y: int| y < bits.len() && bits[y])
}

/// How the printer reads one wire column back into `rows` rows: `80 n` and
/// `n` literal bytes (missing bytes white), or `81 n` and `n` run bytes
/// (rows past the last run white).
pub open spec fn decode_column(enc: Seq<u8>, rows: nat) -> Seq<bool> {
    let n = enc[1] as int;
    let payload = enc.subrange(2, 2 + n);
    if enc[0] == 0x81 {
        fit_rows(expand_runs(payload), rows)
    } else {
        Seq::new(rows, |y: int| y / 8 < payload.len() && col_bit(payload, y))
    }
}

proof fn lemma_bit_set_zero(k: u8)
    requires
        k < 8,
    ensures
        !bit_set(0u8, k),
{
    assert(!bit_set(0u8, k)) by (bit_vector)
        requires
            k < 8,
    ;
}

proof fn lemma_expand_concat(a: Seq<u8>, b: Seq<u8>)
    ensures
        expand_runs(a + b) == expand_runs(a) + expand_runs(b),
    decreases a.len(),
{
    if a.len() == 0 {
        assert(a + b =~= b);
    } else {
        lemma_expand_concat(a.drop_first(), b);
        assert((a + b).drop_first() =~= a.drop_first() + b);
    }
}

proof fn lemma_expand_chunks(c: bool, n: nat)
    ensures
        expand_runs(run_chunks(c, n)) == Seq::new(n, |i: int| c),
    decreases n,
{
    if n == 0 {
        assert(Seq::new(0, |i: int| c) =~= Seq::<bool>::empty());
    } else if n <= 128 {
        let b = run_byte(c, n);
        assert(b % 128 == n - 1);
        assert((b >= 128) == c);
        assert(seq![b].drop_first() =~= Seq::<u8>::empty());
        reveal_with_fuel(expand_runs, 2);
        assert(expand_runs(seq![b]) =~= Seq::new(n, |i: int| c));
    } else {
        let b = run_byte(c, 128);
        lemma_expand_chunks(c, (n - 128) as nat);
        lemma_expand_concat(seq![b], run_chunks(c, (n - 128) as nat));
        assert(seq![b].drop_first() =~= Seq::<u8>::empty());
        reveal_with_fuel(expand_runs, 2);
        assert(expand_runs(seq![b]) =~= Seq::new(128, |i: int| c));
        assert(Seq::new(128, |i: int| c) + Seq::new((n - 128) as nat, |i: int| c) =~= Seq::new(n, |i: int| c));
    }
}

proof fn lemma_run_len_colour(b: Seq<bool>, y: int, c: bool, i: int)
    requires
        0 <= y,
        y <= i < y + run_len(b, y, c),
    ensures
        i < b.len(),
        b[i] == c,
    decreases b.len() - y,
{
    if 0 <= y < b.len() && b[y] == c {
        if i > y {
            lemma_run_len_colour(b, y + 1, c, i);
        }
    }
}

/// Expanding the runs from row `y` on gives the rows from `y`, except that a
/// final white run is left to padding.
proof fn lemma_expand_runs_from(b: Seq<bool>, y: nat)
    requires
        y <= b.len(),
    ensures
        expand_runs(runs_from(b, y)).len() <= b.len() - y,
        fit_rows(expand_runs(runs_from(b, y)), (b.len() - y) as nat) == b.skip(y as int),
    decreases b.len() - y,
{
    let len = (b.len() - y) as nat;
    if y >= b.len() {
        assert(runs_from(b, y) =~= Seq::<u8>::empty());
        assert(fit_rows(expand_runs(runs_from(b, y)), len) =~= b.skip(y as int));
    } else {
        let c = b[y as int];
        let n = run_len(b, y as int, c);
        lemma_run_len_step(b, y as int, c);
        lemma_run_len_bound(b, y as int, c);
        if !c && y + n == b.len() {
            assert(runs_from(b, y) =~= Seq::<u8>::empty());
            assert(expand_runs(Seq::<u8>::empty()) =~= Seq::<bool>::empty());
            let f = fit_rows(expand_runs(runs_from(b, y)), len);
            assert forall|i: int| 0 <= i < len implies #[trigger] f[i] == b.skip(y as int)[i] by {
                lemma_run_len_colour(b, y as int, c, y + i);
            }
            assert(f =~= b.skip(y as int));
        } else {
            lemma_expand_runs_from(b, y + n);
            lemma_expand_concat(run_chunks(c, n), runs_from(b, y + n));
            lemma_expand_chunks(c, n);
            let e = expand_runs(runs_from(b, y));
            let rest = expand_runs(runs_from(b, y + n));
            let fr = fit_rows(rest, (b.len() - (y + n)) as nat);
            assert(fr == b.skip((y + n) as int));
            assert(e == Seq::new(n, |i: int| c) + rest);
            let f = fit_rows(e, len);
            assert forall|i: int| 0 <= i < len implies #[trigger] f[i] == b.skip(y as int)[i] by {
                if i < n {
                    lemma_run_len_colour(b, y as int, c, y + i);
                } else {
                    let k = i - n;
                    assert(fr[k] == b.skip((y + n) as int)[k]);
                    if k < rest.len() {
                        assert(e[i] == rest[k]);
                    }
                }
            }
            assert(f =~= b.skip(y as int));
        }
    }
}

proof fn lemma_literal_roundtrip(bits: Seq<bool>)
    requires
        bits.len() <= 2040,
        runs(bits).len() >= trimmed_len(pack(bits)),
    ensures
        decode_column(column_encoding(pack(bits), bits.len()), bits.len()) == bits,
{
    let bytes = pack(bits);
    let rows = bits.len();
    let lit = trimmed_len(bytes);
    lemma_pack_len(bits);
    lemma_trimmed_len_bound(bytes);
    lemma_trimmed_zero(bytes);
    assert(unpack(bytes, rows) =~= bits) by {
        assert forall|y: int| 0 <= y < rows implies #[trigger] col_bit(bytes, y) == bits[y] by {
            lemma_pack_unpack(bits, y);
        }
    }
    let enc = column_encoding(bytes, rows);
    assert(lit < 256);
    let payload = bytes.take(lit as int);
    assert(enc == seq![0x80u8, lit as u8] + payload);
    assert(enc.subrange(2, 2 + lit as int) =~= payload);
    let d = decode_column(enc, rows);
    assert forall|y: int| 0 <= y < rows implies #[trigger] d[y] == bits[y] by {
        lemma_pack_unpack(bits, y);
        if y / 8 >= lit {
            lemma_bit_set_zero((y % 8) as u8);
        } else {
            assert(payload[y / 8] == bytes[y / 8]);
        }
    }
    assert(d =~= bits);
}

proof fn lemma_runs_roundtrip(bits: Seq<bool>)
    requires
        bits.len() <= 2040,
        runs(bits).len() < trimmed_len(pack(bits)),
    ensures
        decode_column(column_encoding(pack(bits), bits.len()), bits.len()) == bits,
{
    let bytes = pack(bits);
    let rows = bits.len();
    lemma_pack_len(bits);
    lemma_trimmed_len_bound(bytes);
    assert(unpack(bytes, rows) =~= bits) by {
        assert forall|y: int| 0 <= y < rows implies #[trigger] col_bit(bytes, y) == bits[y] by {
            lemma_pack_unpack(bits, y);
        }
    }
    let rl = runs(bits);
    let enc = column_encoding(bytes, rows);
    assert(rl.len() < 256);
    assert(enc == seq![0x81u8, rl.len() as u8] + rl);
    assert(enc[1] as int == rl.len());
    assert(enc.subrange(2, 2 + rl.len() as int) =~= rl);
    lemma_expand_runs_from(bits, 0);
    assert(bits.skip(0) =~= bits);
    assert(decode_column(enc, rows) =~= fit_rows(expand_runs(rl), rows));
}

/// The printer gets every column back: reading a column's wire encoding
/// yields its rows, in either form. The count byte holds the payload length
/// only while it is below 256, which columns of at most 2040 rows guarantee.
pub proof fn lemma_column_roundtrip(bits: Seq<bool>)
    requires
        bits.len() <= 2040,
    ensures
        decode_column(column_encoding(pack(bits), bits.len()), bits.len()) == bits,
{
    if runs(bits).len() < trimmed_len(pack(bits)) {
        lemma_runs_roundtrip(bits);
    } else {
        lemma_literal_roundtrip(bits);
    }
}

/// How a reader takes the body of a raster section apart, the cursor standing
/// at wire column `c`: a column entry (`80` or `81`, a count, that many
/// payload bytes) is read back into `rows` rows and stored under the cursor,
/// which then moves on by one; `Y` and a little-endian index move the cursor
/// there; anything else (the end marker `ff ff 0d`) ends the body.
pub open spec fn read_columns(s: Seq<u8>, c: nat, rows: nat) -> Map<nat, Seq<bool>>
    decreases s.len(),
{
    if s.len() >= 3 && s[0] == 0x59 {
        read_columns(s.skip(3), s[1] as nat + 256 * (s[2] as nat), rows)
    } else if s.len() >= 2 && (s[0] == 0x80 || s[0] == 0x81) && 2 + s[1] <= s.len() {
        let n = 2 + s[1];
        map![c => decode_column(s.take(n), rows)].union_prefer_right(read_columns(s.skip(n), c + 1, rows))
    } else {
        Map::empty()
    }
}

/// The columns a reader gets out of a raster section: after `X 0`, the body
/// read from cursor 0.
pub open spec fn read_section(s: Seq<u8>, rows: nat) -> Map<nat, Seq<bool>> {
    if s.len() >= 3 && s[0] == 0x58 && s[1] == 0 && s[2] == 0 {
        read_columns(s.skip(3), 0, rows)
    } else {
        Map::empty()
    }
}

/// The non-blank columns among the first `n` wire columns, by wire index
/// (wire column `Y` is raster column `cols - 1 - Y`), with their pixels.
pub open spec fn sent_columns(r: RasterView, n: nat) -> Map<nat, Seq<bool>> {
    Map::new(
        |y: nat| y < n && !column_blank(column_bytes(r, r.cols - 1 - y)),
        |y: nat| r.column_bits(r.cols - 1 - y),
    )
}

/// A column's wire form is a marker, a count, and exactly that many bytes.
proof fn lemma_column_entry(bits: Seq<bool>)
    requires
        bits.len() <= 2040,
    ensures
        ({
            let enc = column_encoding(pack(bits), bits.len());
            &&& enc.len() >= 2
            &&& enc[0] == 0x80 || enc[0] == 0x81
            &&& enc.len() == 2 + enc[1]
        }),
{
    let bytes = pack(bits);
    lemma_pack_len(bits);
    lemma_trimmed_len_bound(bytes);
    assert(byte_count(bits.len()) <= 255);
}

/// The entry for wire column `y` (a jump when the cursor stands elsewhere,
/// then the column) reads back as that column, with the cursor after it.
proof fn lemma_read_entry(r: RasterView, y: nat, cursor: nat, t: Seq<u8>)
    requires
        r.wf(),
        r.rows <= 2040,
        y < r.cols <= 65536,
    ensures
        ({
            let bytes = column_bytes(r, r.cols - 1 - y);
            let jump = if cursor != y { seq![0x59u8] + le16(y as u16) } else { Seq::empty() };
            read_columns(jump + column_encoding(bytes, r.rows) + t, cursor, r.rows)
                == map![y => r.column_bits(r.cols - 1 - y)].union_prefer_right(read_columns(t, y + 1, r.rows))
        }),
{
    let bits = r.column_bits(r.cols - 1 - y);
    let bytes = column_bytes(r, r.cols - 1 - y);
    let enc = column_encoding(bytes, r.rows);
    lemma_column_entry(bits);
    lemma_column_roundtrip(bits);
    let e = enc + t;
    assert(e.take(enc.len() as int) =~= enc);
    assert(e.skip(enc.len() as int) =~= t);
    assert(e[0] == enc[0] && e[1] == enc[1]);
    assert(read_columns(e, y, r.rows) == map![y => decode_column(e.take(enc.len() as int), r.rows)].union_prefer_right(
        read_columns(e.skip(enc.len() as int), y + 1, r.rows),
    ));
    if cursor != y {
        let jump = seq![0x59u8] + le16(y as u16);
        let s = jump + e;
        assert(jump + enc + t =~= s);
        assert(s.skip(3) =~= e);
        assert(s[0] == 0x59u8);
        assert(s[1] as nat + 256 * (s[2] as nat) == y);
        assert(read_columns(s, cursor, r.rows) == read_columns(e, y, r.rows));
    } else {
        assert(Seq::<u8>::empty() + enc + t =~= e);
    }
}

/// Reading the body built for the first `n` wire columns, followed by
/// anything, gives those columns and then what the rest gives from the
/// cursor the body leaves.
proof fn lemma_read_body(r: RasterView, n: nat, t: Seq<u8>)
    requires
        r.wf(),
        r.rows <= 2040,
        n <= r.cols <= 65536,
    ensures
        read_columns(raster_columns(r, n).0 + t, 0, r.rows)
            == sent_columns(r, n).union_prefer_right(read_columns(t, raster_columns(r, n).1, r.rows)),
    decreases n,
{
    if n == 0 {
        assert(Seq::<u8>::empty() + t =~= t);
        assert(sent_columns(r, 0) =~= Map::<nat, Seq<bool>>::empty());
        assert(sent_columns(r, 0).union_prefer_right(read_columns(t, 0, r.rows)) =~= read_columns(t, 0, r.rows));
    } else {
        let (body, cursor) = raster_columns(r, (n - 1) as nat);
        let y = (n - 1) as nat;
        let bytes = column_bytes(r, r.cols - 1 - y);
        if column_blank(bytes) {
            lemma_read_body(r, (n - 1) as nat, t);
            assert(sent_columns(r, n) =~= sent_columns(r, (n - 1) as nat));
        } else {
            let jump = if cursor != y { seq![0x59u8] + le16(y as u16) } else { Seq::empty() };
            let entry = jump + column_encoding(bytes, r.rows);
            lemma_read_body(r, (n - 1) as nat, entry + t);
            assert(raster_columns(r, n).0 + t =~= body + (entry + t));
            lemma_read_entry(r, y, cursor, t);
            let rest = read_columns(t, n, r.rows);
            assert(sent_columns(r, (n - 1) as nat).union_prefer_right(
                map![y => r.column_bits(r.cols - 1 - y)].union_prefer_right(rest),
            ) =~= sent_columns(r, n).union_prefer_right(rest));
        }
    }
}

/// Reading a raster's section back gives every column that holds ink, under
/// its wire index, with its pixels, and no other column (blank columns are
/// skipped on the wire). The count byte and the cursor index hold their
/// values while columns have at most 2040 rows and there are at most 65536
/// columns.
#[verifier::spinoff_prover]
#[verifier::rlimit(80)]
pub proof fn lemma_raster_section_roundtrip(r: RasterView)
    requires
        r.wf(),
        r.rows <= 2040,
        r.cols <= 65536,
    ensures
        read_section(raster_section(r), r.rows) == sent_columns(r, r.cols),
{
    reveal(raster_section);
    let (body, cursor) = raster_columns(r, r.cols);
    let tail = if cursor != 0 && cursor != r.cols { seq![0x59u8] + le16(r.cols as u16) } else { Seq::empty() };
    let end = seq![0xffu8, 0xffu8, 0x0du8];
    let s = raster_section(r);
    lemma_read_body(r, r.cols, tail + end);
    let te = tail + end;
    assert(read_columns(end, 0, r.rows) == Map::<nat, Seq<bool>>::empty());
    if tail.len() > 0 {
        assert(te.skip(3) =~= end);
        assert(te[0] == 0x59u8);
        assert(read_columns(end, te[1] as nat + 256 * (te[2] as nat), r.rows) == Map::<nat, Seq<bool>>::empty());
        assert(read_columns(te, cursor, r.rows) == Map::<nat, Seq<bool>>::empty());
    } else {
        assert(te =~= end);
    }
    let j = seq![0x59u8, 0u8, 0u8] + (body + te);
    assert(s.skip(3) =~= j);
    assert(j.skip(3) =~= body + te);
    assert(read_columns(j, 0, r.rows) == read_columns(body + te, 0, r.rows));
    assert(read_section(s, r.rows) == read_columns(j, 0, r.rows));
    assert(sent_columns(r, r.cols).union_prefer_right(Map::<nat, Seq<bool>>::empty()) =~= sent_columns(r, r.cols));
}

/// Where the reader's cursor stands when it reaches the end of a section's
/// body that it starts reading at cursor `c` (entries as in `read_columns`).
pub open spec fn read_end(s: Seq<u8>, c: nat) -> nat
    decreases s.len(),
{
    if s.len() >= 3 && s[0] == 0x59 {
        read_end(s.skip(3), s[1] as nat + 256 * (s[2] as nat))
    } else if s.len() >= 2 && (s[0] == 0x80 || s[0] == 0x81) && 2 + s[1] <= s.len() {
        read_end(s.skip(2 + s[1]), c + 1)
    } else {
        c
    }
}

/// Where the reader's cursor stands at the end of a raster section.
pub open spec fn section_end(s: Seq<u8>) -> nat {
    if s.len() >= 3 && s[0] == 0x58 && s[1] == 0 && s[2] == 0 {
        read_end(s.skip(3), 0)
    } else {
        0
    }
}

proof fn lemma_cursor_moved(r: RasterView, n: nat)
    requires
        n <= r.cols,
    ensures
        (raster_columns(r, n).1 != 0) == (exists|y: nat| y < n && !column_blank(#[trigger] column_bytes(r, r.cols - 1 - y))),
        raster_columns(r, n).1 <= n,
    decreases n,
{
    if n > 0 {
        lemma_cursor_moved(r, (n - 1) as nat);
        let y = (n - 1) as nat;
        if !column_blank(column_bytes(r, r.cols - 1 - y)) {
            assert(raster_columns(r, n).1 == n);
        } else if raster_columns(r, n).1 != 0 {
            let w = choose|w: nat| w < y && !column_blank(#[trigger] column_bytes(r, r.cols - 1 - w));
            assert(w < n);
        } else {
            assert forall|w: nat| w < n implies column_blank(#[trigger] column_bytes(r, r.cols - 1 - w)) by {}
        }
    }
}

proof fn lemma_read_end_entry(r: RasterView, y: nat, cursor: nat, t: Seq<u8>)
    requires
        r.wf(),
        r.rows <= 2040,
        y < r.cols <= 65536,
    ensures
        ({
            let bytes = column_bytes(r, r.cols - 1 - y);
            let jump = if cursor != y { seq![0x59u8] + le16(y as u16) } else { Seq::empty() };
            read_end(jump + column_encoding(bytes, r.rows) + t, cursor) == read_end(t, y + 1)
        }),
{
    let bits = r.column_bits(r.cols - 1 - y);
    let bytes = column_bytes(r, r.cols - 1 - y);
    let enc = column_encoding(bytes, r.rows);
    lemma_column_entry(bits);
    let e = enc + t;
    assert(e.skip(enc.len() as int) =~= t);
    assert(e[0] == enc[0] && e[1] == enc[1]);
    assert(read_end(e, y) == read_end(e.skip(enc.len() as int), y + 1));
    if cursor != y {
        let jump = seq![0x59u8] + le16(y as u16);
        let s = jump + e;
        assert(jump + enc + t =~= s);
        assert(s.skip(3) =~= e);
        assert(s[0] == 0x59u8);
        assert(s[1] as nat + 256 * (s[2] as nat) == y);
        assert(read_end(s, cursor) == read_end(e, y));
    } else {
        assert(Seq::<u8>::empty() + enc + t =~= e);
    }
}

proof fn lemma_read_end_body(r: RasterView, n: nat, t: Seq<u8>)
    requires
        r.wf(),
        r.rows <= 2040,
        n <= r.cols <= 65536,
    ensures
        read_end(raster_columns(r, n).0 + t, 0) == read_end(t, raster_columns(r, n).1),
    decreases n,
{
    if n == 0 {
        assert(Seq::<u8>::empty() + t =~= t);
    } else {
        let (body, cursor) = raster_columns(r, (n - 1) as nat);
        let y = (n - 1) as nat;
        let bytes = column_bytes(r, r.cols - 1 - y);
        if column_blank(bytes) {
            lemma_read_end_body(r, (n - 1) as nat, t);
        } else {
            let jump = if cursor != y { seq![0x59u8] + le16(y as u16) } else { Seq::empty() };
            let entry = jump + column_encoding(bytes, r.rows);
            lemma_read_end_body(r, (n - 1) as nat, entry + t);
            assert(raster_columns(r, n).0 + t =~= body + (entry + t));
            lemma_read_end_entry(r, y, cursor, t);
            assert(entry + t =~= jump + column_encoding(bytes, r.rows) + t);
        }
    }
}

/// A raster section ends with `ff ff 0d`, and a reader that follows its
/// cursor moves ends at the raster's width once any column was sent (the
/// final `Y` holds the width as a little-endian 16-bit index), or at 0 when
/// every column is blank.
#[verifier::spinoff_prover]
#[verifier::rlimit(80)]
pub proof fn lemma_raster_section_ends_at_width(r: RasterView)
    requires
        r.wf(),
        r.rows <= 2040,
        r.cols <= 65535,
    ensures
        raster_section(r).len() >= 9,
        raster_section(r).skip(raster_section(r).len() - 3) == seq![0xffu8, 0xffu8, 0x0du8],
        section_end(raster_section(r)) == if exists|y: nat| y < r.cols && !column_blank(#[trigger] column_bytes(r, r.cols - 1 - y)) {
            r.cols
        } else {
            0
        },
{
    reveal(raster_section);
    let (body, cursor) = raster_columns(r, r.cols);
    let tail = if cursor != 0 && cursor != r.cols { seq![0x59u8] + le16(r.cols as u16) } else { Seq::empty() };
    let end = seq![0xffu8, 0xffu8, 0x0du8];
    let s = raster_section(r);
    lemma_cursor_moved(r, r.cols);
    lemma_read_end_body(r, r.cols, tail + end);
    let te = tail + end;
    assert(read_end(end, cursor) == cursor);
    if tail.len() > 0 {
        assert(te.skip(3) =~= end);
        assert(te[0] == 0x59u8);
        assert(te[1] as nat + 256 * (te[2] as nat) == r.cols);
        assert(read_end(te, cursor) == read_end(end, r.cols));
    } else {
        assert(te =~= end);
    }
    let j = seq![0x59u8, 0u8, 0u8] + (body + te);
    assert(s =~= seq![0x58u8, 0u8, 0u8] + j);
    assert(s.skip(3) =~= j);
    assert(j.skip(3) =~= body + te);
    assert(read_end(j, 0) == read_end(body + te, 0));
    assert(s.skip(s.len() - 3) =~= end);
}

proof fn lemma_trimmed_zero(s: Seq<u8>)
    ensures
        forall|i: int| trimmed_len(s) <= i < s.len() ==> s[i] == 0,
    decreases s.len(),
{
    if s.len() > 0 && s.last() == 0 {
        lemma_trimmed_zero(s.drop_last());
        assert forall|i: int| trimmed_len(s) <= i < s.len() implies s[i] == 0 by {
            if i < s.len() - 1 {
                assert(s.drop_last()[i] == s[i]);
            }
        }
    }
}

} // verus!
