//! Probe rasters for protocol capture: tiny 1-bit images whose content makes
//! the wire encoding obvious.

use vstd::prelude::*;
use vstd::string::*;
use crate::wire::{decimal, decimal_bytes};
use crate::job::GrayPixels;

verus! {

pub const ROWS: u32 = 432;

/// What a probe paints black, given the column `x`, the row `y` and the
/// probe's width `w`.
#[derive(Clone, Copy, Debug)]
pub enum Pattern {
    /// Nothing.
    White,
    /// The single pixel `(x, y)`.
    Dot { x: u32, y: u32 },
    /// The single pixel in the last column on row `y`.
    DotLastColumn { y: u32 },
    /// Every pixel of column `x`.
    Column { x: u32 },
    /// Every pixel of row `y`.
    Row { y: u32 },
    /// Every even row.
    AlternateRows,
    /// Rows `from` up to (not including) `to`.
    Band { from: u32, to: u32 },
    /// Pixels whose coordinates add up to an even number.
    Checker,
    /// The top-left pixel and the last column's pixel on row 431.
    Corners,
}

impl Pattern {
    /// Whether the pattern paints `(x, y)` black on a probe `w` pixels wide.
    pub open spec fn paints(self, x: int, y: int, w: int) -> bool {
        match self {
            Pattern::White => false,
            Pattern::Dot { x: px, y: py } => x == px && y == py,
            Pattern::DotLastColumn { y: py } => x == w - 1 && y == py,
            Pattern::Column { x: px } => x == px,
            Pattern::Row { y: py } => y == py,
            Pattern::AlternateRows => y % 2 == 0,
            Pattern::Band { from, to } => from <= y < to,
            Pattern::Checker => (x + y) % 2 == 0,
            Pattern::Corners => (x == 0 && y == 0) || (x == w - 1 && y == 431),
        }
    }

    /// Whether the pattern paints `(x, y)` black on a probe `w` pixels wide.
    pub fn paint(&self, x: u32, y: u32, w: u32) -> (black: bool)
        requires
            x < w,
        ensures
            black == self.paints(x as int, y as int, w as int),
    {
        match *self {
            Pattern::White => false,
            Pattern::Dot { x: px, y: py } => x == px && y == py,
            Pattern::DotLastColumn { y: py } => x == w - 1 && y == py,
            Pattern::Column { x: px } => x == px,
            Pattern::Row { y: py } => y == py,
            Pattern::AlternateRows => y % 2 == 0,
            Pattern::Band { from, to } => from <= y && y < to,
            Pattern::Checker => (x as u64 + y as u64) % 2 == 0,
            Pattern::Corners => (x == 0 && y == 0) || (x == w - 1 && y == 431),
        }
    }
}

/// A probe image: its name (pattern and base width), its width in columns,
/// and what it paints.
pub struct Probe {
    pub name: String,
    pub width: u32,
    /// Which pixels are black, given the column, the row and the width.
    pub pattern: Pattern,
}

/// The decimal digits of `n` as text.
pub open spec fn decimal_text(n: nat) -> Seq<char> {
    decimal(n).map_values(|b: u8| b as char)
}

fn digit_text(d: u8) -> (s: &'static str)
    requires
        48 <= d <= 57,
    ensures
        s@ == seq![d as char],
{
    proof {
        reveal_strlit("0");
        reveal_strlit("1");
        reveal_strlit("2");
        reveal_strlit("3");
        reveal_strlit("4");
        reveal_strlit("5");
        reveal_strlit("6");
        reveal_strlit("7");
        reveal_strlit("8");
        reveal_strlit("9");
    }
    let s = match d {
        48 => "0",
        49 => "1",
        50 => "2",
        51 => "3",
        52 => "4",
        53 => "5",
        54 => "6",
        55 => "7",
        56 => "8",
        _ => "9",
    };
    assert(s@ =~= seq![d as char]);
    s
}

proof fn lemma_decimal_digits(n: nat)
    ensures
        forall|i: int| 0 <= i < decimal(n).len() ==> 48 <= #[trigger] decimal(n)[i] <= 57,
    decreases n,
{
    if n >= 10 {
        lemma_decimal_digits(n / 10);
        let d = decimal(n / 10).push((48 + n % 10) as u8);
        assert(decimal(n) == d);
        assert forall|i: int| 0 <= i < d.len() implies 48 <= #[trigger] d[i] <= 57 by {
            if i < d.len() - 1 {
                assert(d[i] == decimal(n / 10)[i]);
            }
        }
    }
}

/// `base`, a dash, and `w` in decimal.
fn probe_name(base: &str, w: u32) -> (s: String)
    ensures
        s@ == base@ + "-"@ + decimal_text(w as nat),
{
    let mut s = String::from_str(base);
    s.append("-");
    let d = decimal_bytes(w);
    proof {
        lemma_decimal_digits(w as nat);
    }
    let ghost start = s@;
    let mut i: usize = 0;
    while i < d.len()
        invariant
            d@ == decimal(w as nat),
            i <= d@.len(),
            forall|j: int| 0 <= j < d@.len() ==> 48 <= #[trigger] d@[j] <= 57,
            s@ == start + d@.take(i as int).map_values(|b: u8| b as char),
        decreases d@.len() - i,
    {
        s.append(digit_text(d[i]));
        i = i + 1;
        assert(d@.take(i as int).map_values(|b: u8| b as char) =~= d@.take(i - 1).map_values(|b: u8| b as char).push(
            d@[i - 1] as char,
        ));
    }
    assert(d@.take(d@.len() as int) =~= d@);
    s
}

/// The probe list for base width `w`: its names, widths and patterns.
pub open spec fn probe_spec(w: nat) -> Seq<(Seq<char>, nat, Pattern)> {
    let n = |base: Seq<char>| base + "-"@ + decimal_text(w);
    seq![
        (n("white"@), w, Pattern::White),
        (n("dot-r0c0"@), w, Pattern::Dot { x: 0, y: 0 }),
        (n("dot-r1c0"@), w, Pattern::Dot { x: 0, y: 1 }),
        (n("dot-r0c1"@), w, Pattern::Dot { x: 1, y: 0 }),
        (n("dot-r8c0"@), w, Pattern::Dot { x: 0, y: 8 }),
        (n("dot-r431cLast"@), w, Pattern::DotLastColumn { y: 431 }),
        (n("col5"@), w, Pattern::Column { x: 5 }),
        (n("row100"@), w, Pattern::Row { y: 100 }),
        (n("altrows"@), w, Pattern::AlternateRows),
        (n("band-r100-200"@), w, Pattern::Band { from: 100, to: 200 }),
        (n("checker"@), w, Pattern::Checker),
        (n("corners-m2"@), (w - 2) as nat, Pattern::Corners),
        (n("corners-m1"@), (w - 1) as nat, Pattern::Corners),
        (n("corners-p1"@), w + 1, Pattern::Corners),
    ]
}

/// A probe by its name, width and pattern.
pub open spec fn probe_view(p: Probe) -> (Seq<char>, nat, Pattern) {
    (p.name@, p.width as nat, p.pattern)
}

fn probe(base: &str, w: u32, width: u32, pattern: Pattern) -> (p: Probe)
    ensures
        p.name@ == base@ + "-"@ + decimal_text(w as nat),
        p.width == width,
        p.pattern == pattern,
{
    Probe { name: probe_name(base, w), width, pattern }
}

/// The probes for base width `w`: single dots, a column, a row, alternating
/// rows, a band, a checkerboard, and corner dots on slightly narrower and
/// wider images.
pub fn probes(w: u32) -> (ps: Vec<Probe>)
    requires
        2 <= w < u32::MAX,
    ensures
        ps@.map_values(|p: Probe| probe_view(p)) == probe_spec(w as nat),
{
    let mut ps: Vec<Probe> = Vec::new();
    ps.push(probe("white", w, w, Pattern::White));
    ps.push(probe("dot-r0c0", w, w, Pattern::Dot { x: 0, y: 0 }));
    ps.push(probe("dot-r1c0", w, w, Pattern::Dot { x: 0, y: 1 }));
    ps.push(probe("dot-r0c1", w, w, Pattern::Dot { x: 1, y: 0 }));
    ps.push(probe("dot-r8c0", w, w, Pattern::Dot { x: 0, y: 8 }));
    ps.push(probe("dot-r431cLast", w, w, Pattern::DotLastColumn { y: 431 }));
    ps.push(probe("col5", w, w, Pattern::Column { x: 5 }));
    ps.push(probe("row100", w, w, Pattern::Row { y: 100 }));
    ps.push(probe("altrows", w, w, Pattern::AlternateRows));
    ps.push(probe("band-r100-200", w, w, Pattern::Band { from: 100, to: 200 }));
    ps.push(probe("checker", w, w, Pattern::Checker));
    ps.push(probe("corners-m2", w, w - 2, Pattern::Corners));
    ps.push(probe("corners-m1", w, w - 1, Pattern::Corners));
    ps.push(probe("corners-p1", w, w + 1, Pattern::Corners));
    assert(ps@.map_values(|p: Probe| probe_view(p)) =~= probe_spec(w as nat));
    ps
}

/// The shade of a probe pixel: 0 where the pattern paints, 255 elsewhere.
pub open spec fn shade(p: Pattern, x: int, y: int, w: int) -> u8 {
    if p.paints(x, y, w) {
        0u8
    } else {
        255u8
    }
}

proof fn lemma_row_index(w: int, ax: int, ay: int, y: int)
    requires
        0 <= ax < w,
        0 <= ay < y,
    ensures
        0 <= ay * w + ax < y * w,
{
    assert(0 <= ay * w + ax < (ay + 1) * w) by (nonlinear_arith)
        requires
            0 <= ax < w,
            0 <= ay,
    ;
    assert((ay + 1) * w <= y * w) by (nonlinear_arith)
        requires
            ay < y,
            0 <= w,
    ;
}

/// The probe as a `ROWS`-tall grayscale image: painted pixels 0, the rest 255.
pub fn render(p: &Probe) -> (img: GrayPixels)
    ensures
        img.wf(),
        img.width == p.width,
        img.height == ROWS,
        forall|x: int, y: int|
            0 <= x < p.width && 0 <= y < ROWS ==> #[trigger] img.value(x, y) == shade(p.pattern, x, y, p.width as int),
{
    let w = p.width;
    let mut data: Vec<u8> = Vec::new();
    let mut y: u32 = 0;
    while y < ROWS
        invariant
            w == p.width,
            y <= ROWS,
            data@.len() == y * w,
            forall|ax: int, ay: int|
                0 <= ax < w && 0 <= ay < y ==> #[trigger] data@[ay * w + ax] == shade(p.pattern, ax, ay, w as int),
        decreases ROWS - y,
    {
        let mut x: u32 = 0;
        let ghost row_start = data@.len();
        while x < w
            invariant
                w == p.width,
                y < ROWS,
                x <= w,
                row_start == y * w,
                data@.len() == row_start + x,
                forall|ax: int, ay: int|
                    0 <= ax < w && 0 <= ay < y ==> #[trigger] data@[ay * w + ax] == shade(p.pattern, ax, ay, w as int),
                forall|ax: int| 0 <= ax < x ==> #[trigger] data@[row_start + ax] == shade(p.pattern, ax, y as int, w as int),
            decreases w - x,
        {
            let black = p.pattern.paint(x, y, w);
            let ghost before = data@;
            data.push(if black { 0u8 } else { 255u8 });
            proof {
                assert forall|ax: int, ay: int|
                    0 <= ax < w && 0 <= ay < y implies #[trigger] data@[ay * w + ax] == shade(p.pattern, ax, ay, w as int) by {
                    lemma_row_index(w as int, ax, ay, y as int);
                    assert(before[ay * w + ax] == data@[ay * w + ax]);
                }
            }
            x = x + 1;
        }
        proof {
            assert((y + 1) * w == y * w + w) by (nonlinear_arith);
            assert forall|ax: int, ay: int| 0 <= ax < w && 0 <= ay < y + 1 implies #[trigger] data@[ay * w + ax] == shade(p.pattern, ax, ay, w as int) by {
                if ay == y {
                    assert(data@[row_start + ax] == shade(p.pattern, ax, y as int, w as int));
                }
            }
        }
        y = y + 1;
    }
    proof {
        assert(ROWS * w == w * ROWS) by (nonlinear_arith);
    }
    GrayPixels { width: w, height: ROWS, data }
}

/// The width offset that a probe's base name states: `corners-m2` is two
/// columns narrower than the base width, `corners-m1` one column narrower,
/// `corners-p1` one column wider; every other probe has the base width.
pub open spec fn width_offset(base: Seq<char>) -> int {
    if base == "corners-m2"@ {
        -2
    } else if base == "corners-m1"@ {
        -1
    } else if base == "corners-p1"@ {
        1
    } else {
        0
    }
}

/// The base name of a probe named `name` for base width `w`: what stands
/// before the dash and the width.
pub open spec fn base_name(name: Seq<char>, w: nat) -> Seq<char> {
    name.take(name.len() - decimal_text(w).len() - 1)
}

proof fn lemma_base_of(base: Seq<char>, w: nat)
    ensures
        base_name(base + "-"@ + decimal_text(w), w) == base,
{
    reveal_strlit("-");
    assert((base + "-"@ + decimal_text(w)).take(base.len() as int) =~= base);
}

/// Every probe is named `base-w` after the base width `w`, and is as wide as
/// the base width plus the offset its base name states.
pub proof fn lemma_probe_widths(w: nat)
    requires
        w >= 2,
    ensures
        forall|i: int|
            0 <= i < probe_spec(w).len() ==> {
                let p = #[trigger] probe_spec(w)[i];
                &&& p.0 == base_name(p.0, w) + "-"@ + decimal_text(w)
                &&& p.1 == w + width_offset(base_name(p.0, w))
            },
{
    assert forall|i: int| 0 <= i < probe_spec(w).len() implies {
        let p = #[trigger] probe_spec(w)[i];
        &&& p.0 == base_name(p.0, w) + "-"@ + decimal_text(w)
        &&& p.1 == w + width_offset(base_name(p.0, w))
    } by {
        reveal_strlit("white");
        reveal_strlit("dot-r0c0");
        reveal_strlit("dot-r1c0");
        reveal_strlit("dot-r0c1");
        reveal_strlit("dot-r8c0");
        reveal_strlit("dot-r431cLast");
        reveal_strlit("col5");
        reveal_strlit("row100");
        reveal_strlit("altrows");
        reveal_strlit("band-r100-200");
        reveal_strlit("checker");
        reveal_strlit("corners-m2");
        reveal_strlit("corners-m1");
        reveal_strlit("corners-p1");
        if i == 0 {
            lemma_base_of("white"@, w);
            assert("white"@.len() != 10);
            assert(width_offset("white"@) == 0);
        } else if i == 1 {
            lemma_base_of("dot-r0c0"@, w);
            assert("dot-r0c0"@.len() != 10);
            assert(width_offset("dot-r0c0"@) == 0);
        } else if i == 2 {
            lemma_base_of("dot-r1c0"@, w);
            assert("dot-r1c0"@.len() != 10);
            assert(width_offset("dot-r1c0"@) == 0);
        } else if i == 3 {
            lemma_base_of("dot-r0c1"@, w);
            assert("dot-r0c1"@.len() != 10);
            assert(width_offset("dot-r0c1"@) == 0);
        } else if i == 4 {
            lemma_base_of("dot-r8c0"@, w);
            assert("dot-r8c0"@.len() != 10);
            assert(width_offset("dot-r8c0"@) == 0);
        } else if i == 5 {
            lemma_base_of("dot-r431cLast"@, w);
            assert("dot-r431cLast"@.len() != 10);
            assert(width_offset("dot-r431cLast"@) == 0);
        } else if i == 6 {
            lemma_base_of("col5"@, w);
            assert("col5"@.len() != 10);
            assert(width_offset("col5"@) == 0);
        } else if i == 7 {
            lemma_base_of("row100"@, w);
            assert("row100"@.len() != 10);
            assert(width_offset("row100"@) == 0);
        } else if i == 8 {
            lemma_base_of("altrows"@, w);
            assert("altrows"@.len() != 10);
            assert(width_offset("altrows"@) == 0);
        } else if i == 9 {
            lemma_base_of("band-r100-200"@, w);
            assert("band-r100-200"@.len() != 10);
            assert(width_offset("band-r100-200"@) == 0);
        } else if i == 10 {
            lemma_base_of("checker"@, w);
            assert("checker"@.len() != 10);
            assert(width_offset("checker"@) == 0);
        } else if i == 11 {
            lemma_base_of("corners-m2"@, w);
            assert("corners-m2"@[9] != "corners-m1"@[9]);
            assert("corners-m2"@[8] != "corners-p1"@[8]);
            assert(width_offset("corners-m2"@) == -2);
        } else if i == 12 {
            lemma_base_of("corners-m1"@, w);
            assert("corners-m1"@[9] != "corners-m2"@[9]);
            assert("corners-m1"@[8] != "corners-p1"@[8]);
            assert(width_offset("corners-m1"@) == -1);
        } else if i == 13 {
            lemma_base_of("corners-p1"@, w);
            assert("corners-p1"@[8] != "corners-m2"@[8]);
            assert("corners-p1"@[8] != "corners-m1"@[8]);
            assert(width_offset("corners-p1"@) == 1);
        }
    }
}

} // verus!
