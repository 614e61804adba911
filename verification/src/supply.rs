//! Supply part numbers seen on the wire (property 004D) mapped to what the SDK
//! reported for them. The printer never sends the name, dpi or die-cut flag;
//! these come from the cartridges observed so far. Widths are in mils
//! (thousandths of an inch), the unit of property 000C.

use vstd::prelude::*;
use vstd::string::*;

verus! {

#[derive(Clone, Copy, Debug)]
pub struct Supply {
    pub part_number: &'static str,
    pub name: &'static str,
    pub width_mils: u32,
    pub die_cut: bool,
}

/// The cartridges seen so far, in table order.
pub open spec fn supply_table() -> Seq<Supply> {
    seq![
        Supply { part_number: "5153508", name: "M5C-1500-595-WT-BK", width_mils: 1500, die_cut: false },
        Supply { part_number: "5072987", name: "M5C-1500-595-OR-BK", width_mils: 1500, die_cut: false },
        Supply { part_number: "5072986", name: "M5C-1500-595-CL-BK", width_mils: 1500, die_cut: false },
        Supply { part_number: "5072905", name: "M5C-1500-595-CL-WT", width_mils: 1500, die_cut: false },
        Supply { part_number: "5072903", name: "M5C-1500-595-BK-WT", width_mils: 1500, die_cut: false },
        Supply { part_number: "5073028", name: "M4C-250-7641-YL", width_mils: 355, die_cut: false },
    ]
}

/// The table of known cartridges.
pub fn supplies() -> (t: Vec<Supply>)
    ensures
        t@ == supply_table(),
{
    let mut t: Vec<Supply> = Vec::new();
    t.push(Supply { part_number: "5153508", name: "M5C-1500-595-WT-BK", width_mils: 1500, die_cut: false });
    t.push(Supply { part_number: "5072987", name: "M5C-1500-595-OR-BK", width_mils: 1500, die_cut: false });
    t.push(Supply { part_number: "5072986", name: "M5C-1500-595-CL-BK", width_mils: 1500, die_cut: false });
    t.push(Supply { part_number: "5072905", name: "M5C-1500-595-CL-WT", width_mils: 1500, die_cut: false });
    t.push(Supply { part_number: "5072903", name: "M5C-1500-595-BK-WT", width_mils: 1500, die_cut: false });
    t.push(Supply { part_number: "5073028", name: "M4C-250-7641-YL", width_mils: 355, die_cut: false });
    assert(t@ =~= supply_table());
    t
}

pub const DPI: u32 = 300;

/// Head window the SDK works with (1.44 in), in mils.
pub const HEAD_MILS: u32 = 1440;

/// The first entry of `t` with part number `part`.
pub open spec fn first_with_part(t: Seq<Supply>, part: Seq<char>) -> Option<Supply>
    decreases t.len(),
{
    if t.len() == 0 {
        None
    } else if t[0].part_number@ == part {
        Some(t[0])
    } else {
        first_with_part(t.drop_first(), part)
    }
}

/// The known cartridge with this part number.
pub fn lookup(part_number: &str) -> (s: Option<Supply>)
    ensures
        s == first_with_part(supply_table(), part_number@),
{
    let t = supplies();
    let mut i: usize = 0;
    assert(t@.skip(0) =~= t@);
    while i < t.len()
        invariant
            t@ == supply_table(),
            i <= t@.len(),
            first_with_part(t@.skip(i as int), part_number@) == first_with_part(supply_table(), part_number@),
        decreases t@.len() - i,
    {
        assert(t@.skip(i as int).drop_first() =~= t@.skip(i + 1));
        if crate::text::str_eq(t[i].part_number, part_number) {
            return Some(t[i]);
        }
        i = i + 1;
    }
    assert(t@.skip(i as int) =~= Seq::<Supply>::empty());
    None
}

/// Canvas height = supply width at 300 dpi, truncated: 1500 mils -> 450, 355 mils -> 106.
pub fn canvas_rows(width_mils: u32) -> (rows: u32)
    ensures
        rows == width_mils * 300 / 1000,
{
    (width_mils as u64 * 300 / 1000) as u32
}

/// Row the SDK puts the image's top on with a zero x offset: 36 on 1500 mils,
/// 0 on 355 mils. Fits 2 * (width - 1.44 in) at 300 dpi, rounded half away
/// from zero, and held to the `i32` range.
pub fn default_row(width_mils: u32) -> (row: i32)
    ensures
        row == if width_mils > HEAD_MILS {
            let r = (2 * 3 * (width_mils - HEAD_MILS) + 5) / 10;
            if r > i32::MAX { i32::MAX as int } else { r }
        } else {
            0
        },
{
    if width_mils > HEAD_MILS {
        let r: u64 = (2 * 3 * ((width_mils - HEAD_MILS) as u64) + 5) / 10;
        if r > i32::MAX as u64 { i32::MAX } else { r as i32 }
    } else {
        0
    }
}

/// The first ten characters of `s` (all of it when shorter).
pub open spec fn first_ten(s: Seq<char>) -> Seq<char> {
    if s.len() <= 10 {
        s
    } else {
        s.take(10)
    }
}

/// First 10 characters of the supply name, as the job header wants it.
pub fn job_prefix(name: &str) -> (p: String)
    ensures
        p@ == first_ten(name@),
{
    let n = name.unicode_len();
    let end = if n < 10 { n } else { 10 };
    let part = name.substring_char(0, end);
    assert(name@.subrange(0, end as int) =~= first_ten(name@));
    String::from_str(part)
}

/// Whether looking up `part` finds a cartridge of that part number with this
/// name and width that is not die-cut.
pub open spec fn finds(part: Seq<char>, name: Seq<char>, width_mils: u32) -> bool {
    &&& first_with_part(supply_table(), part) matches Some(s)
    &&& s.part_number@ == part
    &&& s.name@ == name
    &&& s.width_mils == width_mils
    &&& !s.die_cut
}

/// The cartridges observed with the SDK, each with the part number the
/// printer reports for it (property 004D), its name and its width: 1.5 in
/// for the M5C tapes, 0.355 in for the M4C sleeve.
pub proof fn lemma_observed_cartridges()
    ensures
        finds("5153508"@, "M5C-1500-595-WT-BK"@, 1500),
        finds("5072987"@, "M5C-1500-595-OR-BK"@, 1500),
        finds("5072986"@, "M5C-1500-595-CL-BK"@, 1500),
        finds("5072905"@, "M5C-1500-595-CL-WT"@, 1500),
        finds("5072903"@, "M5C-1500-595-BK-WT"@, 1500),
        finds("5073028"@, "M4C-250-7641-YL"@, 355),
{
    reveal_strlit("5153508");
    reveal_strlit("5072987");
    reveal_strlit("5072986");
    reveal_strlit("5072905");
    reveal_strlit("5072903");
    reveal_strlit("5073028");
    assert("5153508"@[1] != "5072987"@[1]);
    assert("5153508"@[1] != "5072986"@[1]);
    assert("5072987"@[6] != "5072986"@[6]);
    assert("5153508"@[1] != "5072905"@[1]);
    assert("5072987"@[5] != "5072905"@[5]);
    assert("5072986"@[5] != "5072905"@[5]);
    assert("5153508"@[1] != "5072903"@[1]);
    assert("5072987"@[5] != "5072903"@[5]);
    assert("5072986"@[5] != "5072903"@[5]);
    assert("5072905"@[6] != "5072903"@[6]);
    assert("5153508"@[1] != "5073028"@[1]);
    assert("5072987"@[3] != "5073028"@[3]);
    assert("5072986"@[3] != "5073028"@[3]);
    assert("5072905"@[3] != "5073028"@[3]);
    assert("5072903"@[3] != "5073028"@[3]);
    let t = supply_table();
    assert(t.subrange(0, 6).drop_first() =~= t.subrange(1, 6));
    assert(t.subrange(1, 6).drop_first() =~= t.subrange(2, 6));
    assert(t.subrange(2, 6).drop_first() =~= t.subrange(3, 6));
    assert(t.subrange(3, 6).drop_first() =~= t.subrange(4, 6));
    assert(t.subrange(4, 6).drop_first() =~= t.subrange(5, 6));
    assert(t.subrange(0, 6) =~= t);
    assert(first_with_part(t.subrange(0, 6), "5153508"@) == Some(t[0]));
    assert(first_with_part(t.subrange(0, 6), "5072987"@) == first_with_part(t.subrange(1, 6), "5072987"@));
    assert(first_with_part(t.subrange(1, 6), "5072987"@) == Some(t[1]));
    assert(first_with_part(t.subrange(0, 6), "5072986"@) == first_with_part(t.subrange(1, 6), "5072986"@));
    assert(first_with_part(t.subrange(1, 6), "5072986"@) == first_with_part(t.subrange(2, 6), "5072986"@));
    assert(first_with_part(t.subrange(2, 6), "5072986"@) == Some(t[2]));
    assert(first_with_part(t.subrange(0, 6), "5072905"@) == first_with_part(t.subrange(1, 6), "5072905"@));
    assert(first_with_part(t.subrange(1, 6), "5072905"@) == first_with_part(t.subrange(2, 6), "5072905"@));
    assert(first_with_part(t.subrange(2, 6), "5072905"@) == first_with_part(t.subrange(3, 6), "5072905"@));
    assert(first_with_part(t.subrange(3, 6), "5072905"@) == Some(t[3]));
    assert(first_with_part(t.subrange(0, 6), "5072903"@) == first_with_part(t.subrange(1, 6), "5072903"@));
    assert(first_with_part(t.subrange(1, 6), "5072903"@) == first_with_part(t.subrange(2, 6), "5072903"@));
    assert(first_with_part(t.subrange(2, 6), "5072903"@) == first_with_part(t.subrange(3, 6), "5072903"@));
    assert(first_with_part(t.subrange(3, 6), "5072903"@) == first_with_part(t.subrange(4, 6), "5072903"@));
    assert(first_with_part(t.subrange(4, 6), "5072903"@) == Some(t[4]));
    assert(first_with_part(t.subrange(0, 6), "5073028"@) == first_with_part(t.subrange(1, 6), "5073028"@));
    assert(first_with_part(t.subrange(1, 6), "5073028"@) == first_with_part(t.subrange(2, 6), "5073028"@));
    assert(first_with_part(t.subrange(2, 6), "5073028"@) == first_with_part(t.subrange(3, 6), "5073028"@));
    assert(first_with_part(t.subrange(3, 6), "5073028"@) == first_with_part(t.subrange(4, 6), "5073028"@));
    assert(first_with_part(t.subrange(4, 6), "5073028"@) == first_with_part(t.subrange(5, 6), "5073028"@));
    assert(first_with_part(t.subrange(5, 6), "5073028"@) == Some(t[5]));
}

} // verus!
