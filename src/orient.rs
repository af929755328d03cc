use vstd::prelude::*;
use vstd::string::*;

verus! {

/// The transform that makes an image upright, by EXIF orientation code.
#[derive(Clone, Copy, Debug, PartialEq, Eq, Structural)]
pub enum OrientationFix {
    Identity,
    FlipHorizontal,
    Rotate180,
    FlipVertical,
    /// Mirror across the main diagonal: flip horizontally, then rotate by 270
    /// degrees clockwise.
    Transpose,
    Rotate90,
    /// Mirror across the anti-diagonal: flip horizontally, then rotate by 90
    /// degrees clockwise.
    Transverse,
    Rotate270,
}

/// The standard EXIF orientation table; code 1 and unknown codes need nothing.
pub open spec fn orientation_table(code: u32) -> OrientationFix {
    if code == 2 {
        OrientationFix::FlipHorizontal
    } else if code == 3 {
        OrientationFix::Rotate180
    } else if code == 4 {
        OrientationFix::FlipVertical
    } else if code == 5 {
        OrientationFix::Transpose
    } else if code == 6 {
        OrientationFix::Rotate90
    } else if code == 7 {
        OrientationFix::Transverse
    } else if code == 8 {
        OrientationFix::Rotate270
    } else {
        OrientationFix::Identity
    }
}

/// The transform for an EXIF orientation code.
pub fn fix_orientation_standard(orientation: u32) -> (r: OrientationFix)
    ensures
        r == orientation_table(orientation),
{
    match orientation {
        2 => OrientationFix::FlipHorizontal,
        3 => OrientationFix::Rotate180,
        4 => OrientationFix::FlipVertical,
        5 => OrientationFix::Transpose,
        6 => OrientationFix::Rotate90,
        7 => OrientationFix::Transverse,
        8 => OrientationFix::Rotate270,
        _ => OrientationFix::Identity,
    }
}

/// One EXIF entry, as far as orientation needs it: the tag number in its
/// directory, its first 16-bit value if it holds such values, and its text if
/// it holds ASCII.
#[derive(Clone, Debug)]
pub struct ExifRecord {
    pub tag: u16,
    pub first_u16: Option<u16>,
    pub ascii: Option<String>,
}

/// A brand's orientation quirk: for images made by `brand`, code `from` is
/// read as `to`.
#[derive(Clone, Debug)]
pub struct OrientationQuirk {
    pub brand: String,
    pub from: u16,
    pub to: u16,
}

/// The tag of the orientation entry.
pub open spec fn orientation_tag() -> u16 {
    0x0112
}

/// The tag of the camera make entry.
pub open spec fn make_tag() -> u16 {
    0x010f
}

/// The orientation code of the last orientation entry that holds a value.
pub open spec fn last_orientation(entries: Seq<ExifRecord>) -> Option<u16>
    decreases entries.len(),
{
    if entries.len() == 0 {
        None
    } else {
        let e = entries.last();
        if e.tag == orientation_tag() && e.first_u16 is Some {
            e.first_u16
        } else {
            last_orientation(entries.drop_last())
        }
    }
}

/// The text of the last make entry that holds text.
pub open spec fn last_make(entries: Seq<ExifRecord>) -> Option<Seq<char>>
    decreases entries.len(),
{
    if entries.len() == 0 {
        None
    } else {
        let e = entries.last();
        if e.tag == make_tag() && e.ascii is Some {
            Some(e.ascii->0@)
        } else {
            last_make(entries.drop_last())
        }
    }
}

/// The code after the first quirk of the table that matches the brand and
/// the code; the code itself when none does.
pub open spec fn remapped(quirks: Seq<OrientationQuirk>, brand: Seq<char>, code: u16) -> u16
    decreases quirks.len(),
{
    if quirks.len() == 0 {
        code
    } else if quirks[0].brand@ == brand && quirks[0].from == code {
        quirks[0].to
    } else {
        remapped(quirks.drop_first(), brand, code)
    }
}

/// The orientation code to apply for a brand, after its quirks.
pub fn brand_invert_orientation(brand: &str, code: u16, quirks: &Vec<OrientationQuirk>) -> (r: u16)
    ensures
        r == remapped(quirks@, brand@, code),
{
    let b = String::from_str(brand);
    let mut i: usize = 0;
    assert(quirks@.subrange(0, quirks.len() as int) =~= quirks@);
    while i < quirks.len()
        invariant
            i <= quirks.len(),
            b@ == brand@,
            remapped(quirks@, brand@, code) == remapped(quirks@.subrange(i as int, quirks.len() as int), brand@, code),
        decreases quirks.len() - i,
    {
        let q = &quirks[i];
        assert(quirks@.subrange(i as int, quirks.len() as int).drop_first() =~= quirks@.subrange(i + 1, quirks.len() as int));
        assert(quirks@.subrange(i as int, quirks.len() as int)[0] == quirks@[i as int]);
        if q.brand == b && q.from == code {
            return q.to;
        }
        i = i + 1;
    }
    code
}

/// The transform that makes an image upright, from its EXIF entries: the
/// last orientation code found, after the quirks of the last make found, is
/// looked up in the standard table; with no orientation code nothing is done.
pub fn auto_orient_image(entries: &Vec<ExifRecord>, quirks: &Vec<OrientationQuirk>) -> (r: OrientationFix)
    ensures
        r == match last_orientation(entries@) {
            Some(c) => orientation_table(
                match last_make(entries@) {
                    Some(m) => remapped(quirks@, m, c),
                    None => c,
                } as u32,
            ),
            None => OrientationFix::Identity,
        },
{
    let mut code: Option<u16> = None;
    let mut make: Option<&str> = None;
    let mut i: usize = 0;
    while i < entries.len()
        invariant
            i <= entries.len(),
            code == last_orientation(entries@.subrange(0, i as int)),
            make matches Some(m) ==> last_make(entries@.subrange(0, i as int)) == Some(m@),
            make is None ==> last_make(entries@.subrange(0, i as int)) is None,
        decreases entries.len() - i,
    {
        let e = &entries[i];
        assert(entries@.subrange(0, i + 1).drop_last() =~= entries@.subrange(0, i as int));
        if e.tag == 0x0112 && e.first_u16.is_some() {
            code = e.first_u16;
        }
        if e.tag == 0x010f {
            match &e.ascii {
                Some(text) => {
                    make = Some(text.as_str());
                },
                None => {},
            }
        }
        i = i + 1;
    }
    assert(entries@.subrange(0, entries.len() as int) =~= entries@);
    match code {
        Some(c) => {
            let c2 = match make {
                Some(m) => brand_invert_orientation(m, c, quirks),
                None => c,
            };
            fix_orientation_standard(c2 as u32)
        },
        None => OrientationFix::Identity,
    }
}

} // verus!
