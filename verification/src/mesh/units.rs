//! Length units, and the conversion boundary.
//!
//! Geometry is in millimetres. Conversion happens once, when a mesh is loaded.

use crate::decimal::{lowered, to_lowered};
use crate::double::Double;
use crate::text::{characters, same_text, trim, trimmed};
use vstd::prelude::*;

verus! {

/// A length unit that input files may be expressed in.
#[derive(Clone, Copy, Debug, PartialEq, Eq, PartialOrd, Ord, Hash, Structural)]
pub enum Unit {
    /// Micrometres.
    Micron,
    /// Millimetres, the unit of the library.
    Millimetre,
    /// Centimetres.
    Centimetre,
    /// Metres.
    Metre,
    /// Inches.
    Inch,
    /// Thousandths of an inch.
    Thou,
    /// Feet.
    Foot,
}

/// The unit that a lower-case word names.
pub open spec fn unit_named(w: Seq<char>) -> Option<Unit> {
    if w == "micron"@ || w == "microns"@ || w == "um"@ || w == "\u{b5}m"@ {
        Some(Unit::Micron)
    } else if w == "mm"@ || w == "millimetre"@ || w == "millimeter"@ || w == "millimetres"@ || w == "millimeters"@ {
        Some(Unit::Millimetre)
    } else if w == "cm"@ || w == "centimetre"@ || w == "centimeter"@ {
        Some(Unit::Centimetre)
    } else if w == "m"@ || w == "metre"@ || w == "meter"@ {
        Some(Unit::Metre)
    } else if w == "in"@ || w == "inch"@ || w == "inches"@ {
        Some(Unit::Inch)
    } else if w == "thou"@ || w == "mil"@ || w == "mils"@ {
        Some(Unit::Thou)
    } else if w == "ft"@ || w == "foot"@ || w == "feet"@ {
        Some(Unit::Foot)
    } else {
        None
    }
}

impl Unit {
    /// The short name of the unit.
    pub open spec fn label(self) -> Seq<char> {
        match self {
            Unit::Micron => "micron"@,
            Unit::Millimetre => "mm"@,
            Unit::Centimetre => "cm"@,
            Unit::Metre => "m"@,
            Unit::Inch => "in"@,
            Unit::Thou => "thou"@,
            Unit::Foot => "ft"@,
        }
    }

    /// How many millimetres one of this unit is: `0.001`, `1`, `10`, `1000`,
    /// `25.4`, `0.0254` or `304.8`, each as the nearest double.
    pub open spec fn factor(self) -> Double {
        Double {
            bits: match self {
                Unit::Micron => 0x3f50_624d_d2f1_a9fc,
                Unit::Millimetre => 0x3ff0_0000_0000_0000,
                Unit::Centimetre => 0x4024_0000_0000_0000,
                Unit::Metre => 0x408f_4000_0000_0000,
                Unit::Inch => 0x4039_6666_6666_6666,
                Unit::Thou => 0x3f9a_0275_2546_0aa6,
                Unit::Foot => 0x4073_0ccc_cccc_cccd,
            },
        }
    }

    /// Every unit, in a fixed order.
    pub fn all() -> (r: [Unit; 7])
        ensures
            r@ == seq![
                Unit::Micron,
                Unit::Millimetre,
                Unit::Centimetre,
                Unit::Metre,
                Unit::Inch,
                Unit::Thou,
                Unit::Foot,
            ],
    {
        let r: [Unit; 7] = [
            Unit::Micron,
            Unit::Millimetre,
            Unit::Centimetre,
            Unit::Metre,
            Unit::Inch,
            Unit::Thou,
            Unit::Foot,
        ];
        proof {
            assert(r@ =~= seq![
                Unit::Micron,
                Unit::Millimetre,
                Unit::Centimetre,
                Unit::Metre,
                Unit::Inch,
                Unit::Thou,
                Unit::Foot,
            ]);
        }
        r
    }

    /// The short name of the unit.
    pub fn name(self) -> (r: &'static str)
        ensures
            r@ == self.label(),
    {
        match self {
            Unit::Micron => "micron",
            Unit::Millimetre => "mm",
            Unit::Centimetre => "cm",
            Unit::Metre => "m",
            Unit::Inch => "in",
            Unit::Thou => "thou",
            Unit::Foot => "ft",
        }
    }

    /// The unit that a name of any case stands for, whitespace around it aside.
    pub fn from_name(s: &str) -> (r: Option<Unit>)
        ensures
            r == unit_named(lowered(trimmed(s@))),
    {
        let v: Vec<char> = characters(s);
        Unit::from_characters(v.as_slice())
    }

    /// The unit that a name of any case stands for, whitespace around it aside.
    pub(crate) fn from_characters(v: &[char]) -> (r: Option<Unit>)
        ensures
            r == unit_named(lowered(trimmed(v@))),
    {
        let t: Vec<char> = trim(v);
        let l: Vec<char> = to_lowered(t.as_slice());
        let w: &[char] = l.as_slice();
        if same_text(w, "micron") || same_text(w, "microns") || same_text(w, "um") || same_text(w, "\u{b5}m") {
            Some(Unit::Micron)
        } else if same_text(w, "mm") || same_text(w, "millimetre") || same_text(w, "millimeter") || same_text(
            w,
            "millimetres",
        ) || same_text(w, "millimeters") {
            Some(Unit::Millimetre)
        } else if same_text(w, "cm") || same_text(w, "centimetre") || same_text(w, "centimeter") {
            Some(Unit::Centimetre)
        } else if same_text(w, "m") || same_text(w, "metre") || same_text(w, "meter") {
            Some(Unit::Metre)
        } else if same_text(w, "in") || same_text(w, "inch") || same_text(w, "inches") {
            Some(Unit::Inch)
        } else if same_text(w, "thou") || same_text(w, "mil") || same_text(w, "mils") {
            Some(Unit::Thou)
        } else if same_text(w, "ft") || same_text(w, "foot") || same_text(w, "feet") {
            Some(Unit::Foot)
        } else {
            None
        }
    }

    /// How many millimetres one of this unit is.
    pub fn millimetres_per(self) -> (d: Double)
        ensures
            d == self.factor(),
    {
        Double::from_bits(
            match self {
                Unit::Micron => 0x3f50_624d_d2f1_a9fc,
                Unit::Millimetre => 0x3ff0_0000_0000_0000,
                Unit::Centimetre => 0x4024_0000_0000_0000,
                Unit::Metre => 0x408f_4000_0000_0000,
                Unit::Inch => 0x4039_6666_6666_6666,
                Unit::Thou => 0x3f9a_0275_2546_0aa6,
                Unit::Foot => 0x4073_0ccc_cccc_cccd,
            },
        )
    }

    /// True for the decimal metric units.
    pub fn conversion_is_exact(self) -> (r: bool)
        ensures
            r == (self == Unit::Micron || self == Unit::Millimetre || self == Unit::Centimetre || self == Unit::Metre),
    {
        match self {
            Unit::Micron | Unit::Millimetre | Unit::Centimetre | Unit::Metre => true,
            Unit::Inch | Unit::Thou | Unit::Foot => false,
        }
    }
}

/// Every spelling of every unit: those of one unit together, its short name first.
pub open spec fn spellings() -> Seq<Seq<char>> {
    seq![
        "micron"@,
        "microns"@,
        "um"@,
        "\u{b5}m"@,
        "mm"@,
        "millimetre"@,
        "millimeter"@,
        "millimetres"@,
        "millimeters"@,
        "cm"@,
        "centimetre"@,
        "centimeter"@,
        "m"@,
        "metre"@,
        "meter"@,
        "in"@,
        "inch"@,
        "inches"@,
        "thou"@,
        "mil"@,
        "mils"@,
        "ft"@,
        "foot"@,
        "feet"@,
    ]
}

/// The spellings are exactly the words that name a unit.
pub proof fn law_spellings_are_complete(w: Seq<char>)
    ensures
        spellings().contains(w) <==> unit_named(w) is Some,
{
    let s = spellings();
    if s.contains(w) {
        let i = choose|i: int| 0 <= i < s.len() && s[i] == w;
        assert(unit_named(s[i]) is Some);
    }
    if unit_named(w) is Some {
        assert(s[0] == "micron"@);
        assert(s[1] == "microns"@);
        assert(s[2] == "um"@);
        assert(s[3] == "\u{b5}m"@);
        assert(s[4] == "mm"@);
        assert(s[5] == "millimetre"@);
        assert(s[6] == "millimeter"@);
        assert(s[7] == "millimetres"@);
        assert(s[8] == "millimeters"@);
        assert(s[9] == "cm"@);
        assert(s[10] == "centimetre"@);
        assert(s[11] == "centimeter"@);
        assert(s[12] == "m"@);
        assert(s[13] == "metre"@);
        assert(s[14] == "meter"@);
        assert(s[15] == "in"@);
        assert(s[16] == "inch"@);
        assert(s[17] == "inches"@);
        assert(s[18] == "thou"@);
        assert(s[19] == "mil"@);
        assert(s[20] == "mils"@);
        assert(s[21] == "ft"@);
        assert(s[22] == "foot"@);
        assert(s[23] == "feet"@);
    }
}

/// Every accepted spelling, for a message.
pub fn accepted_names() -> (s: String)
    ensures
        s@ == joined(spellings(), spellings().len()),
{
    let names: [&'static str; 24] = [
        "micron",
        "microns",
        "um",
        "\u{b5}m",
        "mm",
        "millimetre",
        "millimeter",
        "millimetres",
        "millimeters",
        "cm",
        "centimetre",
        "centimeter",
        "m",
        "metre",
        "meter",
        "in",
        "inch",
        "inches",
        "thou",
        "mil",
        "mils",
        "ft",
        "foot",
        "feet",
    ];
    let ghost all = spellings();
    let mut s: String = String::new();
    let mut i: usize = 0;
    while i < 24
        invariant
            i <= 24,
            all == spellings(),
            all.len() == 24,
            names@.len() == 24,
            forall|j: int| 0 <= j < 24 ==> all[j] == (#[trigger] names@[j])@,
            s@ == joined(all, i as nat),
        decreases 24 - i,
    {
        if i > 0 {
            s.append(", ");
        }
        s.append(names[i]);
        i = i + 1;
    }
    s
}

/// Texts put behind one another with a comma between them.
pub open spec fn joined(s: Seq<Seq<char>>, n: nat) -> Seq<char>
    decreases n,
{
    if n == 0 {
        Seq::empty()
    } else if n == 1 {
        Seq::empty() + s[0]
    } else {
        joined(s, (n - 1) as nat) + ", "@ + s[n - 1]
    }
}

/// Every unit is known by its own name.
pub proof fn law_names_round_trip(u: Unit)
    ensures
        unit_named(lowered(trimmed(u.label()))) == Some(u),
{
    reveal_strlit("micron");
    reveal_strlit("microns");
    reveal_strlit("um");
    reveal_strlit("\u{b5}m");
    reveal_strlit("mm");
    reveal_strlit("millimetre");
    reveal_strlit("millimeter");
    reveal_strlit("millimetres");
    reveal_strlit("millimeters");
    reveal_strlit("cm");
    reveal_strlit("centimetre");
    reveal_strlit("centimeter");
    reveal_strlit("m");
    reveal_strlit("metre");
    reveal_strlit("meter");
    reveal_strlit("in");
    reveal_strlit("inch");
    reveal_strlit("inches");
    reveal_strlit("thou");
    reveal_strlit("mil");
    reveal_strlit("mils");
    reveal_strlit("ft");
    reveal_strlit("foot");
    reveal_strlit("feet");
    let w = u.label();
    assert(w.len() > 0);
    assert(trimmed(w) == w);
    assert(lowered(w) =~= w);
    assert(u == Unit::Metre ==> w.len() == 1);
    assert(u == Unit::Inch ==> w[0] == 'i');
    assert(u == Unit::Thou ==> w[0] == 't');
    assert(u == Unit::Foot ==> w[0] == 'f');
    assert(u == Unit::Centimetre ==> w[0] == 'c');
    assert(u == Unit::Millimetre ==> w.len() == 2 && w[1] == 'm' && w[0] == 'm');
}

} // verus!
