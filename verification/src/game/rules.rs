//! Game variants: line length and touch rule.
use vstd::prelude::*;

verus! {

/// Length of a line: four or five points.
#[derive(Debug, Clone, Copy, PartialEq, Eq, Structural, Hash)]
pub enum LineLen {
    Four,
    Five,
}

/// How parallel collinear lines may meet.
#[derive(Debug, Clone, Copy, PartialEq, Eq, Structural, Hash)]
pub enum TouchMode {
    /// Parallel lines may share exactly one endpoint.
    Touching,
    /// Parallel lines must be strictly disjoint (no shared point).
    Disjoint,
}

/// A game variant: a line length and a touch mode.
#[derive(Debug, Clone, Copy, PartialEq, Eq, Structural, Hash)]
pub enum Variant {
    /// Four in a line, touching.
    T4,
    /// Four in a line, disjoint.
    D4,
    /// Five in a line, touching.
    T5,
    /// Five in a line, disjoint.
    D5,
}

/// Line length of a variant.
pub open spec fn variant_line_len(v: Variant) -> LineLen {
    match v {
        Variant::T4 | Variant::D4 => LineLen::Four,
        Variant::T5 | Variant::D5 => LineLen::Five,
    }
}

/// Touch mode of a variant.
pub open spec fn variant_touch_mode(v: Variant) -> TouchMode {
    match v {
        Variant::T4 | Variant::T5 => TouchMode::Touching,
        Variant::D4 | Variant::D5 => TouchMode::Disjoint,
    }
}

/// Line length of a variant as a number.
pub open spec fn variant_len(v: Variant) -> u8 {
    match v {
        Variant::T4 | Variant::D4 => 4,
        Variant::T5 | Variant::D5 => 5,
    }
}

/// Largest track distance at which two collinear lines still conflict:
/// `line_len - 1 - max_overlap`, where `max_overlap` is 1 for touching
/// variants and 0 for disjoint ones.
pub open spec fn variant_forbid(v: Variant) -> u8 {
    match v {
        Variant::T4 => 2,
        Variant::D4 => 3,
        Variant::T5 => 3,
        Variant::D5 => 4,
    }
}

/// The two-character name of a variant, digit first.
pub open spec fn variant_name(v: Variant) -> Seq<char> {
    match v {
        Variant::T4 => seq!['4', 'T'],
        Variant::D4 => seq!['4', 'D'],
        Variant::T5 => seq!['5', 'T'],
        Variant::D5 => seq!['5', 'D'],
    }
}

impl Variant {
    /// The variant's line length.
    pub fn line_len(self) -> (r: LineLen)
        ensures
            r == variant_line_len(self),
    {
        match self {
            Variant::T4 | Variant::D4 => LineLen::Four,
            Variant::T5 | Variant::D5 => LineLen::Five,
        }
    }

    /// The variant's touch mode.
    pub fn touch_mode(self) -> (r: TouchMode)
        ensures
            r == variant_touch_mode(self),
    {
        match self {
            Variant::T4 | Variant::T5 => TouchMode::Touching,
            Variant::D4 | Variant::D5 => TouchMode::Disjoint,
        }
    }

    /// Line length of the variant (4 or 5).
    pub fn len(self) -> (r: u8)
        ensures
            r == variant_len(self),
    {
        match self {
            Variant::T4 | Variant::D4 => 4,
            Variant::T5 | Variant::D5 => 5,
        }
    }

    /// The variant's name: `"4T"`, `"4D"`, `"5T"` or `"5D"`.
    pub fn name(self) -> (r: &'static str)
        ensures
            r@ == variant_name(self),
    {
        match self {
            Variant::T4 => {
                proof {
                    reveal_strlit("4T");
                }
                "4T"
            },
            Variant::D4 => {
                proof {
                    reveal_strlit("4D");
                }
                "4D"
            },
            Variant::T5 => {
                proof {
                    reveal_strlit("5T");
                }
                "5T"
            },
            Variant::D5 => {
                proof {
                    reveal_strlit("5D");
                }
                "5D"
            },
        }
    }

    /// All four variants.
    pub fn all() -> (r: [Variant; 4])
        ensures
            r@ == seq![Variant::T4, Variant::D4, Variant::T5, Variant::D5],
    {
        [Variant::T4, Variant::D4, Variant::T5, Variant::D5]
    }

    /// Parse a variant name, case-insensitively and in either order
    /// (`5T`/`T5`/`5t` …). Returns `None` for anything else.
    pub fn from_name(s: &str) -> (r: Option<Variant>)
        ensures
            r == variant_from_name_spec(s@),
    {
        let cs = crate::text::chars_of(s);
        match crate::record::model::Variant::from_chars(&cs) {
            Some(crate::record::model::Variant::T4) => Some(Variant::T4),
            Some(crate::record::model::Variant::D4) => Some(Variant::D4),
            Some(crate::record::model::Variant::T5) => Some(Variant::T5),
            Some(crate::record::model::Variant::D5) => Some(Variant::D5),
            None => None,
        }
    }

    /// The touch-rule distance of the variant (see [`variant_forbid`]).
    pub fn forbid(self) -> (r: u8)
        ensures
            r == variant_forbid(self),
    {
        match self.touch_mode() {
            TouchMode::Touching => self.len() - 2,
            TouchMode::Disjoint => self.len() - 1,
        }
    }
}

/// The variant named by `s`, case-insensitively and in either order.
pub open spec fn variant_from_name_spec(s: Seq<char>) -> Option<Variant> {
    match crate::record::model::variant_from_code_spec(s) {
        Some(crate::record::model::Variant::T4) => Some(Variant::T4),
        Some(crate::record::model::Variant::D4) => Some(Variant::D4),
        Some(crate::record::model::Variant::T5) => Some(Variant::T5),
        Some(crate::record::model::Variant::D5) => Some(Variant::D5),
        None => None,
    }
}

impl Default for Variant {
    fn default() -> (r: Self)
        ensures
            r == Variant::T5,
    {
        Variant::T5
    }
}

} // verus!
