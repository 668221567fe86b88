//! The colour class of a mana symbol as drawn on a card's cost.

use vstd::prelude::*;
use crate::text::{parses_as_u32, parses_u32, text_equals, trim_text, trimmed_text};

verus! {

/// How a mana symbol is coloured.
#[derive(Clone, Copy, PartialEq, Eq, Structural, Debug)]
pub enum SymbolColor {
    /// `{W}`: off-white.
    White,
    /// `{U}`: blue.
    Blue,
    /// `{B}`: black.
    Black,
    /// `{R}`: red.
    Red,
    /// `{G}`: green.
    Green,
    /// `{C}`: colourless grey with a blue tint.
    Colorless,
    /// A number or `X` in braces: light grey.
    Generic,
    /// Any other symbol in braces (such as tap): dark grey.
    OtherSymbol,
    /// Text that is not a symbol: black.
    PlainText,
}

/// The colour class of a trimmed symbol.
pub open spec fn symbol_class(s: Seq<char>) -> SymbolColor {
    if s == "{W}"@ {
        SymbolColor::White
    } else if s == "{U}"@ {
        SymbolColor::Blue
    } else if s == "{B}"@ {
        SymbolColor::Black
    } else if s == "{R}"@ {
        SymbolColor::Red
    } else if s == "{G}"@ {
        SymbolColor::Green
    } else if s == "{C}"@ {
        SymbolColor::Colorless
    } else if s.len() > 0 && s[0] == '{' && s[s.len() - 1] == '}' {
        let inner = s.subrange(1, s.len() - 1);
        if parses_as_u32(inner) || inner == "X"@ {
            SymbolColor::Generic
        } else {
            SymbolColor::OtherSymbol
        }
    } else {
        SymbolColor::PlainText
    }
}

/// The colour class of a symbol without surrounding white space.
pub fn classify_symbol(clean: &str) -> (c: SymbolColor)
    ensures
        c == symbol_class(clean@),
{
    if text_equals(clean, "{W}") {
        return SymbolColor::White;
    }
    if text_equals(clean, "{U}") {
        return SymbolColor::Blue;
    }
    if text_equals(clean, "{B}") {
        return SymbolColor::Black;
    }
    if text_equals(clean, "{R}") {
        return SymbolColor::Red;
    }
    if text_equals(clean, "{G}") {
        return SymbolColor::Green;
    }
    if text_equals(clean, "{C}") {
        return SymbolColor::Colorless;
    }
    let n = clean.unicode_len();
    if n > 0 && clean.get_char(0) == '{' && clean.get_char(n - 1) == '}' {
        proof {
            if n == 1 {
                assert(clean@[0] == '{');
                assert(clean@[0] == '}');
            }
        }
        let inner = clean.substring_char(1, n - 1);
        if parses_u32(inner) || text_equals(inner, "X") {
            SymbolColor::Generic
        } else {
            SymbolColor::OtherSymbol
        }
    } else {
        SymbolColor::PlainText
    }
}

/// The colour class of a mana symbol such as `{W}`, `{2}` or `{T}`, after
/// trimming white space.
pub fn symbol_to_color(mana_symbol: &str) -> (c: SymbolColor)
    ensures
        c == symbol_class(trimmed_text(mana_symbol@)),
{
    let clean = trim_text(mana_symbol);
    classify_symbol(clean.as_str())
}

} // verus!
