//! Option values that select how images are quantized.
use vstd::prelude::*;
use vstd::string::{StrSliceExecFns, StringExecFns};

use crate::color::ColorType;

verus! {

/// The lower-case form of the letters that color type names use.
pub open spec fn lower_letter(c: char) -> char {
    if c == 'R' {
        'r'
    } else if c == 'G' {
        'g'
    } else if c == 'B' {
        'b'
    } else if c == 'A' {
        'a'
    } else {
        c
    }
}

/// `s` spells `w` in either case. For the color type names this is the
/// same as upper-casing `s` and comparing it with `w`: no character but the
/// lower-case letter upper-cases to one of their letters.
pub open spec fn spells(s: Seq<char>, w: Seq<char>) -> bool {
    s.len() == w.len() && forall|i: int|
        0 <= i < s.len() ==> #[trigger] s[i] == w[i] || s[i] == lower_letter(w[i])
}

fn spells_word(s: &str, w: &str) -> (r: bool)
    ensures
        r == spells(s@, w@),
{
    let n = s.unicode_len();
    if n != w.unicode_len() {
        return false;
    }
    let mut i: usize = 0;
    while i < n
        invariant
            i <= n == s@.len() == w@.len(),
            forall|j: int| 0 <= j < i ==> #[trigger] s@[j] == w@[j] || s@[j] == lower_letter(w@[j]),
        decreases n - i,
    {
        let c = s.get_char(i);
        let d = w.get_char(i);
        let lower = if d == 'R' {
            'r'
        } else if d == 'G' {
            'g'
        } else if d == 'B' {
            'b'
        } else if d == 'A' {
            'a'
        } else {
            d
        };
        if c != d && c != lower {
            return false;
        }
        i = i + 1;
    }
    true
}

/// The color type that an option value names, in either case; RGBA8 where
/// none is given.
pub fn color_type(input: Option<String>) -> (r: Result<ColorType, String>)
    ensures
        input is None ==> r == Ok::<ColorType, String>(ColorType::Rgba8),
        input matches Some(s) ==> {
            &&& spells(s@, "RGBA8"@) ==> r == Ok::<ColorType, String>(ColorType::Rgba8)
            &&& spells(s@, "RGB5A3"@) ==> r == Ok::<ColorType, String>(ColorType::Rgb5a3)
            &&& !spells(s@, "RGBA8"@) && !spells(s@, "RGB5A3"@) ==> (r matches Err(e) && e@
                == "Unknown color type "@ + s@)
        },
{
    proof {
        reveal_strlit("RGBA8");
        reveal_strlit("RGB5A3");
    }
    match input {
        Some(string) => {
            if spells_word(string.as_str(), "RGBA8") {
                Ok(ColorType::Rgba8)
            } else if spells_word(string.as_str(), "RGB5A3") {
                Ok(ColorType::Rgb5a3)
            } else {
                Err(String::from_str("Unknown color type ").concat(string.as_str()))
            }
        },
        None => Ok(ColorType::Rgba8),
    }
}

} // verus!
