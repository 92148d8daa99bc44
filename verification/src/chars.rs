//! Character classes that delimit URL-shaped text.
//!
//! A *valid* character may appear anywhere inside a match; everything that
//! commonly encloses or separates prose (whitespace, brackets, quotes, commas,
//! and a few other punctuation marks) is *invalid* and ends a match.  A
//! *boundary* character is a valid character other than `.` and `:`; matches
//! must end on one, so that sentence punctuation after a URL is not swallowed.
//! A *start* character additionally excludes `/`: bare-domain matches must
//! begin on one.

use vstd::prelude::*;

verus! {

/// The Unicode white-space characters: the ASCII spacing controls and
/// space, next line, no-break space, ogham space mark, the en-quad..hair
/// space range, the line and paragraph separators, narrow no-break space,
/// medium mathematical space, and ideographic space.
pub open spec fn is_space_char(c: char) -> bool {
    let u = c as u32;
    ||| (0x9 <= u && u <= 0xd)
    ||| u == 0x20
    ||| u == 0x85
    ||| u == 0xa0
    ||| u == 0x1680
    ||| (0x2000 <= u && u <= 0x200a)
    ||| u == 0x2028
    ||| u == 0x2029
    ||| u == 0x202f
    ||| u == 0x205f
    ||| u == 0x3000
}

/// Characters that can never appear inside a URL-shaped match: white
/// space, and the quoting and grouping punctuation.
pub open spec fn is_invalid_char(c: char) -> bool {
    ||| is_space_char(c)
    ||| c == '"'
    ||| c == '<'
    ||| c == '>'
    ||| c == '^'
    ||| c == '`'
    ||| c == '{'
    ||| c == '|'
    ||| c == '}'
    ||| c == '['
    ||| c == ']'
    ||| c == '('
    ||| c == ')'
    ||| c == ','
}

/// Characters that may appear inside a URL-shaped match.
pub open spec fn is_valid_char(c: char) -> bool {
    !is_invalid_char(c)
}

/// Valid characters on which a match may end.
pub open spec fn is_boundary_char(c: char) -> bool {
    is_valid_char(c) && c != '.' && c != ':'
}

/// Boundary characters on which a bare-domain match may begin.
pub open spec fn is_start_char(c: char) -> bool {
    is_boundary_char(c) && c != '/'
}

pub fn valid_char(c: char) -> (b: bool)
    ensures
        b == is_valid_char(c),
{
    let u = c as u32;
    let space = (0x9 <= u && u <= 0xd) || u == 0x20 || u == 0x85 || u == 0xa0 || u == 0x1680 || (
    0x2000 <= u && u <= 0x200a) || u == 0x2028 || u == 0x2029 || u == 0x202f || u == 0x205f || u
        == 0x3000;
    !(space || c == '"' || c == '<' || c == '>' || c == '^' || c == '`' || c == '{' || c == '|'
        || c == '}' || c == '[' || c == ']' || c == '(' || c == ')' || c == ',')
}

pub fn boundary_char(c: char) -> (b: bool)
    ensures
        b == is_boundary_char(c),
{
    valid_char(c) && c != '.' && c != ':'
}

pub fn start_char(c: char) -> (b: bool)
    ensures
        b == is_start_char(c),
{
    boundary_char(c) && c != '/'
}

/// Whether two strings hold the same characters.
pub(crate) fn str_eq(a: &str, b: &str) -> (r: bool)
    ensures
        r == (a@ == b@),
{
    let n = a.unicode_len();
    if n != b.unicode_len() {
        return false;
    }
    let mut i: usize = 0;
    while i < n
        invariant
            i <= n,
            n == a@.len(),
            n == b@.len(),
            forall|k: int| 0 <= k < i ==> a@[k] == b@[k],
        decreases n - i,
    {
        if a.get_char(i) != b.get_char(i) {
            assert(a@[i as int] != b@[i as int]);
            return false;
        }
        i += 1;
    }
    proof {
        assert(a@ =~= b@);
    }
    true
}

} // verus!
