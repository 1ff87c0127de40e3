//! Colours written as on the command line: a `#` and six hexadecimal digits.

use crate::options::chars_of;
use vstd::prelude::*;

verus! {

/// The value of a hexadecimal digit.
pub open spec fn hex_value(c: char) -> Option<int> {
    if '0' <= c <= '9' {
        Some(c as int - '0' as int)
    } else if 'a' <= c <= 'f' {
        Some(c as int - 'a' as int + 10)
    } else if 'A' <= c <= 'F' {
        Some(c as int - 'A' as int + 10)
    } else {
        None
    }
}

/// The byte that two hexadecimal digits write.
pub open spec fn hex_byte(high: char, low: char) -> int {
    16 * hex_value(high)->0 + hex_value(low)->0
}

/// The red, green and blue that the first six characters of `s` write, if
/// they are hexadecimal digits; what follows them is not looked at.
pub open spec fn hex_rgb(s: Seq<char>) -> Option<Seq<u8>> {
    if s.len() >= 6 && (forall|i: int| 0 <= i < 6 ==> hex_value(#[trigger] s[i]) is Some) {
        Some(
            seq![
                hex_byte(s[0], s[1]) as u8,
                hex_byte(s[2], s[3]) as u8,
                hex_byte(s[4], s[5]) as u8,
            ],
        )
    } else {
        None
    }
}

/// Calls `read_color::rgb` on the characters of `s`. The contract says what
/// the source of that function shows: it reads three pairs of hexadecimal
/// digits, in either case, the first of each pair the higher half of a byte,
/// and gives nothing if one of the six characters is missing or is no such
/// digit.
#[verifier::external_body]
fn read_rgb(s: &str) -> (r: Option<[u8; 3]>)
    ensures
        match r {
            Some(a) => hex_rgb(s@) == Some(a@),
            None => hex_rgb(s@) is None,
        },
{
    read_color::rgb(&mut s.chars())
}

/// The colour that `s` writes: a `#`, then red, green and blue as
/// hexadecimal digits.
pub open spec fn colour_of(s: Seq<char>) -> Option<Seq<u8>> {
    if s.len() > 0 && s[0] == '#' {
        hex_rgb(s.subrange(1, s.len() as int))
    } else {
        None
    }
}

/// The colour that `color` writes, as red, green and blue; none if it writes
/// none.
pub fn color_parse(color: &str) -> (r: Option<[u8; 3]>)
    ensures
        match r {
            Some(a) => colour_of(color@) == Some(a@),
            None => colour_of(color@) is None,
        },
{
    let n = color.unicode_len();
    if n == 0 {
        return None;
    }
    if color.get_char(0) != '#' {
        return None;
    }
    let rest = color.substring_char(1, n);
    read_rgb(rest)
}

/// The place of the only blank of `s`, if it has exactly one.
pub open spec fn only_blank(s: Seq<char>, i: int) -> bool {
    &&& 0 <= i < s.len()
    &&& s[i] == ' '
    &&& forall|j: int| 0 <= j < s.len() && j != i ==> s[j] != ' '
}

/// The two foreground colours that `s` writes: one colour, which then stands
/// for both, or two colours with a blank between them.
pub open spec fn foreground_of(s: Seq<char>) -> Option<(Seq<u8>, Seq<u8>)> {
    if forall|j: int| 0 <= j < s.len() ==> s[j] != ' ' {
        match colour_of(s) {
            Some(c) => Some((c, c)),
            None => None,
        }
    } else if exists|i: int| only_blank(s, i) {
        let i = choose|i: int| only_blank(s, i);
        match (colour_of(s.subrange(0, i)), colour_of(s.subrange(i + 1, s.len() as int))) {
            (Some(a), Some(b)) => Some((a, b)),
            _ => None,
        }
    } else {
        None
    }
}

/// The background colour that `bg` writes and the two foreground colours that
/// `fg` writes; none if either writes none.
pub fn colors_parse(bg: &str, fg: &str) -> (r: Option<([u8; 3], [[u8; 3]; 2])>)
    ensures
        match r {
            Some((b, f)) => colour_of(bg@) == Some(b@) && foreground_of(fg@) == Some(
                (f@[0]@, f@[1]@),
            ),
            None => colour_of(bg@) is None || foreground_of(fg@) is None,
        },
{
    let back = match color_parse(bg) {
        Some(c) => c,
        None => {
            return None;
        },
    };
    let v = chars_of(fg);
    let n = v.len();
    let mut first: usize = 0;
    while first < n && v[first] != ' '
        invariant
            first <= n,
            n == v.len(),
            forall|j: int| 0 <= j < first ==> v@[j] != ' ',
        decreases n - first,
    {
        first = first + 1;
    }
    if first == n {
        return match color_parse(fg) {
            Some(c) => Some((back, [c, c])),
            None => None,
        };
    }
    let mut k: usize = first + 1;
    while k < n && v[k] != ' '
        invariant
            first < k <= n,
            n == v.len(),
            forall|j: int| first < j < k ==> v@[j] != ' ',
        decreases n - k,
    {
        k = k + 1;
    }
    if k < n {
        proof {
            assert forall|i: int| !only_blank(v@, i) by {
                if only_blank(v@, i) {
                    if i == first {
                        assert(v@[k as int] == ' ');
                    } else {
                        assert(v@[first as int] == ' ');
                    }
                }
            }
        }
        return None;
    }
    proof {
        assert(only_blank(v@, first as int));
        assert forall|i: int| only_blank(v@, i) implies i == first by {
            if i != first {
                assert(v@[first as int] == ' ');
            }
        }
    }
    let one = fg.substring_char(0, first);
    let two = fg.substring_char(first + 1, n);
    match (color_parse(one), color_parse(two)) {
        (Some(a), Some(b)) => Some((back, [a, b])),
        _ => None,
    }
}

} // verus!
