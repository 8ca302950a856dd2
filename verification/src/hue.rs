//! The lettered hue notation: a number followed by one of ten sector codes, as in `7.5YR`.

use vstd::prelude::*;
use vstd::string::*;

verus! {

/// Number of hue sectors; each spans ten units of the hue scale.
pub const SECTOR_COUNT: usize = 10;

/// The letter code of sector `k`, in the order of the hue circle.
pub open spec fn sector_code(k: int) -> Seq<char> {
    if k == 0 {
        seq!['R']
    } else if k == 1 {
        seq!['Y', 'R']
    } else if k == 2 {
        seq!['Y']
    } else if k == 3 {
        seq!['G', 'Y']
    } else if k == 4 {
        seq!['G']
    } else if k == 5 {
        seq!['B', 'G']
    } else if k == 6 {
        seq!['B']
    } else if k == 7 {
        seq!['P', 'B']
    } else if k == 8 {
        seq!['P']
    } else {
        seq!['R', 'P']
    }
}

/// Whether `c` is one of the ten decimal digits.
pub open spec fn is_digit(c: char) -> bool {
    '0' <= c <= '9'
}

/// Whether every character of `s` from `from` up to `to` is a digit.
pub open spec fn all_digits(s: Seq<char>, from: int, to: int) -> bool {
    forall|i: int| from <= i < to ==> is_digit(#[trigger] s[i])
}

/// Whether the first `end` characters of `s` write a number: digits, or digits (possibly
/// none), a point and at least one digit.
pub open spec fn number_prefix(s: Seq<char>, end: int) -> bool {
    exists|point: int| number_with_point(s, point, end)
}

/// Whether the first `end` characters of `s` write a number whose digits before the point
/// end at `point`; `point == end` where there is no point.
pub open spec fn number_with_point(s: Seq<char>, point: int, end: int) -> bool {
    &&& 0 <= point <= end <= s.len()
    &&& 0 < end
    &&& all_digits(s, 0, point)
    &&& point == end || (point + 1 < end && s[point] == '.' && all_digits(s, point + 1, end))
}

/// Whether the code of sector `k` stands in `s` at `at`.
pub open spec fn code_at(s: Seq<char>, at: int, k: int) -> bool {
    &&& 0 <= k < SECTOR_COUNT
    &&& 0 <= at
    &&& at + sector_code(k).len() <= s.len()
    &&& s.subrange(at, at + sector_code(k).len()) == sector_code(k)
}

/// Whether sector `k` is the one that `s` names at `at`: its code stands there, and no longer
/// code does.
pub open spec fn sector_at(s: Seq<char>, at: int, k: int) -> bool {
    &&& code_at(s, at, k)
    &&& forall|k2: int| code_at(s, at, k2) ==> sector_code(k2).len() <= sector_code(k).len()
}

/// Whether `s` begins with a hue in lettered notation: a number and, directly behind it, a
/// sector code. What follows the code is not looked at.
pub open spec fn is_hue_notation(s: Seq<char>) -> bool {
    exists|end: int, k: int| number_prefix(s, end) && code_at(s, end, k)
}

/// A code is one or two capital letters: no digit and no point.
pub proof fn lemma_code_is_letters(s: Seq<char>, at: int, k: int)
    requires
        code_at(s, at, k),
    ensures
        1 <= sector_code(k).len() <= 2,
        s[at] == sector_code(k)[0],
        !is_digit(s[at]),
        s[at] != '.',
        sector_code(k).len() == 2 ==> s[at + 1] == sector_code(k)[1],
{
    let code = sector_code(k);
    assert(s.subrange(at, at + code.len())[0] == s[at]);
    if code.len() == 2 {
        assert(s.subrange(at, at + code.len())[1] == s[at + 1]);
    }
}

/// A text has one reading at most: the number that stands in front of a code ends at one
/// place only, and one sector only is named there.
pub proof fn lemma_notation_unique(s: Seq<char>, end1: int, k1: int, end2: int, k2: int)
    requires
        number_prefix(s, end1),
        sector_at(s, end1, k1),
        number_prefix(s, end2),
        sector_at(s, end2, k2),
    ensures
        end1 == end2,
        k1 == k2,
{
    let point1 = choose|p: int| number_with_point(s, p, end1);
    let point2 = choose|p: int| number_with_point(s, p, end2);
    lemma_code_is_letters(s, end1, k1);
    lemma_code_is_letters(s, end2, k2);
    if point1 < point2 {
        assert(is_digit(s[point1]));
    }
    if point2 < point1 {
        assert(is_digit(s[point2]));
    }
    if end1 < end2 {
        assert(is_digit(s[end1]) || s[end1] == '.');
    }
    if end2 < end1 {
        assert(is_digit(s[end2]) || s[end2] == '.');
    }
    assert(sector_code(k1).len() == sector_code(k2).len());
}

/// A number with the code of sector `k` behind it, and nothing else, reads as that number and
/// that sector: every sector can be written, and is read back as itself.
pub proof fn lemma_notation_round_trip(number: Seq<char>, k: int)
    requires
        number_prefix(number, number.len() as int),
        0 <= k < SECTOR_COUNT,
    ensures
        is_hue_notation(number + sector_code(k)),
        number_prefix(number + sector_code(k), number.len() as int),
        sector_at(number + sector_code(k), number.len() as int, k),
{
    let text = number + sector_code(k);
    let n = number.len() as int;
    let p = choose|p: int| number_with_point(number, p, n);
    assert(number_with_point(text, p, n)) by {
        assert forall|i: int| 0 <= i < n implies text[i] == number[i] by {}
    }
    assert(text.subrange(n, n + sector_code(k).len()) =~= sector_code(k));
    assert(code_at(text, n, k));
    assert forall|k2: int| code_at(text, n, k2) implies sector_code(k2).len() <= sector_code(
        k,
    ).len() by {}
}

/// A hue in lettered notation, taken apart: where its number ends, and its sector.
#[derive(Clone, Copy, Debug, PartialEq, Eq)]
pub struct HueNotation {
    /// Number of characters, all of them digits or a point, that write the number.
    pub number_len: usize,
    /// Index of the sector, from 0 for `R` to 9 for `RP`.
    pub sector: usize,
}

/// The letter code of a sector.
pub fn letter_code(sector: usize) -> (code: &'static str)
    requires
        sector < SECTOR_COUNT,
    ensures
        code@ == sector_code(sector as int),
{
    proof {
        reveal_strlit("R");
        reveal_strlit("YR");
        reveal_strlit("Y");
        reveal_strlit("GY");
        reveal_strlit("G");
        reveal_strlit("BG");
        reveal_strlit("B");
        reveal_strlit("PB");
        reveal_strlit("P");
        reveal_strlit("RP");
    }
    let code = if sector == 0 {
        "R"
    } else if sector == 1 {
        "YR"
    } else if sector == 2 {
        "Y"
    } else if sector == 3 {
        "GY"
    } else if sector == 4 {
        "G"
    } else if sector == 5 {
        "BG"
    } else if sector == 6 {
        "B"
    } else if sector == 7 {
        "PB"
    } else if sector == 8 {
        "P"
    } else {
        "RP"
    };
    assert(code@ =~= sector_code(sector as int));
    code
}

/// Where the run of digits that starts at `from` ends.
fn digit_run(text: &str, len: usize, from: usize) -> (to: usize)
    requires
        len == text@.len(),
        from <= len,
    ensures
        from <= to <= len,
        all_digits(text@, from as int, to as int),
        to < len ==> !is_digit(text@[to as int]),
{
    let mut to: usize = from;
    while to < len
        invariant
            len == text@.len(),
            from <= to <= len,
            all_digits(text@, from as int, to as int),
        decreases len - to,
    {
        let c = text.get_char(to);
        if !(c >= '0' && c <= '9') {
            return to;
        }
        to += 1;
    }
    to
}

/// The sector whose code stands at `at`, the longer code where two stand there.
fn sector_here(text: &str, len: usize, at: usize) -> (r: Option<usize>)
    requires
        len == text@.len(),
        at <= len,
    ensures
        r matches Some(k) ==> sector_at(text@, at as int, k as int),
        r is None ==> forall|k: int| !code_at(text@, at as int, k),
{
    if at >= len {
        assert forall|k: int| !code_at(text@, at as int, k) by {
            assert(sector_code(k).len() >= 1);
        }
        return None;
    }
    let first = text.get_char(at);
    let ghost s = text@;
    proof {
        assert forall|k: int| code_at(s, at as int, k) implies s[at as int] == sector_code(k)[0] && (
        sector_code(k).len() == 2 ==> at + 1 < len && s[at + 1] == sector_code(k)[1]) by {
            lemma_code_is_letters(s, at as int, k);
        }
    }
    if at + 1 < len {
        let second = text.get_char(at + 1);
        let long: Option<usize> = if first == 'Y' && second == 'R' {
            Some(1)
        } else if first == 'G' && second == 'Y' {
            Some(3)
        } else if first == 'B' && second == 'G' {
            Some(5)
        } else if first == 'P' && second == 'B' {
            Some(7)
        } else if first == 'R' && second == 'P' {
            Some(9)
        } else {
            None
        };
        match long {
            Some(k) => {
                assert(s.subrange(at as int, at + 2) =~= sector_code(k as int));
                return Some(k);
            },
            None => {},
        }
    }
    let short: Option<usize> = if first == 'R' {
        Some(0)
    } else if first == 'Y' {
        Some(2)
    } else if first == 'G' {
        Some(4)
    } else if first == 'B' {
        Some(6)
    } else if first == 'P' {
        Some(8)
    } else {
        None
    };
    match short {
        Some(k) => {
            assert(s.subrange(at as int, at + 1) =~= sector_code(k as int));
        },
        None => {},
    }
    short
}

/// Takes a hue in lettered notation apart: `text` must begin with a number (digits, or digits,
/// a point and digits) and, directly behind it, a sector code; what follows is not looked at.
/// Returns where the number ends and which sector is named, or `None` where `text` is no such
/// notation.
pub fn parse_hue_notation(text: &str) -> (r: Option<HueNotation>)
    ensures
        r is Some <==> is_hue_notation(text@),
        r matches Some(n) ==> number_prefix(text@, n.number_len as int) && sector_at(
            text@,
            n.number_len as int,
            n.sector as int,
        ),
{
    let len = text.unicode_len();
    let ghost s = text@;
    let point = digit_run(text, len, 0);
    let mut end: usize = point;
    if point < len && text.get_char(point) == '.' {
        let behind = digit_run(text, len, point + 1);
        if behind > point + 1 {
            end = behind;
        }
    }
    proof {
        // Any number in front of a code ends where this one does.
        assert forall|e: int, k: int| number_prefix(s, e) && code_at(s, e, k) implies e == end
            && number_prefix(s, end as int) by {
            let p = choose|p: int| number_with_point(s, p, e);
            lemma_code_is_letters(s, e, k);
            if p < point {
                assert(is_digit(s[p]));
            }
            if point < p {
                assert(is_digit(s[point as int]));
            }
            assert(number_with_point(s, p, end as int));
        }
    }
    if end == 0 {
        return None;
    }
    match sector_here(text, len, end) {
        Some(sector) => {
            assert(number_with_point(s, point as int, end as int));
            Some(HueNotation { number_len: end, sector })
        },
        None => None,
    }
}

} // verus!
