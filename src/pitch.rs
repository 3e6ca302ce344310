//! Musical pitch as a note letter and an octave.

use vstd::prelude::*;
use vstd::string::StringExecFns;

verus! {

/// A note letter within an octave, from `C` (0) to `B` (11).
pub type Letter = u8;

/// C.
pub const C: Letter = 0;
/// C sharp.
pub const CSH: Letter = 1;
/// D flat, the same note as C sharp.
pub const DB: Letter = CSH;
/// D.
pub const D: Letter = 2;
/// D sharp.
pub const DSH: Letter = 3;
/// E flat, the same note as D sharp.
pub const EB: Letter = DSH;
/// E.
pub const E: Letter = 4;
/// F.
pub const F: Letter = 5;
/// F sharp.
pub const FSH: Letter = 6;
/// G flat, the same note as F sharp.
pub const GB: Letter = FSH;
/// G.
pub const G: Letter = 7;
/// G sharp.
pub const GSH: Letter = 8;
/// A flat, the same note as G sharp.
pub const AB: Letter = GSH;
/// A.
pub const A: Letter = 9;
/// A sharp.
pub const ASH: Letter = 10;
/// B flat, the same note as A sharp.
pub const BB: Letter = ASH;
/// B.
pub const B: Letter = 11;
/// The number of letters in an octave.
pub const TOTAL_LETTERS: Letter = 12;

/// The name of a letter, or a message saying it is out of range.
pub open spec fn letter_name(letter: Letter) -> Seq<char> {
    if letter == 0 {
        "C"@
    } else if letter == 1 {
        "Csh"@
    } else if letter == 2 {
        "D"@
    } else if letter == 3 {
        "Dsh"@
    } else if letter == 4 {
        "E"@
    } else if letter == 5 {
        "F"@
    } else if letter == 6 {
        "Fsh"@
    } else if letter == 7 {
        "G"@
    } else if letter == 8 {
        "Gsh"@
    } else if letter == 9 {
        "A"@
    } else if letter == 10 {
        "Ash"@
    } else if letter == 11 {
        "B"@
    } else {
        "Letter out of range! Must be between 0 - 11 u8."@
    }
}

/// The name of `letter`, for printing and display.
pub fn get_str_from_letter(letter: Letter) -> (r: &'static str)
    ensures
        r@ == letter_name(letter),
{
    match letter {
        0 => "C",
        1 => "Csh",
        2 => "D",
        3 => "Dsh",
        4 => "E",
        5 => "F",
        6 => "Fsh",
        7 => "G",
        8 => "Gsh",
        9 => "A",
        10 => "Ash",
        11 => "B",
        _ => "Letter out of range! Must be between 0 - 11 u8.",
    }
}

/// The character of the decimal digit `d`.
pub open spec fn digit_char(d: nat) -> char {
    if d == 0 {
        '0'
    } else if d == 1 {
        '1'
    } else if d == 2 {
        '2'
    } else if d == 3 {
        '3'
    } else if d == 4 {
        '4'
    } else if d == 5 {
        '5'
    } else if d == 6 {
        '6'
    } else if d == 7 {
        '7'
    } else if d == 8 {
        '8'
    } else {
        '9'
    }
}

/// The decimal digits of `n`, most significant first.
pub open spec fn decimal(n: nat) -> Seq<char>
    decreases n,
{
    if n < 10 {
        seq![digit_char(n)]
    } else {
        decimal(n / 10).push(digit_char(n % 10))
    }
}

/// `n` written in decimal, with a leading `-` when negative.
pub open spec fn signed_decimal(n: int) -> Seq<char> {
    if n < 0 {
        seq!['-'] + decimal((-n) as nat)
    } else {
        decimal(n as nat)
    }
}

/// The one-character string of the decimal digit `d`.
fn digit_str(d: u64) -> (r: &'static str)
    requires
        d < 10,
    ensures
        r@ == seq![digit_char(d as nat)],
{
    proof {
        reveal_strlit("0");
        reveal_strlit("1");
        reveal_strlit("2");
        reveal_strlit("3");
        reveal_strlit("4");
        reveal_strlit("5");
        reveal_strlit("6");
        reveal_strlit("7");
        reveal_strlit("8");
        reveal_strlit("9");
    }
    match d {
        0 => "0",
        1 => "1",
        2 => "2",
        3 => "3",
        4 => "4",
        5 => "5",
        6 => "6",
        7 => "7",
        8 => "8",
        _ => "9",
    }
}

/// Appends the decimal digits of `n` to `s`.
fn push_decimal(s: &mut String, n: u64)
    ensures
        final(s)@ == old(s)@ + decimal(n as nat),
    decreases n,
{
    if n >= 10 {
        push_decimal(s, n / 10);
    }
    s.append(digit_str(n % 10));
    proof {
        if n >= 10 {
            assert(old(s)@ + decimal((n / 10) as nat) + seq![digit_char((n % 10) as nat)]
                =~= old(s)@ + decimal(n as nat));
        } else {
            assert(old(s)@ + seq![digit_char((n % 10) as nat)] =~= old(s)@ + decimal(n as nat));
        }
    }
}

/// Musical pitch as a note letter and an octave.
#[derive(Copy, Clone, Debug, PartialEq, Eq, Structural)]
pub struct LetterOctave(Letter, isize);

impl LetterOctave {
    /// The letter.
    pub closed spec fn spec_letter(&self) -> Letter {
        self.0
    }

    /// The octave.
    pub closed spec fn spec_octave(&self) -> isize {
        self.1
    }

    /// The pitch of `letter` in `octave`.
    pub fn new(letter: Letter, octave: isize) -> (r: LetterOctave)
        ensures
            r.spec_letter() == letter,
            r.spec_octave() == octave,
    {
        LetterOctave(letter, octave)
    }

    /// The letter.
    pub fn letter(&self) -> (r: Letter)
        ensures
            r == self.spec_letter(),
    {
        self.0
    }

    /// The octave.
    pub fn octave(&self) -> (r: isize)
        ensures
            r == self.spec_octave(),
    {
        self.1
    }

    /// The pitch as text: `LetterOctave: <letter name>, <octave>`.
    pub fn get_str(&self) -> (r: String)
        ensures
            r@ == "LetterOctave: "@ + letter_name(self.spec_letter()) + ", "@ + signed_decimal(
                self.spec_octave() as int,
            ),
    {
        let mut s = String::from_str("LetterOctave: ");
        s.append(get_str_from_letter(self.0));
        s.append(", ");
        let ghost prefix = s@;
        if self.1 < 0 {
            s.append("-");
            let magnitude: u64 = (-(self.1 as i128)) as u64;
            push_decimal(&mut s, magnitude);
            proof {
                reveal_strlit("-");
                assert(s@ =~= prefix + signed_decimal(self.1 as int));
            }
        } else {
            push_decimal(&mut s, self.1 as u64);
        }
        s
    }
}

/// The distance in semitones from `letter_a` to `letter_b`: their difference when it is at
/// most 6, and otherwise that difference less 12.
pub fn get_difference_in_semitones(letter_a: Letter, letter_b: Letter) -> (r: isize)
    ensures
        r == if abs_diff(letter_a as int, letter_b as int) > 6 {
            abs_diff(letter_a as int, letter_b as int) - 12
        } else {
            abs_diff(letter_a as int, letter_b as int)
        },
{
    let diff: isize = if letter_a >= letter_b {
        (letter_a - letter_b) as isize
    } else {
        (letter_b - letter_a) as isize
    };
    if diff > 6 {
        diff - 12
    } else {
        diff
    }
}

/// The absolute difference of two integers.
pub open spec fn abs_diff(a: int, b: int) -> int {
    if a >= b {
        a - b
    } else {
        b - a
    }
}

} // verus!
