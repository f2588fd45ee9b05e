use crate::error::ChessError;
use crate::strutil::push_char;
use vstd::prelude::*;
use vstd::string::StrSliceExecFns;

verus! {

/// A board coordinate: (file, rank), file 0 is the `A` file and rank 0 is the
/// first rank. Both components are strictly below 8 whenever the square is
/// used to index the board.
#[derive(Clone, Copy, Debug, PartialEq, Eq, Structural)]
pub struct Square(pub usize, pub usize);

/// The file index a notation letter names: `A`..`H` or `a`..`h`; -1 for any
/// other character.
pub open spec fn file_of_char(c: char) -> int {
    if 'A' as int <= c as int && c as int <= 'H' as int {
        c as int - 'A' as int
    } else if 'a' as int <= c as int && c as int <= 'h' as int {
        c as int - 'a' as int
    } else {
        -1
    }
}

/// The rank index a notation digit names: `1`..`8`; -1 for any other
/// character.
pub open spec fn rank_of_char(c: char) -> int {
    if '1' as int <= c as int && c as int <= '8' as int {
        c as int - '1' as int
    } else {
        -1
    }
}

/// What a piece of square notation denotes: exactly one file letter followed
/// by one rank digit, case-insensitive; anything else is invalid.
pub open spec fn parse_square(s: Seq<char>) -> Option<Square> {
    if s.len() == 2 && file_of_char(s[0]) >= 0 && rank_of_char(s[1]) >= 0 {
        Some(Square(file_of_char(s[0]) as usize, rank_of_char(s[1]) as usize))
    } else {
        None
    }
}

/// The notation letter of a file index.
pub open spec fn file_char(f: int) -> char {
    if f == 0 {
        'A'
    } else if f == 1 {
        'B'
    } else if f == 2 {
        'C'
    } else if f == 3 {
        'D'
    } else if f == 4 {
        'E'
    } else if f == 5 {
        'F'
    } else if f == 6 {
        'G'
    } else {
        'H'
    }
}

/// The notation digit of a rank index.
pub open spec fn rank_char(r: int) -> char {
    if r == 0 {
        '1'
    } else if r == 1 {
        '2'
    } else if r == 2 {
        '3'
    } else if r == 3 {
        '4'
    } else if r == 4 {
        '5'
    } else if r == 5 {
        '6'
    } else if r == 6 {
        '7'
    } else {
        '8'
    }
}

/// The two-character notation of a square.
pub open spec fn square_chars(f: int, r: int) -> Seq<char> {
    seq![file_char(f), rank_char(r)]
}

/// The file index of a notation letter, or -1.
pub(crate) fn file_value(c: char) -> (v: i32)
    ensures
        v == file_of_char(c),
{
    let u = c as u32;
    if 65 <= u && u <= 72 {
        (u - 65) as i32
    } else if 97 <= u && u <= 104 {
        (u - 97) as i32
    } else {
        -1
    }
}

/// The rank index of a notation digit, or -1.
pub(crate) fn rank_value(c: char) -> (v: i32)
    ensures
        v == rank_of_char(c),
{
    let u = c as u32;
    if 49 <= u && u <= 56 {
        (u - 49) as i32
    } else {
        -1
    }
}

impl Square {
    /// Parses two-character algebraic notation such as `"E2"`,
    /// case-insensitive. Fails with `InvalidNotation` when the text is not
    /// exactly two characters or the characters fall outside `A`..`H` and
    /// `1`..`8`.
    pub fn from(s: &str) -> (r: Result<Square, ChessError>)
        ensures
            match parse_square(s@) {
                Some(q) => r == Ok::<Square, ChessError>(q),
                None => r == Err::<Square, ChessError>(ChessError::InvalidNotation),
            },
    {
        if s.unicode_len() != 2 {
            return Err(ChessError::InvalidNotation);
        }
        let f = file_value(s.get_char(0));
        if f < 0 {
            return Err(ChessError::InvalidNotation);
        }
        let r = rank_value(s.get_char(1));
        if r < 0 {
            return Err(ChessError::InvalidNotation);
        }
        Ok(Square(f as usize, r as usize))
    }

    /// Renders the square back to its two-character notation.
    pub fn to_str(&self) -> (r: String)
        requires
            self.0 < 8,
            self.1 < 8,
        ensures
            r@ == square_chars(self.0 as int, self.1 as int),
    {
        let fc: char = if self.0 == 0 {
            'A'
        } else if self.0 == 1 {
            'B'
        } else if self.0 == 2 {
            'C'
        } else if self.0 == 3 {
            'D'
        } else if self.0 == 4 {
            'E'
        } else if self.0 == 5 {
            'F'
        } else if self.0 == 6 {
            'G'
        } else {
            'H'
        };
        let rc: char = if self.1 == 0 {
            '1'
        } else if self.1 == 1 {
            '2'
        } else if self.1 == 2 {
            '3'
        } else if self.1 == 3 {
            '4'
        } else if self.1 == 4 {
            '5'
        } else if self.1 == 5 {
            '6'
        } else if self.1 == 6 {
            '7'
        } else {
            '8'
        };
        let mut out = String::new();
        push_char(&mut out, fc);
        push_char(&mut out, rc);
        proof {
            assert(out@ =~= square_chars(self.0 as int, self.1 as int));
        }
        out
    }
}

} // verus!
