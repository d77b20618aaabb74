use crate::error::Error;
use crate::types::Tile;
use vstd::prelude::*;
use vstd::string::StrSliceExecFns;

verus! {

/// One of the four suit letters: man, pin, sou, honors.
pub open spec fn is_mode(c: char) -> bool {
    c == 'm' || c == 'p' || c == 's' || c == 'z'
}

/// A digit from one to nine.
pub open spec fn is_rank(c: char) -> bool {
    c == '1' || c == '2' || c == '3' || c == '4' || c == '5' || c == '6' || c == '7' || c == '8'
        || c == '9'
}

/// The rank that a digit names, counted from zero.
pub open spec fn rank_of(c: char) -> u8 {
    if c == '1' {
        0
    } else if c == '2' {
        1
    } else if c == '3' {
        2
    } else if c == '4' {
        3
    } else if c == '5' {
        4
    } else if c == '6' {
        5
    } else if c == '7' {
        6
    } else if c == '8' {
        7
    } else {
        8
    }
}

/// The tile that a digit names under a suit letter.
pub open spec fn tile_of(mode: char, digit: char) -> Tile {
    if mode == 'm' {
        Tile::Supai(0, rank_of(digit))
    } else if mode == 'p' {
        Tile::Supai(1, rank_of(digit))
    } else if mode == 's' {
        Tile::Supai(2, rank_of(digit))
    } else {
        Tile::Jihai(rank_of(digit))
    }
}

/// The suit letter that governs position `i`: the nearest one at or after
/// it, and `z` where none follows.
pub open spec fn mode_at(s: Seq<char>, i: int) -> char
    decreases s.len() - i,
{
    if i < 0 || i >= s.len() {
        'z'
    } else if is_mode(s[i]) {
        s[i]
    } else {
        mode_at(s, i + 1)
    }
}

/// The tiles that the characters from position `i` on name, last character first.
pub open spec fn tiles_from(s: Seq<char>, i: int) -> Seq<Tile>
    decreases s.len() - i,
{
    if i < 0 || i >= s.len() {
        Seq::empty()
    } else if is_rank(s[i]) {
        tiles_from(s, i + 1).push(tile_of(mode_at(s, i), s[i]))
    } else {
        tiles_from(s, i + 1)
    }
}

/// Every character from position `i` on is a suit letter or a digit.
pub open spec fn valid_from(s: Seq<char>, i: int) -> bool {
    forall|k: int| i <= k < s.len() ==> is_mode(#[trigger] s[k]) || is_rank(s[k])
}

/// The tiles of a hand string such as `678m56p233789s11z`.
///
/// The string is read from its end: a suit letter sets the suit of the digits
/// before it, and a digit names a tile of that suit. Digits after the last
/// suit letter name honors. The tiles come out in reading order, last
/// character first. The first character met that is neither is refused.
pub fn parse_hand_str(s: &str) -> (r: Result<Vec<Tile>, Error>)
    ensures
        match r {
            Ok(tiles) => valid_from(s@, 0) && tiles@ == tiles_from(s@, 0),
            Err(e) => exists|k: int|
                0 <= k < s@.len() && !is_mode(s@[k]) && !is_rank(s@[k]) && valid_from(s@, k + 1)
                    && e == Error::InvalidCharacter(s@[k]),
        },
{
    let n = s.unicode_len();
    let mut tiles: Vec<Tile> = Vec::new();
    let mut mode = 'z';
    let mut i = n;
    while i > 0
        invariant
            n == s@.len(),
            0 <= i <= n,
            valid_from(s@, i as int),
            tiles@ == tiles_from(s@, i as int),
            mode == mode_at(s@, i as int),
            is_mode(mode),
        decreases i,
    {
        i -= 1;
        let c = s.get_char(i);
        if c == 'm' || c == 'p' || c == 's' || c == 'z' {
            mode = c;
        } else if c == '1' || c == '2' || c == '3' || c == '4' || c == '5' || c == '6' || c == '7'
            || c == '8' || c == '9' {
            let rank: u8 = if c == '1' {
                0
            } else if c == '2' {
                1
            } else if c == '3' {
                2
            } else if c == '4' {
                3
            } else if c == '5' {
                4
            } else if c == '6' {
                5
            } else if c == '7' {
                6
            } else if c == '8' {
                7
            } else {
                8
            };
            let tile = if mode == 'm' {
                Tile::Supai(0, rank)
            } else if mode == 'p' {
                Tile::Supai(1, rank)
            } else if mode == 's' {
                Tile::Supai(2, rank)
            } else {
                Tile::Jihai(rank)
            };
            tiles.push(tile);
        } else {
            return Err(Error::InvalidCharacter(c));
        }
    }
    Ok(tiles)
}

} // verus!
