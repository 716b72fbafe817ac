//! Output naming: which files are candidates, and what a tile file is
//! called.
//!
//! A candidate is a file whose name ends in the exact-case extension
//! `.png` with a non-empty stem before the dot.  The tile at plan index
//! `i` of a candidate `stem.png` is written as `stem_i.png`, with `i` in
//! decimal and counted from zero.

use vstd::prelude::*;

verus! {

use vstd::string::StringExecFns;

/// The decimal digit character of `d`.
pub open spec fn digit_char(d: int) -> char {
    if d == 0 {
        '0'
    } else if d == 1 {
        '1'
    } else if d == 2 {
        '2'
    } else if d == 3 {
        '3'
    } else if d == 4 {
        '4'
    } else if d == 5 {
        '5'
    } else if d == 6 {
        '6'
    } else if d == 7 {
        '7'
    } else if d == 8 {
        '8'
    } else {
        '9'
    }
}

/// The decimal digits of `n`, most significant first, without leading
/// zeroes (except for `n == 0` itself).
pub open spec fn dec_digits(n: nat) -> Seq<char>
    decreases n,
{
    if n < 10 {
        seq![digit_char(n as int)]
    } else {
        dec_digits(n / 10).push(digit_char((n % 10) as int))
    }
}

/// Append the decimal digits of `n` to `s`.
fn push_decimal(s: &mut String, n: usize)
    ensures
        final(s)@ == old(s)@ + dec_digits(n as nat),
    decreases n,
{
    proof {
        reveal_strlit("0");
        reveal_strlit("1");
        reveal_strlit("2");
        reveal_strlit("3");
        reveal_strlit("4");
        reveal_strlit("5");
        reveal_strlit("6");
        reveal_strlit("7");
        reveal_strlit("8");
        reveal_strlit("9");
    }
    if n >= 10 {
        push_decimal(s, n / 10);
    }
    let d = n % 10;
    let ds: &str = if d == 0 {
        "0"
    } else if d == 1 {
        "1"
    } else if d == 2 {
        "2"
    } else if d == 3 {
        "3"
    } else if d == 4 {
        "4"
    } else if d == 5 {
        "5"
    } else if d == 6 {
        "6"
    } else if d == 7 {
        "7"
    } else if d == 8 {
        "8"
    } else {
        "9"
    };
    proof {
        assert(ds@ =~= seq![digit_char(d as int)]);
    }
    s.append(ds);
    proof {
        assert(s@ =~= old(s)@ + dec_digits(n as nat));
    }
}

/// The tile file name for a source stem and a tile index:
/// `stem_index.png`.
pub open spec fn tile_name(stem: Seq<char>, index: nat) -> Seq<char> {
    stem + seq!['_'] + dec_digits(index) + seq!['.', 'p', 'n', 'g']
}

/// Build the name of tile `index` for a source file stem.
pub fn tile_file_name(stem: &str, index: usize) -> (r: String)
    ensures
        r@ == tile_name(stem@, index as nat),
{
    let mut r = String::from_str(stem);
    r.append("_");
    push_decimal(&mut r, index);
    r.append(".png");
    proof {
        reveal_strlit("_");
        reveal_strlit(".png");
        assert(r@ =~= tile_name(stem@, index as nat));
    }
    r
}

/// A file name names a candidate: it ends in `.png` (exact case) and a
/// non-empty stem stands before the dot.
pub open spec fn is_png_name(s: Seq<char>) -> bool {
    &&& s.len() >= 5
    &&& s[s.len() - 4] == '.'
    &&& s[s.len() - 3] == 'p'
    &&& s[s.len() - 2] == 'n'
    &&& s[s.len() - 1] == 'g'
}

/// Decide whether a file name names a candidate.
pub fn file_name_is_candidate(name: &str) -> (r: bool)
    ensures
        r == is_png_name(name@),
{
    let n = name.unicode_len();
    if n < 5 {
        return false;
    }
    let c_dot = name.get_char(n - 4);
    let c_p = name.get_char(n - 3);
    let c_n = name.get_char(n - 2);
    let c_g = name.get_char(n - 1);
    c_dot == '.' && c_p == 'p' && c_n == 'n' && c_g == 'g'
}

/// Build the name of tile `index` for a candidate file name: the name
/// with its `.png` suffix replaced by `_index.png`.
pub fn output_tile_name(name: &str, index: usize) -> (r: String)
    requires
        is_png_name(name@),
    ensures
        r@ == tile_name(name@.subrange(0, name@.len() - 4), index as nat),
{
    let n = name.unicode_len();
    let stem = name.substring_char(0, n - 4);
    tile_file_name(stem, index)
}

} // verus!
