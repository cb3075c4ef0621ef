//! Text helpers: decimal rendering of ids for error messages, and verified
//! substring search over character sequences.

use vstd::prelude::*;
use vstd::string::StringExecFns;
use vstd::string::StrSliceExecFns;

verus! {

/// The decimal digits of `n`, most significant first.
pub open spec fn decimal_digits(n: u64) -> Seq<char>
    decreases n,
{
    if n < 10 {
        seq![digit_char(n)]
    } else {
        decimal_digits(n / 10).push(digit_char(n % 10))
    }
}

/// The character for one decimal digit.
pub open spec fn digit_char(d: u64) -> char {
    if d == 0 {
        '0'
    } else if d == 1 {
        '1'
    } else if d == 2 {
        '2'
    } else if d == 3 {
        '3'
    } else if d == 4 {
        '4'
    } else if d == 5 {
        '5'
    } else if d == 6 {
        '6'
    } else if d == 7 {
        '7'
    } else if d == 8 {
        '8'
    } else {
        '9'
    }
}

/// Appends one decimal digit to a string.
fn push_digit(s: &mut String, d: u64)
    requires
        d < 10,
    ensures
        final(s)@ == old(s)@.push(digit_char(d)),
{
    let t: &str = if d == 0 {
        "0"
    } else if d == 1 {
        "1"
    } else if d == 2 {
        "2"
    } else if d == 3 {
        "3"
    } else if d == 4 {
        "4"
    } else if d == 5 {
        "5"
    } else if d == 6 {
        "6"
    } else if d == 7 {
        "7"
    } else if d == 8 {
        "8"
    } else {
        "9"
    };
    proof {
        reveal_strlit("0");
        reveal_strlit("1");
        reveal_strlit("2");
        reveal_strlit("3");
        reveal_strlit("4");
        reveal_strlit("5");
        reveal_strlit("6");
        reveal_strlit("7");
        reveal_strlit("8");
        reveal_strlit("9");
        assert(t@ =~= seq![digit_char(d)]);
    }
    s.append(t);
    proof {
        assert(s@ =~= old(s)@.push(digit_char(d)));
    }
}

/// Appends the decimal rendering of `n` to a string.
pub fn push_decimal(s: &mut String, n: u64)
    ensures
        final(s)@ == old(s)@ + decimal_digits(n),
    decreases n,
{
    if n < 10 {
        push_digit(s, n);
        proof {
            assert(s@ =~= old(s)@ + decimal_digits(n));
        }
    } else {
        push_decimal(s, n / 10);
        push_digit(s, n % 10);
        proof {
            assert(s@ =~= old(s)@ + decimal_digits(n));
        }
    }
}

/// Whether `needle` occurs in `hay` as a contiguous run of characters.
pub open spec fn contains_seq(hay: Seq<char>, needle: Seq<char>) -> bool {
    exists|i: int|
        0 <= i <= hay.len() - needle.len() && #[trigger] hay.subrange(i, i + needle.len() as int)
            == needle
}

/// Checks one candidate position for a substring match.
fn matches_at(hay: &str, needle: &str, i: usize, hl: usize, nl: usize) -> (b: bool)
    requires
        hl == hay@.len(),
        nl == needle@.len(),
        i + nl <= hl,
    ensures
        b == (hay@.subrange(i as int, i + nl as int) == needle@),
{
    let mut j: usize = 0;
    while j < nl
        invariant
            j <= nl,
            i + nl <= hl,
            hl == hay@.len(),
            nl == needle@.len(),
            forall|q: int| 0 <= q < j ==> hay@[i + q] == needle@[q],
        decreases nl - j,
    {
        if hay.get_char(i + j) != needle.get_char(j) {
            proof {
                assert(hay@.subrange(i as int, i + nl as int)[j as int] != needle@[j as int]);
            }
            return false;
        }
        j = j + 1;
    }
    proof {
        assert(hay@.subrange(i as int, i + nl as int) =~= needle@);
    }
    true
}

/// Substring search: decides whether `needle` occurs in `hay`.
pub fn str_contains(hay: &str, needle: &str) -> (b: bool)
    ensures
        b == contains_seq(hay@, needle@),
{
    let hl = hay.unicode_len();
    let nl = needle.unicode_len();
    if nl > hl {
        return false;
    }
    let mut i: usize = 0;
    loop
        invariant
            nl <= hl,
            hl == hay@.len(),
            nl == needle@.len(),
            i <= hl - nl,
            forall|q: int|
                0 <= q < i ==> !(#[trigger] hay@.subrange(q, q + nl as int) == needle@),
        decreases hl - nl - i,
    {
        if matches_at(hay, needle, i, hl, nl) {
            return true;
        }
        if i == hl - nl {
            return false;
        }
        i = i + 1;
    }
}

/// The message reported when a lookup finds no record.
pub open spec fn get_not_found_msg(id: u64) -> Seq<char> {
    "culinary adventure with id="@ + decimal_digits(id) + " not found"@
}

/// The message reported when an update finds no record.
pub open spec fn update_not_found_msg(id: u64) -> Seq<char> {
    "couldn't update culinary adventure with id="@ + decimal_digits(id) + ". item not found"@
}

/// The message reported when a visit-date update finds no record.
pub open spec fn update_date_not_found_msg(id: u64) -> Seq<char> {
    "couldn't update visit date for culinary adventure with id="@ + decimal_digits(id)
        + ". item not found"@
}

/// The message reported when a delete finds no record.
pub open spec fn delete_not_found_msg(id: u64) -> Seq<char> {
    "couldn't delete culinary adventure with id="@ + decimal_digits(id) + ". item not found."@
}

/// Builds `prefix`, then the decimal rendering of `id`, then `suffix`.
pub fn not_found_message(prefix: &str, id: u64, suffix: &str) -> (r: String)
    ensures
        r@ == prefix@ + decimal_digits(id) + suffix@,
{
    let mut s = String::new();
    s.append(prefix);
    push_decimal(&mut s, id);
    s.append(suffix);
    proof {
        assert(s@ =~= prefix@ + decimal_digits(id) + suffix@);
    }
    s
}

} // verus!
