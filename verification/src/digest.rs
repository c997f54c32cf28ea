//! The digest function: a 64-bit hash over strings, and the digest of the
//! decimal concatenation of two digests, which parent nodes are built from.

use vstd::prelude::*;
use vstd::string::StringExecFns;

verus! {

/// The digest of a string with these characters: the value that
/// `calculate_hash` returns for it.
pub uninterp spec fn hash_of(s: Seq<char>) -> u64;

/// Relies on `std::collections::hash_map::DefaultHasher`: hashers made by
/// `DefaultHasher::new()` are documented to behave like every other hasher
/// made that way, so the digest depends on the string's characters alone.
#[verifier::external_body]
fn default_hasher_digest(data: &String) -> (r: u64)
    ensures
        r == hash_of(data@),
{
    let mut s = std::collections::hash_map::DefaultHasher::new();
    std::hash::Hash::hash(data, &mut s);
    std::hash::Hasher::finish(&s)
}

/// The digest of a string: `hash_of` of its characters.
pub fn calculate_hash(data: &String) -> (r: u64)
    ensures
        r == hash_of(data@),
{
    default_hasher_digest(data)
}

/// The character for a single decimal digit.
pub open spec fn digit_char(d: nat) -> char {
    if d == 0 {
        '0'
    } else if d == 1 {
        '1'
    } else if d == 2 {
        '2'
    } else if d == 3 {
        '3'
    } else if d == 4 {
        '4'
    } else if d == 5 {
        '5'
    } else if d == 6 {
        '6'
    } else if d == 7 {
        '7'
    } else if d == 8 {
        '8'
    } else {
        '9'
    }
}

/// The decimal rendering of a number, most significant digit first, with no
/// leading zeros.
pub open spec fn decimal_rep(n: nat) -> Seq<char>
    decreases n,
{
    if n < 10 {
        seq![digit_char(n)]
    } else {
        decimal_rep(n / 10).push(digit_char(n % 10))
    }
}

/// The digest of a parent node: the digest of the two child digests rendered
/// in decimal and concatenated.
pub open spec fn combined_hash(a: u64, b: u64) -> u64 {
    hash_of(decimal_rep(a as nat) + decimal_rep(b as nat))
}

fn push_digit(s: &mut String, d: u64)
    requires
        d < 10,
    ensures
        final(s)@ == old(s)@ + seq![digit_char(d as nat)],
{
    if d == 0 {
        proof {
            reveal_strlit("0");
        }
        s.append("0");
        assert(s@ =~= old(s)@ + seq![digit_char(d as nat)]);
    } else if d == 1 {
        proof {
            reveal_strlit("1");
        }
        s.append("1");
        assert(s@ =~= old(s)@ + seq![digit_char(d as nat)]);
    } else if d == 2 {
        proof {
            reveal_strlit("2");
        }
        s.append("2");
        assert(s@ =~= old(s)@ + seq![digit_char(d as nat)]);
    } else if d == 3 {
        proof {
            reveal_strlit("3");
        }
        s.append("3");
        assert(s@ =~= old(s)@ + seq![digit_char(d as nat)]);
    } else if d == 4 {
        proof {
            reveal_strlit("4");
        }
        s.append("4");
        assert(s@ =~= old(s)@ + seq![digit_char(d as nat)]);
    } else if d == 5 {
        proof {
            reveal_strlit("5");
        }
        s.append("5");
        assert(s@ =~= old(s)@ + seq![digit_char(d as nat)]);
    } else if d == 6 {
        proof {
            reveal_strlit("6");
        }
        s.append("6");
        assert(s@ =~= old(s)@ + seq![digit_char(d as nat)]);
    } else if d == 7 {
        proof {
            reveal_strlit("7");
        }
        s.append("7");
        assert(s@ =~= old(s)@ + seq![digit_char(d as nat)]);
    } else if d == 8 {
        proof {
            reveal_strlit("8");
        }
        s.append("8");
        assert(s@ =~= old(s)@ + seq![digit_char(d as nat)]);
    } else {
        proof {
            reveal_strlit("9");
        }
        s.append("9");
        assert(s@ =~= old(s)@ + seq![digit_char(d as nat)]);
    }
}

fn push_decimal(s: &mut String, n: u64)
    ensures
        final(s)@ == old(s)@ + decimal_rep(n as nat),
    decreases n,
{
    if n < 10 {
        push_digit(s, n);
    } else {
        push_decimal(s, n / 10);
        push_digit(s, n % 10);
        assert(s@ =~= old(s)@ + decimal_rep(n as nat));
    }
}

/// The digest of a parent node computed from its two child digests: each is
/// rendered in decimal, the renderings are concatenated, and the result is
/// hashed.
pub fn concat_hash(h1: u64, h2: u64) -> (r: u64)
    ensures
        r == combined_hash(h1, h2),
{
    let mut s = String::new();
    push_decimal(&mut s, h1);
    push_decimal(&mut s, h2);
    assert(s@ =~= decimal_rep(h1 as nat) + decimal_rep(h2 as nat));
    calculate_hash(&s)
}

} // verus!
