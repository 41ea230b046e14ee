//! Validation of user-facing text fields: a name that must not be empty,
//! and a price written as digits with an optional decimal point, possibly
//! with a `lei` currency marker and spaces around it.

use vstd::prelude::*;
use vstd::string::StrSliceExecFns;

verus! {

/// `s` with every occurrence of `lei` removed, left to right, without
/// rescanning what a removal brings together.
pub open spec fn remove_lei(s: Seq<char>) -> Seq<char>
    decreases s.len(),
{
    if s.len() == 0 {
        Seq::empty()
    } else if s.len() >= 3 && s[0] == 'l' && s[1] == 'e' && s[2] == 'i' {
        remove_lei(s.skip(3))
    } else {
        seq![s[0]] + remove_lei(s.drop_first())
    }
}

/// `s` with every space removed.
pub open spec fn drop_spaces(s: Seq<char>) -> Seq<char>
    decreases s.len(),
{
    if s.len() == 0 {
        Seq::empty()
    } else if s[0] == ' ' {
        drop_spaces(s.drop_first())
    } else {
        seq![s[0]] + drop_spaces(s.drop_first())
    }
}

/// A character a cleaned price may hold: a decimal digit or the point.
pub open spec fn is_price_char(c: char) -> bool {
    ('0' <= c && c <= '9') || c == '.'
}

/// A valid price: after removing `lei` markers and spaces, something
/// remains and all of it is digits or points.
pub open spec fn is_valid_price(s: Seq<char>) -> bool {
    let cleaned = drop_spaces(remove_lei(s));
    cleaned.len() != 0 && (forall|k: int| 0 <= k < cleaned.len() ==> is_price_char(cleaned[k]))
}

/// A product name is valid exactly when it is nonempty.
pub fn validate_product_name(name: &str) -> (r: bool)
    ensures
        r == (name@.len() != 0),
{
    !name.is_empty()
}

/// Remove every `lei` marker from `chars`, left to right.
fn remove_lei_exec(chars: &Vec<char>) -> (out: Vec<char>)
    ensures
        out@ == remove_lei(chars@),
{
    let n: usize = chars.len();
    let mut out: Vec<char> = Vec::new();
    let mut i: usize = 0;
    proof {
        assert(chars@.skip(0) =~= chars@);
        assert(out@ + remove_lei(chars@) =~= remove_lei(chars@));
    }
    while i < n
        invariant
            i <= n == chars@.len(),
            remove_lei(chars@) == out@ + remove_lei(chars@.skip(i as int)),
        decreases n - i,
    {
        if n - i >= 3 && chars[i] == 'l' && chars[i + 1] == 'e' && chars[i + 2] == 'i' {
            proof {
                assert(chars@.skip(i as int).skip(3) =~= chars@.skip(i as int + 3));
            }
            i = i + 3;
        } else {
            proof {
                assert(chars@.skip(i as int).drop_first() =~= chars@.skip(i as int + 1));
                assert(out@ + (seq![chars@[i as int]] + remove_lei(chars@.skip(i as int + 1)))
                    =~= out@.push(chars@[i as int]) + remove_lei(chars@.skip(i as int + 1)));
            }
            out.push(chars[i]);
            i = i + 1;
        }
    }
    proof {
        assert(chars@.skip(n as int) =~= Seq::<char>::empty());
        assert(out@ + Seq::<char>::empty() =~= out@);
    }
    out
}

/// Remove every space from `chars`.
fn drop_spaces_exec(chars: &Vec<char>) -> (out: Vec<char>)
    ensures
        out@ == drop_spaces(chars@),
{
    let n: usize = chars.len();
    let mut out: Vec<char> = Vec::new();
    let mut i: usize = 0;
    proof {
        assert(chars@.skip(0) =~= chars@);
        assert(out@ + drop_spaces(chars@) =~= drop_spaces(chars@));
    }
    while i < n
        invariant
            i <= n == chars@.len(),
            drop_spaces(chars@) == out@ + drop_spaces(chars@.skip(i as int)),
        decreases n - i,
    {
        proof {
            assert(chars@.skip(i as int).drop_first() =~= chars@.skip(i as int + 1));
        }
        if chars[i] == ' ' {
            i = i + 1;
        } else {
            proof {
                assert(out@ + (seq![chars@[i as int]] + drop_spaces(chars@.skip(i as int + 1)))
                    =~= out@.push(chars@[i as int]) + drop_spaces(chars@.skip(i as int + 1)));
            }
            out.push(chars[i]);
            i = i + 1;
        }
    }
    proof {
        assert(chars@.skip(n as int) =~= Seq::<char>::empty());
        assert(out@ + Seq::<char>::empty() =~= out@);
    }
    out
}

/// A price is valid exactly when, after stripping `lei` markers and
/// spaces, something remains and every remaining character is a digit or a
/// decimal point.
pub fn validate_price(price: &str) -> (r: bool)
    ensures
        r == is_valid_price(price@),
{
    let n: usize = price.unicode_len();
    let mut chars: Vec<char> = Vec::new();
    let mut i: usize = 0;
    while i < n
        invariant
            i <= n == price@.len(),
            chars@ == price@.take(i as int),
        decreases n - i,
    {
        chars.push(price.get_char(i));
        proof {
            assert(price@.take(i as int).push(price@[i as int]) =~= price@.take(i as int + 1));
        }
        i = i + 1;
    }
    proof {
        assert(price@.take(n as int) =~= price@);
    }
    let cleaned: Vec<char> = drop_spaces_exec(&remove_lei_exec(&chars));
    if cleaned.len() == 0 {
        return false;
    }
    let m: usize = cleaned.len();
    let mut k: usize = 0;
    while k < m
        invariant
            k <= m == cleaned@.len(),
            cleaned@ == drop_spaces(remove_lei(price@)),
            cleaned@.len() != 0,
            forall|t: int| 0 <= t < k ==> is_price_char(cleaned@[t]),
        decreases m - k,
    {
        let c: char = cleaned[k];
        if !(('0' <= c && c <= '9') || c == '.') {
            return false;
        }
        k = k + 1;
    }
    true
}

} // verus!
