//! Character classes of the env-file grammar.
//!
//! Declaration names are made of letters, digits and underscores; values end
//! at whitespace. Below `0x80` the classes are spelled out; beyond that they
//! defer to the Unicode properties that `std`'s `char` methods implement.

use vstd::prelude::*;

verus! {

/// Whether a character above the ASCII range has the Unicode `Alphabetic`
/// property, as decided by `char::is_alphabetic`.
pub uninterp spec fn wide_alphabetic(c: char) -> bool;

/// Whether a character above the ASCII range is alphanumeric,
/// as decided by `char::is_alphanumeric`.
pub uninterp spec fn wide_alphanumeric(c: char) -> bool;

/// Whether a character above the ASCII range has the Unicode `White_Space`
/// property, as decided by `char::is_whitespace`.
pub uninterp spec fn wide_whitespace(c: char) -> bool;

/// A letter: ASCII `A`-`Z` or `a`-`z`, or a non-ASCII alphabetic character.
pub open spec fn alpha_char(c: char) -> bool {
    if (c as u32) < 0x80 {
        (0x41 <= c as u32 && c as u32 <= 0x5a) || (0x61 <= c as u32 && c as u32 <= 0x7a)
    } else {
        wide_alphabetic(c)
    }
}

/// A letter or digit: ASCII `0`-`9` added to the letters.
pub open spec fn alnum_char(c: char) -> bool {
    if (c as u32) < 0x80 {
        (0x41 <= c as u32 && c as u32 <= 0x5a) || (0x61 <= c as u32 && c as u32 <= 0x7a)
            || (0x30 <= c as u32 && c as u32 <= 0x39)
    } else {
        wide_alphanumeric(c)
    }
}

/// Whitespace: ASCII space, tab, line feed, vertical tab, form feed and
/// carriage return, or a non-ASCII white-space character.
pub open spec fn ws_char(c: char) -> bool {
    if (c as u32) < 0x80 {
        c as u32 == 0x20 || (0x09 <= c as u32 && c as u32 <= 0x0d)
    } else {
        wide_whitespace(c)
    }
}

/// A character that may start a declaration name.
pub open spec fn name_start_char(c: char) -> bool {
    c == '_' || alpha_char(c)
}

/// A character that may continue a declaration name.
pub open spec fn name_char(c: char) -> bool {
    c == '_' || alnum_char(c)
}

/// Relies on `char::is_alphabetic`: ASCII letters are the only alphabetic
/// characters below `0x80`; elsewhere the Unicode `Alphabetic` property
/// decides, which depends on the character alone.
#[verifier::external_body]
pub(crate) fn is_alpha(c: char) -> (r: bool)
    ensures
        r == alpha_char(c),
        (c as u32) >= 0x80 ==> r == wide_alphabetic(c),
{
    c.is_alphabetic()
}

/// Relies on `char::is_alphanumeric`: ASCII letters and digits are the only
/// alphanumeric characters below `0x80`; elsewhere the Unicode properties
/// decide, which depend on the character alone.
#[verifier::external_body]
pub(crate) fn is_alnum(c: char) -> (r: bool)
    ensures
        r == alnum_char(c),
        (c as u32) >= 0x80 ==> r == wide_alphanumeric(c),
{
    c.is_alphanumeric()
}

/// Relies on `char::is_whitespace`: space, tab, line feed, vertical tab,
/// form feed and carriage return are the only white-space characters below
/// `0x80`; elsewhere the Unicode `White_Space` property decides, which
/// depends on the character alone.
#[verifier::external_body]
pub(crate) fn is_ws(c: char) -> (r: bool)
    ensures
        r == ws_char(c),
        (c as u32) >= 0x80 ==> r == wide_whitespace(c),
{
    c.is_whitespace()
}

/// Relies on `String`'s `FromIterator<char>` impl: collecting characters
/// concatenates them in order.
#[verifier::external_body]
pub(crate) fn chars_to_string(v: &Vec<char>) -> (r: String)
    ensures
        r@ == v@,
{
    v.iter().collect()
}

/// Whether two string slices hold the same characters.
pub fn str_eq(a: &str, b: &str) -> (r: bool)
    ensures
        r == (a@ == b@),
{
    let na = a.unicode_len();
    let nb = b.unicode_len();
    if na != nb {
        proof {
            assert(a@ != b@) by {
                if a@ == b@ {
                    assert(a@.len() == b@.len());
                }
            }
        }
        return false;
    }
    let mut i: usize = 0;
    while i < na
        invariant
            na == a@.len(),
            na == b@.len(),
            i <= na,
            forall|j: int| 0 <= j < i ==> a@[j] == b@[j],
        decreases na - i,
    {
        if a.get_char(i) != b.get_char(i) {
            return false;
        }
        i = i + 1;
    }
    proof {
        assert(a@ =~= b@);
    }
    true
}

/// `s` with every trailing white-space character removed.
pub open spec fn trim_trailing_ws_spec(s: Seq<char>) -> Seq<char>
    decreases s.len(),
{
    if s.len() > 0 && ws_char(s.last()) {
        trim_trailing_ws_spec(s.drop_last())
    } else {
        s
    }
}

/// The characters of `s` as a vector.
pub fn str_chars(s: &str) -> (r: Vec<char>)
    ensures
        r@ == s@,
{
    let n = s.unicode_len();
    let mut r: Vec<char> = Vec::new();
    let mut i: usize = 0;
    while i < n
        invariant
            n == s@.len(),
            i <= n,
            r@ == s@.take(i as int),
        decreases n - i,
    {
        r.push(s.get_char(i));
        i = i + 1;
        proof {
            assert(s@.take(i as int) =~= s@.take(i - 1).push(s@[i - 1]));
        }
    }
    proof {
        assert(s@.take(n as int) =~= s@);
    }
    r
}

/// Strips trailing whitespace from an answer line, as the update workflow
/// does before recording it.
pub fn trim_trailing_whitespace(s: &str) -> (r: String)
    ensures
        r@ == trim_trailing_ws_spec(s@),
{
    let mut v = str_chars(s);
    while v.len() > 0 && is_ws(v[v.len() - 1])
        invariant
            trim_trailing_ws_spec(v@) == trim_trailing_ws_spec(s@),
        decreases v.len(),
    {
        let ghost before = v@;
        v.pop();
        proof {
            assert(v@ =~= before.drop_last());
        }
    }
    chars_to_string(&v)
}

} // verus!
