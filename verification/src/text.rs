//! Text building blocks for equation rendering: character-sequence
//! concatenation, decimal rendering of totals, zero padding, lexicographic
//! ordering of keys, and the punctuation substitution that turns a full
//! equation into its sortable key.

use vstd::prelude::*;

verus! {

/// Relies on `String: FromIterator<char>` (`collect`): the collected string
/// holds exactly the characters of the vector, in order.
#[verifier::external_body]
pub fn chars_to_string(v: &Vec<char>) -> (r: String)
    ensures
        r@ == v@,
{
    v.iter().collect()
}

/// Relies on `str::chars` (through `collect`): the vector holds exactly the
/// characters of the string, in order.
#[verifier::external_body]
pub fn string_to_chars(s: &str) -> (r: Vec<char>)
    ensures
        r@ == s@,
{
    s.chars().collect()
}

/// Appends every character of `src` to `dst`.
pub fn push_chars(dst: &mut Vec<char>, src: &Vec<char>)
    ensures
        final(dst)@ == old(dst)@ + src@,
{
    let mut i: usize = 0;
    while i < src.len()
        invariant
            i <= src@.len(),
            dst@ == old(dst)@ + src@.take(i as int),
        decreases src@.len() - i,
    {
        dst.push(src[i]);
        proof {
            assert(src@.take(i + 1 as int) =~= src@.take(i as int).push(src@[i as int]));
        }
        i = i + 1;
    }
    proof {
        assert(src@.take(src@.len() as int) =~= src@);
    }
}

/// True when the two vectors hold the same characters.
pub fn chars_eq(a: &Vec<char>, b: &Vec<char>) -> (r: bool)
    ensures
        r == (a@ == b@),
{
    if a.len() != b.len() {
        proof {
            assert(a@ != b@) by {
                assert(a@.len() != b@.len());
            }
        }
        return false;
    }
    let mut i: usize = 0;
    while i < a.len()
        invariant
            i <= a@.len(),
            a@.len() == b@.len(),
            forall|j: int| 0 <= j < i ==> a@[j] == b@[j],
        decreases a@.len() - i,
    {
        if a[i] != b[i] {
            return false;
        }
        i = i + 1;
    }
    proof {
        assert(a@ =~= b@);
    }
    true
}

/// The decimal digit character for a value below ten.
pub open spec fn digit_char(d: int) -> char {
    if d == 0 {
        '0'
    } else if d == 1 {
        '1'
    } else if d == 2 {
        '2'
    } else if d == 3 {
        '3'
    } else if d == 4 {
        '4'
    } else if d == 5 {
        '5'
    } else if d == 6 {
        '6'
    } else if d == 7 {
        '7'
    } else if d == 8 {
        '8'
    } else {
        '9'
    }
}

/// The decimal rendering of a non-negative integer, most significant digit
/// first, with no leading zeros (`0` renders as `"0"`).
pub open spec fn dec_digits(n: int) -> Seq<char>
    decreases n,
{
    if n < 10 {
        seq![digit_char(n)]
    } else {
        dec_digits(n / 10).push(digit_char(n % 10))
    }
}

/// Renders a total in decimal.
pub fn u64_to_digits(n: u64) -> (r: Vec<char>)
    ensures
        r@ == dec_digits(n as int),
    decreases n,
{
    let d: u64 = n % 10;
    let c: char = if d == 0 {
        '0'
    } else if d == 1 {
        '1'
    } else if d == 2 {
        '2'
    } else if d == 3 {
        '3'
    } else if d == 4 {
        '4'
    } else if d == 5 {
        '5'
    } else if d == 6 {
        '6'
    } else if d == 7 {
        '7'
    } else if d == 8 {
        '8'
    } else {
        '9'
    };
    if n < 10 {
        let mut v: Vec<char> = Vec::new();
        v.push(c);
        proof {
            assert(v@ =~= seq![digit_char(n as int)]);
        }
        v
    } else {
        let mut v = u64_to_digits(n / 10);
        v.push(c);
        v
    }
}

/// A run of `k` zero characters.
pub open spec fn zeros(k: int) -> Seq<char>
    decreases k,
{
    if k <= 0 {
        Seq::empty()
    } else {
        zeros(k - 1).push('0')
    }
}

/// `s` left-padded with zeros to at least four characters, as the reference
/// pipeline pads a total before building the sortable key.
pub open spec fn pad4(s: Seq<char>) -> Seq<char> {
    zeros(4 - s.len()) + s
}

/// Left-pads the digits of a total with zeros to at least four characters.
pub fn pad4_digits(s: &Vec<char>) -> (r: Vec<char>)
    ensures
        r@ == pad4(s@),
{
    let mut v: Vec<char> = Vec::new();
    let needed: usize = if s.len() >= 4 {
        0
    } else {
        4 - s.len()
    };
    let mut i: usize = 0;
    while i < needed
        invariant
            i <= needed,
            v@ == zeros(i as int),
        decreases needed - i,
    {
        v.push('0');
        i = i + 1;
    }
    proof {
        assert(v@ == zeros(4 - s@.len()));
    }
    push_chars(&mut v, s);
    v
}

/// Lexicographic order on character sequences by code point, the order in
/// which the final results are sorted. It agrees with byte-wise order on the
/// UTF-8 encodings, since UTF-8 preserves code-point order.
pub open spec fn lex_le(a: Seq<char>, b: Seq<char>) -> bool
    decreases a.len(),
{
    if a.len() == 0 {
        true
    } else if b.len() == 0 {
        false
    } else if (a[0] as u32) != (b[0] as u32) {
        (a[0] as u32) < (b[0] as u32)
    } else {
        lex_le(a.drop_first(), b.drop_first())
    }
}

/// Compares two keys lexicographically.
pub fn lex_le_chars(a: &Vec<char>, b: &Vec<char>) -> (r: bool)
    ensures
        r == lex_le(a@, b@),
{
    let mut i: usize = 0;
    proof {
        assert(a@.skip(0) =~= a@);
        assert(b@.skip(0) =~= b@);
    }
    while i < a.len() && i < b.len()
        invariant
            i <= a@.len(),
            i <= b@.len(),
            lex_le(a@, b@) == lex_le(a@.skip(i as int), b@.skip(i as int)),
        decreases a@.len() - i,
    {
        let x = a[i];
        let y = b[i];
        proof {
            assert(a@.skip(i as int)[0] == a@[i as int]);
            assert(b@.skip(i as int)[0] == b@[i as int]);
            assert(a@.skip(i as int).drop_first() =~= a@.skip(i + 1));
            assert(b@.skip(i as int).drop_first() =~= b@.skip(i + 1));
        }
        let xc = #[verifier::truncate] (x as u32);
        let yc = #[verifier::truncate] (y as u32);
        if xc != yc {
            return xc < yc;
        }
        i = i + 1;
    }
    proof {
        if i >= a.len() {
            assert(a@.skip(i as int).len() == 0);
        } else {
            assert(b@.skip(i as int).len() == 0);
            assert(a@.skip(i as int).len() > 0);
        }
    }
    i >= a.len()
}

/// The punctuation substitution applied to a full equation to obtain its
/// sortable key: `(` becomes `X`, `)` becomes `Y`, `=` becomes `Z`.
pub open spec fn sortable_char(c: char) -> char {
    if c == '(' {
        'X'
    } else if c == ')' {
        'Y'
    } else if c == '=' {
        'Z'
    } else {
        c
    }
}

/// The sortable key of a full equation.
pub open spec fn sortable_of(s: Seq<char>) -> Seq<char> {
    s.map_values(|c: char| sortable_char(c))
}

/// Applies the sortable-key substitution to a character vector.
pub fn sortable_chars(s: &Vec<char>) -> (r: Vec<char>)
    ensures
        r@ == sortable_of(s@),
{
    let mut v: Vec<char> = Vec::new();
    let mut i: usize = 0;
    while i < s.len()
        invariant
            i <= s@.len(),
            v@ == s@.take(i as int).map_values(|c: char| sortable_char(c)),
        decreases s@.len() - i,
    {
        let c = s[i];
        let mapped: char = if c == '(' {
            'X'
        } else if c == ')' {
            'Y'
        } else if c == '=' {
            'Z'
        } else {
            c
        };
        v.push(mapped);
        proof {
            assert(s@.take(i + 1 as int).map_values(|c: char| sortable_char(c)) =~= s@.take(
                i as int,
            ).map_values(|c: char| sortable_char(c)).push(sortable_char(s@[i as int])));
        }
        i = i + 1;
    }
    proof {
        assert(s@.take(s@.len() as int) =~= s@);
    }
    v
}

/// Replaces every `(` with `X`, every `)` with `Y`, and every `=` with `Z`,
/// producing the key under which results are sorted.
pub fn get_sortable_equation(full_equation: &String) -> (r: String)
    ensures
        r@ == sortable_of(full_equation@),
{
    let chars = string_to_chars(full_equation.as_str());
    let mapped = sortable_chars(&chars);
    chars_to_string(&mapped)
}

} // verus!
