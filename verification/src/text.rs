//! Building strings: appending characters, decoding UTF-8 bytes, and
//! decimal and hexadecimal numerals.
use vstd::prelude::*;
use vstd::utf8::{valid_utf8, decode_utf8};
use vstd::string::StrSliceExecFns;
use vstd::std_specs::iter::IteratorSpec;

verus! {

broadcast use vstd::string::group_string_axioms;

/// Appends one character to a string (`String::push`).
///
/// Trusted: the new string is the old one followed by `c`, as the
/// standard library documents.
#[verifier::external_body]
pub fn push_char(s: &mut String, c: char)
    ensures
        final(s)@ == old(s)@.push(c),
{
    s.push(c);
}

/// Decodes UTF-8 bytes into a string (`String::from_utf8`), `None` when the
/// bytes are not valid UTF-8.
///
/// Trusted: the standard library returns a string exactly when the bytes are
/// valid UTF-8 (shortest forms, no surrogates, nothing past U+10FFFF), and the
/// string's characters are the scalars the bytes encode.
#[verifier::external_body]
pub fn string_from_utf8(bytes: Vec<u8>) -> (r: Option<String>)
    ensures
        r is Some <==> valid_utf8(bytes@),
        r matches Some(t) ==> t@ == decode_utf8(bytes@),
{
    String::from_utf8(bytes).ok()
}

/// The characters of a text.
pub fn chars_of(text: &str) -> (r: Vec<char>)
    ensures
        r@ == text@,
{
    let mut r: Vec<char> = Vec::new();
    let mut it = text.chars();
    let ghost mut idx: int = 0;
    loop
        invariant
            0 <= idx <= text@.len(),
            it.remaining() == text@.skip(idx),
            r@ == text@.take(idx),
        ensures
            r@ == text@,
        decreases text@.len() - idx,
    {
        let ghost rest = it.remaining();
        match it.next() {
            None => {
                assert(text@.skip(idx).len() == 0);
                assert(text@.take(idx) =~= text@);
                break;
            },
            Some(c) => {
                r.push(c);
                proof {
                    assert(rest.drop_first() =~= text@.skip(idx + 1));
                    assert(text@.take(idx + 1) =~= text@.take(idx).push(c));
                    idx = idx + 1;
                }
            },
        }
    }
    r
}

/// The string of `chars[start .. start + n]`.
pub fn string_of(chars: &Vec<char>, start: usize, n: usize) -> (r: String)
    requires
        start + n <= chars@.len(),
    ensures
        r@ == chars@.subrange(start as int, start + n),
{
    let mut s = String::new();
    for k in 0..n
        invariant
            start + n <= chars@.len(),
            chars@.len() == chars.len(),
            s@ == chars@.subrange(start as int, start + k),
    {
        push_char(&mut s, chars[start + k]);
        assert(chars@.subrange(start as int, start + k + 1) =~= chars@.subrange(start as int, start + k).push(chars@[start + k]));
    }
    s
}

/// Whether two strings hold the same characters.
pub fn str_eq(a: &str, b: &str) -> (r: bool)
    ensures
        r == (a@ == b@),
{
    let n = a.unicode_len();
    if n != b.unicode_len() {
        return false;
    }
    for i in 0..n
        invariant
            n == a@.len(),
            n == b@.len(),
            forall|k: int| 0 <= k < i ==> a@[k] == b@[k],
    {
        if a.get_char(i) != b.get_char(i) {
            return false;
        }
    }
    assert(a@ =~= b@);
    true
}

/// The decimal digit character of `d` (0..=9).
pub open spec fn digit_char(d: nat) -> char {
    ('0' as u32 + d) as char
}

/// The decimal numeral of `n`, without leading zeros ("0" for zero).
pub open spec fn decimal(n: nat) -> Seq<char>
    decreases n,
{
    if n < 10 {
        seq![digit_char(n)]
    } else {
        decimal(n / 10).push(digit_char(n % 10))
    }
}

/// The lower-case hexadecimal digit character of `d` (0..=15).
pub open spec fn hex_digit_char(d: nat) -> char {
    if d < 10 {
        ('0' as u32 + d) as char
    } else {
        ('a' as u32 + d - 10) as char
    }
}

/// The 16-digit lower-case hexadecimal numeral of a word, most significant digit first.
pub open spec fn hex16(w: u64) -> Seq<char> {
    Seq::new(16, |i: int| hex_digit_char(((w as nat) / vstd::arithmetic::power2::pow2((4 * (15 - i)) as nat)) % 16))
}

/// The decimal character of a digit.
fn digit(d: u64) -> (c: char)
    requires
        d < 10,
    ensures
        c == digit_char(d as nat),
{
    let c = match d {
        0 => '0',
        1 => '1',
        2 => '2',
        3 => '3',
        4 => '4',
        5 => '5',
        6 => '6',
        7 => '7',
        8 => '8',
        _ => '9',
    };
    c
}

/// Appends the decimal numeral of `n`.
pub fn push_decimal(s: &mut String, n: u64)
    ensures
        final(s)@ == old(s)@ + decimal(n as nat),
    decreases n,
{
    if n < 10 {
        push_char(s, digit(n));
        assert(decimal(n as nat) =~= seq![digit_char(n as nat)]);
    } else {
        push_decimal(s, n / 10);
        push_char(s, digit(n % 10));
        assert(old(s)@ + decimal(n as nat) =~= old(s)@ + decimal((n / 10) as nat) + seq![digit_char((n % 10) as nat)]);
    }
}

/// The lower-case hexadecimal character of a digit.
fn hex_digit(d: u64) -> (c: char)
    requires
        d < 16,
    ensures
        c == hex_digit_char(d as nat),
{
    let c = match d {
        0 => '0',
        1 => '1',
        2 => '2',
        3 => '3',
        4 => '4',
        5 => '5',
        6 => '6',
        7 => '7',
        8 => '8',
        9 => '9',
        10 => 'a',
        11 => 'b',
        12 => 'c',
        13 => 'd',
        14 => 'e',
        _ => 'f',
    };
    c
}

/// Appends the 16-digit lower-case hexadecimal numeral of a word.
pub fn push_hex16(s: &mut String, w: u64)
    ensures
        final(s)@ == old(s)@ + hex16(w),
{
    let ghost start = s@;
    for i in 0..16u64
        invariant
            s@ == start + hex16(w).take(i as int),
    {
        let sh = 4 * (15 - i);
        let d = (w >> sh) & 0xf;
        proof {
            vstd::bits::lemma_u64_shr_is_div(w, sh);
            vstd::bits::lemma_u64_low_bits_mask_is_mod(w >> sh, 4);
            vstd::arithmetic::power2::lemma2_to64();
            assert(vstd::bits::low_bits_mask(4) == 0xf) by {
                vstd::bits::lemma_low_bits_mask_values();
            }
        }
        push_char(s, hex_digit(d));
        assert(hex16(w).take(i + 1) =~= hex16(w).take(i as int).push(hex16(w)[i as int]));
    }
    assert(hex16(w).take(16) =~= hex16(w));
}

} // verus!
