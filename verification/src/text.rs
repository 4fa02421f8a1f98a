//! What the library needs of the standard library's strings: decoding of
//! bytes, trimming, replacing, and decimal digits. Each executable function
//! here carries the contract that the rest of the library relies on.

use vstd::prelude::*;
use vstd::utf8::{decode_utf8, valid_utf8};

verus! {

/// The text that lossy decoding makes of bytes that are not UTF-8: each
/// invalid sequence is replaced by U+FFFD.
pub uninterp spec fn utf8_lossy(bytes: Seq<u8>) -> Seq<char>;

/// The text of `bytes`, decoded where they are UTF-8 and with replacement
/// characters where they are not.
pub open spec fn lossy_text(bytes: Seq<u8>) -> Seq<char> {
    if valid_utf8(bytes) {
        decode_utf8(bytes)
    } else {
        utf8_lossy(bytes)
    }
}

/// Whether `c` has the Unicode property White_Space.
pub open spec fn is_whitespace(c: char) -> bool {
    let u = c as u32;
    ||| 0x09 <= u <= 0x0D
    ||| u == 0x20
    ||| u == 0x85
    ||| u == 0xA0
    ||| u == 0x1680
    ||| 0x2000 <= u <= 0x200A
    ||| u == 0x2028
    ||| u == 0x2029
    ||| u == 0x202F
    ||| u == 0x205F
    ||| u == 0x3000
}

/// `s` without its trailing whitespace.
pub open spec fn trimmed_end(s: Seq<char>) -> Seq<char>
    decreases s.len(),
{
    if s.len() > 0 && is_whitespace(s.last()) {
        trimmed_end(s.drop_last())
    } else {
        s
    }
}

/// `s` with each occurrence of the character `from` replaced by `to`.
pub open spec fn replaced(s: Seq<char>, from: char, to: Seq<char>) -> Seq<char>
    decreases s.len(),
{
    if s.len() == 0 {
        s
    } else if s.last() == from {
        replaced(s.drop_last(), from, to) + to
    } else {
        replaced(s.drop_last(), from, to).push(s.last())
    }
}

/// `s` without the characters `c` at its end, however many there are.
pub open spec fn without_all_trailing(s: Seq<char>, c: char) -> Seq<char>
    decreases s.len(),
{
    if s.len() > 0 && s.last() == c {
        without_all_trailing(s.drop_last(), c)
    } else {
        s
    }
}

/// `n` times the character `c`.
pub open spec fn repeated(c: char, n: nat) -> Seq<char> {
    Seq::new(n, |i: int| c)
}

/// A text is what is left without the characters `c` at its end, followed
/// by as many of `c` as were taken off.
pub proof fn lemma_all_trailing(s: Seq<char>, c: char)
    ensures
        without_all_trailing(s, c).len() <= s.len(),
        s == without_all_trailing(s, c) + repeated(
            c,
            (s.len() - without_all_trailing(s, c).len()) as nat,
        ),
    decreases s.len(),
{
    let w = without_all_trailing(s, c);
    if s.len() > 0 && s.last() == c {
        let front = s.drop_last();
        lemma_all_trailing(front, c);
        assert(w == without_all_trailing(front, c));
        let fewer = repeated(c, (front.len() - w.len()) as nat);
        let more = repeated(c, (s.len() - w.len()) as nat);
        assert(front == w + fewer);
        assert(more =~= fewer.push(c));
        assert(s =~= front.push(c));
        assert(s =~= w + more);
    } else {
        assert(w == s);
        assert(s =~= w + repeated(c, 0));
    }
}

/// `s` without its last character, if that is `c`.
pub open spec fn without_trailing(s: Seq<char>, c: char) -> Seq<char> {
    if s.len() > 0 && s.last() == c {
        s.drop_last()
    } else {
        s
    }
}

/// The decimal digit for `d`.
pub open spec fn digit(d: nat) -> char {
    (0x30 + d) as char
}

/// `n` in decimal digits, without leading zeros.
pub open spec fn decimal(n: nat) -> Seq<char>
    decreases n,
{
    if n < 10 {
        seq![digit(n)]
    } else {
        decimal(n / 10).push(digit(n % 10))
    }
}

/// `String::from_utf8_lossy`: valid UTF-8 is decoded as it stands; of
/// other bytes the result is the text named [`utf8_lossy`].
#[verifier::external_body]
pub(crate) fn from_utf8_lossy(bytes: &[u8]) -> (s: String)
    ensures
        valid_utf8(bytes@) ==> s@ == decode_utf8(bytes@),
        !valid_utf8(bytes@) ==> s@ == utf8_lossy(bytes@),
{
    String::from_utf8_lossy(bytes).into_owned()
}

/// `String::from_utf8`: succeeds exactly on valid UTF-8, with the decoded
/// text.
#[verifier::external_body]
pub(crate) fn from_utf8(bytes: Vec<u8>) -> (r: Option<String>)
    ensures
        match r {
            Some(s) => valid_utf8(bytes@) && s@ == decode_utf8(bytes@),
            None => !valid_utf8(bytes@),
        },
{
    String::from_utf8(bytes).ok()
}

/// `str::trim_end`: the slice without its trailing White_Space characters.
#[verifier::external_body]
pub(crate) fn trim_end<'a>(s: &'a str) -> (r: &'a str)
    ensures
        r@ == trimmed_end(s@),
{
    s.trim_end()
}

/// `str::trim_end_matches` with a character as the pattern: the slice
/// without the characters `c` at its end, however many there are.
#[verifier::external_body]
pub(crate) fn trim_end_matches<'a>(s: &'a str, c: char) -> (r: &'a str)
    ensures
        r@ == without_all_trailing(s@, c),
{
    s.trim_end_matches(c)
}

/// `str::replace` with a character as the pattern: every occurrence of
/// `from` gives way to `to`.
#[verifier::external_body]
pub(crate) fn replace(s: &str, from: char, to: &str) -> (r: String)
    ensures
        r@ == replaced(s@, from, to@),
{
    s.replace(from, to)
}

/// `str::strip_suffix` with a character as the pattern: the slice without
/// its last character where that is `c`, and nothing otherwise.
#[verifier::external_body]
pub(crate) fn strip_suffix<'a>(s: &'a str, c: char) -> (r: Option<&'a str>)
    ensures
        match r {
            Some(t) => s@.len() > 0 && s@.last() == c && t@ == s@.drop_last(),
            None => s@.len() == 0 || s@.last() != c,
        },
{
    s.strip_suffix(c)
}

/// `u8::to_string`: the decimal digits of `v`.
#[verifier::external_body]
pub(crate) fn to_decimal(v: u8) -> (r: String)
    ensures
        r@ == decimal(v as nat),
{
    v.to_string()
}

} // verus!
