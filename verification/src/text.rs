//! Text as a sequence of characters, and where its characters stand among the
//! bytes of its UTF-8 encoding.

use vstd::prelude::*;
use vstd::utf8::*;

verus! {

/// `String::push`: adds a character to the end of the string.
pub assume_specification[ String::push ](s: &mut String, ch: char)
    ensures
        final(s)@ == old(s)@.push(ch),
;

/// The number of bytes that `text` takes in UTF-8.
pub open spec fn byte_len(text: Seq<char>) -> nat {
    encode_utf8(text).len()
}

/// The byte offset at which the character number `at` of `text` begins.
#[verifier::opaque]
pub open spec fn offset_of(text: Seq<char>, at: int) -> nat {
    byte_len(text.take(at))
}

/// The number of bytes that `ch` takes in UTF-8.
pub open spec fn width(ch: char) -> nat {
    encode_scalar(ch as u32).len()
}

/// The characters with the Unicode property White_Space.
pub open spec fn white_space(ch: char) -> bool {
    ||| '\u{9}' <= ch <= '\u{d}'
    ||| ch == ' '
    ||| ch == '\u{85}'
    ||| ch == '\u{a0}'
    ||| ch == '\u{1680}'
    ||| '\u{2000}' <= ch <= '\u{200a}'
    ||| ch == '\u{2028}'
    ||| ch == '\u{2029}'
    ||| ch == '\u{202f}'
    ||| ch == '\u{205f}'
    ||| ch == '\u{3000}'
}

/// Whether `ch` is white space in the sense of Unicode.
pub fn is_white_space(ch: char) -> (yes: bool)
    ensures
        yes == white_space(ch),
{
    ('\u{9}' <= ch && ch <= '\u{d}') || ch == ' ' || ch == '\u{85}' || ch == '\u{a0}' || ch
        == '\u{1680}' || ('\u{2000}' <= ch && ch <= '\u{200a}') || ch == '\u{2028}' || ch
        == '\u{2029}' || ch == '\u{202f}' || ch == '\u{205f}' || ch == '\u{3000}'
}

/// The number of bytes that `ch` takes in UTF-8.
pub fn char_width(ch: char) -> (n: usize)
    ensures
        n == width(ch),
        1 <= n <= 4,
{
    let code: u32 = ch as u32;
    if code < 0x80 {
        1
    } else if code < 0x800 {
        2
    } else if code < 0x10000 {
        3
    } else {
        4
    }
}

pub proof fn lemma_width(ch: char)
    ensures
        1 <= width(ch) <= 4,
{
}

pub proof fn lemma_encode_concat(a: Seq<char>, b: Seq<char>)
    ensures
        encode_utf8(a + b) == encode_utf8(a) + encode_utf8(b),
    decreases a.len(),
{
    if a.len() == 0 {
        assert(a + b =~= b);
        assert(encode_utf8(a) + encode_utf8(b) =~= encode_utf8(b));
    } else {
        assert((a + b).drop_first() =~= a.drop_first() + b);
        lemma_encode_concat(a.drop_first(), b);
        assert(encode_utf8(a + b) =~= encode_utf8(a) + encode_utf8(b));
    }
}

pub proof fn lemma_encode_injective(a: Seq<char>, b: Seq<char>)
    requires
        encode_utf8(a) == encode_utf8(b),
    ensures
        a == b,
{
    encode_utf8_decode_utf8(a);
    encode_utf8_decode_utf8(b);
}

pub proof fn lemma_encode_one(ch: char)
    ensures
        encode_utf8(seq![ch]) == encode_scalar(ch as u32),
{
    assert(seq![ch].drop_first() =~= Seq::<char>::empty());
    reveal_with_fuel(encode_utf8, 2);
    assert(encode_utf8(seq![ch]) =~= encode_scalar(ch as u32));
}

/// A text cut at any character has its byte length cut at that character's offset.
pub proof fn lemma_offset_split(text: Seq<char>, at: int)
    requires
        0 <= at <= text.len(),
    ensures
        offset_of(text, at) + byte_len(text.skip(at)) == byte_len(text),
{
    reveal(offset_of);
    assert(text =~= text.take(at) + text.skip(at));
    lemma_encode_concat(text.take(at), text.skip(at));
}

/// The byte offset of a character that lies beyond another.
pub proof fn lemma_offset_add(text: Seq<char>, at: int, n: int)
    requires
        0 <= at,
        0 <= n,
        at + n <= text.len(),
    ensures
        offset_of(text, at + n) == offset_of(text, at) + offset_of(text.skip(at), n),
{
    reveal(offset_of);
    assert(text.take(at + n) =~= text.take(at) + text.skip(at).take(n));
    lemma_encode_concat(text.take(at), text.skip(at).take(n));
}

pub proof fn lemma_offset_step(text: Seq<char>, at: int)
    requires
        0 <= at < text.len(),
    ensures
        offset_of(text, at + 1) == offset_of(text, at) + width(text[at]),
{
    reveal(offset_of);
    assert(text.take(at + 1) =~= text.take(at) + seq![text[at]]);
    lemma_encode_concat(text.take(at), seq![text[at]]);
    lemma_encode_one(text[at]);
}

/// Offsets grow by at least one byte for each character.
pub proof fn lemma_offset_grows(text: Seq<char>, i: int, j: int)
    requires
        0 <= i <= j <= text.len(),
    ensures
        offset_of(text, i) + (j - i) <= offset_of(text, j) <= byte_len(text),
    decreases j - i,
{
    if i < j {
        lemma_offset_grows(text, i, j - 1);
        lemma_offset_step(text, j - 1);
        lemma_width(text[j - 1]);
    }
    lemma_offset_split(text, j);
}

pub proof fn lemma_offset_zero(text: Seq<char>)
    ensures
        offset_of(text, 0) == 0,
{
    reveal(offset_of);
    assert(text.take(0) =~= Seq::<char>::empty());
}

/// Every character begins on a character boundary of the encoded text.
pub proof fn lemma_offset_boundary(text: Seq<char>, at: int)
    requires
        0 <= at <= text.len(),
    ensures
        is_char_boundary(encode_utf8(text), offset_of(text, at) as int),
    decreases at,
{
    reveal(offset_of);
    encode_utf8_valid_utf8(text);
    if at == 0 {
        lemma_offset_zero(text);
    } else {
        let bytes = encode_utf8(text);
        encode_utf8_first_scalar(text);
        assert(pop_first_scalar(bytes) =~= encode_utf8(text.drop_first()));
        lemma_offset_boundary(text.drop_first(), at - 1);
        assert(text.take(at).drop_first() =~= text.drop_first().take(at - 1));
        assert(text.take(at)[0] == text[0]);
        lemma_offset_grows(text, 0, at);
    }
}

/// Only the offsets of characters, and the end, are character boundaries.
pub proof fn lemma_boundary_offset(text: Seq<char>, offset: int) -> (at: int)
    requires
        is_char_boundary(encode_utf8(text), offset),
        0 <= offset <= byte_len(text),
    ensures
        0 <= at <= text.len(),
        offset == offset_of(text, at),
{
    reveal(offset_of);
    let bytes = encode_utf8(text);
    encode_utf8_valid_utf8(text);
    valid_utf8_split(bytes, offset);
    decode_utf8_split(bytes, offset);
    let head = bytes.subrange(0, offset);
    let tail = bytes.subrange(offset, bytes.len() as int);
    decode_utf8_encode_utf8(head);
    encode_utf8_decode_utf8(text);
    let at = decode_utf8(head).len() as int;
    assert(text.take(at) =~= decode_utf8(head));
    at
}

/// Cuts `s` into its first `k` characters and the rest, at the byte offset `mid`.
pub(crate) fn split_text<'a>(s: &'a str, mid: usize, Ghost(k): Ghost<int>) -> (r: (
    &'a str,
    &'a str,
))
    requires
        0 <= k <= s@.len(),
        mid == offset_of(s@, k),
    ensures
        r.0@ == s@.take(k),
        r.1@ == s@.skip(k),
{
    proof {
        reveal(offset_of);
        lemma_offset_boundary(s@, k);
        assert(s@ =~= s@.take(k) + s@.skip(k));
        lemma_encode_concat(s@.take(k), s@.skip(k));
    }
    let r = s.split_at(mid);
    proof {
        assert(encode_utf8(r.0@) =~= encode_utf8(s@.take(k)));
        assert(encode_utf8(r.1@) =~= encode_utf8(s@.skip(k)));
        lemma_encode_injective(r.0@, s@.take(k));
        lemma_encode_injective(r.1@, s@.skip(k));
    }
    r
}

/// The first character of `s`.
pub(crate) fn first_char(s: &str) -> (r: Option<char>)
    ensures
        r == (if s@.len() == 0 { None } else { Some(s@[0]) }),
{
    s.chars().next()
}

/// Whether two texts are the same.
pub fn same_text(a: &str, b: &str) -> (yes: bool)
    ensures
        yes == (a@ == b@),
{
    let x = a.as_bytes();
    let y = b.as_bytes();
    if x.len() != y.len() {
        return false;
    }
    let mut i: usize = 0;
    while i < x.len()
        invariant
            x@ == encode_utf8(a@),
            y@ == encode_utf8(b@),
            x@.len() == y@.len(),
            i <= x@.len(),
            forall|j: int| 0 <= j < i ==> x@[j] == y@[j],
        decreases x@.len() - i,
    {
        if x[i] != y[i] {
            return false;
        }
        i += 1;
    }
    proof {
        assert(x@ =~= y@);
        lemma_encode_injective(a@, b@);
    }
    true
}

/// Whether `ch` is one of `chars`.
pub fn one_of(chars: &[char], ch: char) -> (yes: bool)
    ensures
        yes == chars@.contains(ch),
{
    let mut i: usize = 0;
    while i < chars.len()
        invariant
            i <= chars@.len(),
            forall|j: int| 0 <= j < i ==> chars@[j] != ch,
        decreases chars@.len() - i,
    {
        if chars[i] == ch {
            return true;
        }
        i += 1;
    }
    false
}

/// Whether `ch` is one of the characters of `s`.
pub fn has_char(s: &str, ch: char) -> (yes: bool)
    ensures
        yes == s@.contains(ch),
{
    let mut rest = s;
    let ghost mut k: int = 0;
    loop
        invariant
            0 <= k <= s@.len(),
            rest@ == s@.skip(k),
            forall|j: int| 0 <= j < k ==> s@[j] != ch,
        decreases s@.len() - k,
    {
        match first_char(rest) {
            None => {
                return false;
            },
            Some(c) => {
                proof {
                    assert(s@[k] == c);
                    lemma_offset_zero(rest@);
                    lemma_offset_step(rest@, 0);
                    assert(s@.skip(k).skip(1) =~= s@.skip(k + 1));
                }
                if c == ch {
                    return true;
                }
                rest = split_text(rest, char_width(c), Ghost(1int)).1;
                proof {
                    k = k + 1;
                }
            },
        }
    }
}

/// The decimal digit `d`.
pub open spec fn digit(d: nat) -> char {
    ('0' as nat + d) as char
}

/// The decimal digits of `n`, without zeros before them.
pub open spec fn decimal(n: nat) -> Seq<char>
    decreases n,
{
    if n < 10 {
        seq![digit(n)]
    } else {
        decimal(n / 10).push(digit(n % 10))
    }
}

/// Writes `n` to `out` in decimal digits.
pub(crate) fn write_decimal(n: usize, out: &mut String)
    ensures
        final(out)@ == old(out)@ + decimal(n as nat),
    decreases n,
{
    let ghost before = out@;
    if n >= 10 {
        write_decimal(n / 10, out);
    }
    out.push((48 + (n % 10) as u8) as char);
    proof {
        assert(out@ =~= before + decimal(n as nat));
    }
}

} // verus!
