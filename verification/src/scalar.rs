//! Scalars: quoted scalars with their escape sequences, and plain scalars.

use vstd::prelude::*;
use vstd::slice::slice_subrange;
use vstd::utf8::{decode_utf8, encode_scalar, is_scalar, valid_utf8};
use crate::grammar::{
    escape, hex_value, is_plain_stop, is_reserved_start, plain_end, plain_scalar as plain_scalar_at,
    quoted_body, quoted_scalar, scalar as scalar_at, simple_escape, text_of, unicode_escape,
    BACKSLASH, CARRIAGE_RETURN, COLON, DASH, DELETE, HASH, LINE_FEED, QUOTE, SPACE, TAB,
};
use crate::lexical::spaces;

verus! {

/// True when an executable result, a text and a position or none, is the
/// given model result.
pub open spec fn is_text_end(r: Option<(String, usize)>, model: Option<(Seq<char>, int)>) -> bool {
    match r {
        Some((t, q)) => model == Some((t@, q as int)),
        None => model is None,
    }
}

/// `std::str::from_utf8`: the bytes as text where they are well-formed
/// UTF-8, in which case the text is their decoding, and nothing where they
/// are not.
#[verifier::external_body]
fn str_from_utf8(bytes: &[u8]) -> (r: Option<&str>)
    ensures
        r is Some <==> valid_utf8(bytes@),
        r matches Some(t) ==> t@ == decode_utf8(bytes@),
{
    match std::str::from_utf8(bytes) {
        Ok(t) => Some(t),
        Err(_) => None,
    }
}

/// The text of a run of bytes, where they are well-formed UTF-8.
pub fn decode_text(bytes: &[u8]) -> (r: Option<String>)
    ensures
        match r {
            Some(t) => text_of(bytes@) == Some(t@),
            None => text_of(bytes@) is None,
        },
{
    match str_from_utf8(bytes) {
        Some(t) => Some(t.to_owned()),
        None => None,
    }
}

/// True when no plain scalar begins with the byte.
pub fn reserved_start(b: u8) -> (r: bool)
    ensures
        r == is_reserved_start(b),
{
    b == CARRIAGE_RETURN || b == LINE_FEED || b == TAB || b == SPACE || b == 0x3f || b == COLON
        || b == 0x2c || b == 0x5d || b == 0x5b || b == 0x7b || b == 0x7d || b == HASH || b == 0x26
        || b == 0x2a || b == 0x21 || b == 0x7c || b == 0x3e || b == 0x27 || b == QUOTE || b == 0x25
        || b == 0x40 || b == 0x60 || b == DASH
}

/// True when a plain scalar stops at the byte.
pub fn plain_stop(b: u8) -> (r: bool)
    ensures
        r == is_plain_stop(b),
{
    b == CARRIAGE_RETURN || b == LINE_FEED || b == TAB || b == SPACE || b == 0x2c || b == 0x5d
        || b == 0x5b || b == 0x7b || b == 0x7d || b == COLON || b == HASH || b == QUOTE || b
        == 0x27
}

/// Recognises a plain scalar at `pos`.
pub fn plain_scalar(input: &[u8], pos: usize) -> (r: Option<(String, usize)>)
    ensures
        is_text_end(r, plain_scalar_at(input@, pos as int)),
        r matches Some((_, q)) ==> pos < q <= input.len(),
{
    if pos >= input.len() || reserved_start(input[pos]) {
        return None;
    }
    let mut end: usize = pos + 1;
    loop
        invariant
            pos < end <= input.len(),
            plain_end(input@, pos + 1) == plain_end(input@, end as int),
        ensures
            pos < end <= input.len(),
            end == plain_end(input@, pos + 1),
        decreases input.len() - end,
    {
        let w = spaces(input, end);
        if w < input.len() && !plain_stop(input[w]) {
            end = w + 1;
        } else {
            break ;
        }
    }
    match decode_text(slice_subrange(input, pos, end)) {
        Some(t) => Some((t, end)),
        None => None,
    }
}

/// The value of a hexadecimal digit.
pub fn hex_digit(b: u8) -> (r: Option<u32>)
    ensures
        r == hex_value(b),
        r matches Some(v) ==> v < 16,
{
    if 0x30 <= b && b <= 0x39 {
        Some((b - 0x30) as u32)
    } else if 0x41 <= b && b <= 0x46 {
        Some((b - 0x41 + 10) as u32)
    } else if 0x61 <= b && b <= 0x66 {
        Some((b - 0x61 + 10) as u32)
    } else {
        None
    }
}

/// Reads the four hexadecimal digits of a `\u` escape at `pos` and yields
/// the Unicode scalar value they spell, if they spell one.
pub fn unicode_escape_digits(input: &[u8], pos: usize) -> (r: Option<u32>)
    ensures
        r == unicode_escape(input@, pos as int),
        r matches Some(v) ==> is_scalar(v) && v <= 0xFFFF,
{
    if pos > input.len() || input.len() - pos < 4 {
        return None;
    }
    let a = match hex_digit(input[pos]) {
        Some(v) => v,
        None => {
            return None;
        },
    };
    let b = match hex_digit(input[pos + 1]) {
        Some(v) => v,
        None => {
            return None;
        },
    };
    let c = match hex_digit(input[pos + 2]) {
        Some(v) => v,
        None => {
            return None;
        },
    };
    let d = match hex_digit(input[pos + 3]) {
        Some(v) => v,
        None => {
            return None;
        },
    };
    let v: u32 = ((a * 16 + b) * 16 + c) * 16 + d;
    if 0xD800 <= v && v <= 0xDFFF {
        None
    } else {
        Some(v)
    }
}

/// The byte that a one-letter escape stands for, by the letter that
/// follows the backslash.
pub fn escape_letter(b: u8) -> (r: Option<u8>)
    ensures
        r == simple_escape(b),
        r matches Some(c) ==> c <= 0x7f,
{
    if b == QUOTE {
        Some(QUOTE)
    } else if b == BACKSLASH {
        Some(BACKSLASH)
    } else if b == 0x2f {
        Some(0x2f)
    } else if b == 0x6e {
        Some(LINE_FEED)
    } else if b == 0x72 {
        Some(CARRIAGE_RETURN)
    } else if b == 0x74 {
        Some(TAB)
    } else if b == 0x62 {
        Some(0x08)
    } else if b == 0x66 {
        Some(0x0c)
    } else {
        None
    }
}

/// Appends the UTF-8 encoding of a Unicode scalar value of at most sixteen
/// bits, which is what an escape sequence can stand for.
fn push_utf8(out: &mut Vec<u8>, v: u32)
    requires
        is_scalar(v),
        v <= 0xFFFF,
    ensures
        final(out)@ == old(out)@ + encode_scalar(v),
{
    if v <= 0x7f {
        out.push((v & 0x7f) as u8);
    } else if v <= 0x7ff {
        out.push(0xC0 | ((v >> 6) & 0x1F) as u8);
        out.push(0x80 | (v & 0x3F) as u8);
    } else {
        out.push(0xE0 | ((v >> 12) & 0x0F) as u8);
        out.push(0x80 | ((v >> 6) & 0x3F) as u8);
        out.push(0x80 | (v & 0x3F) as u8);
    }
    assert(out@ =~= old(out)@ + encode_scalar(v));
}

/// Recognises what follows a backslash at `pos` and yields the Unicode
/// scalar value that the escape stands for, with the position after it.
pub fn escape_sequence(input: &[u8], pos: usize) -> (r: Option<(u32, usize)>)
    ensures
        match r {
            Some((v, q)) => escape(input@, pos as int) == Some((v, q as int)),
            None => escape(input@, pos as int) is None,
        },
        r matches Some((v, q)) ==> is_scalar(v) && v <= 0xFFFF && pos < q <= input.len(),
{
    if pos >= input.len() {
        return None;
    }
    match escape_letter(input[pos]) {
        Some(c) => Some((c as u32, pos + 1)),
        None => {
            if input[pos] == 0x75 {
                match unicode_escape_digits(input, pos + 1) {
                    Some(v) => Some((v, pos + 5)),
                    None => None,
                }
            } else {
                None
            }
        },
    }
}

/// Decodes the body of a quoted scalar from `pos`: yields the decoded bytes
/// and the position of the byte at which the body stops.
pub fn double_quoted_scalar_text(input: &[u8], pos: usize) -> (r: (Vec<u8>, usize))
    ensures
        (r.0@, r.1 as int) == quoted_body(input@, pos as int, Seq::empty()),
        pos <= r.1,
        pos <= input.len() ==> r.1 <= input.len(),
{
    let mut out: Vec<u8> = Vec::new();
    if pos >= input.len() {
        return (out, pos);
    }
    let mut i: usize = pos;
    loop
        invariant
            pos <= i <= input.len(),
            quoted_body(input@, pos as int, Seq::empty()) == quoted_body(input@, i as int, out@),
        ensures
            pos <= i <= input.len(),
            (out@, i as int) == quoted_body(input@, pos as int, Seq::empty()),
        decreases input.len() - i,
    {
        if i >= input.len() {
            break ;
        }
        let b = input[i];
        if b == BACKSLASH {
            match escape_sequence(input, i + 1) {
                Some((v, q)) => {
                    push_utf8(&mut out, v);
                    i = q;
                },
                None => {
                    break ;
                },
            }
        } else if b == QUOTE || b == DELETE {
            break ;
        } else {
            out.push(b);
            i += 1;
        }
    }
    (out, i)
}

/// Recognises a quoted scalar at `pos` and decodes its escape sequences.
pub fn double_quoted_scalar(input: &[u8], pos: usize) -> (r: Option<(String, usize)>)
    ensures
        is_text_end(r, quoted_scalar(input@, pos as int)),
        r matches Some((_, q)) ==> pos < q <= input.len(),
{
    if pos >= input.len() || input[pos] != QUOTE {
        return None;
    }
    let (bytes, end) = double_quoted_scalar_text(input, pos + 1);
    if end >= input.len() || input[end] != QUOTE {
        return None;
    }
    match decode_text(bytes.as_slice()) {
        Some(t) => Some((t, end + 1)),
        None => None,
    }
}

/// Recognises a scalar at `pos`: a quoted scalar, or else a plain one.
pub fn scalar(input: &[u8], pos: usize) -> (r: Option<(String, usize)>)
    ensures
        is_text_end(r, scalar_at(input@, pos as int)),
        r matches Some((_, q)) ==> pos < q <= input.len(),
{
    match double_quoted_scalar(input, pos) {
        Some(r) => Some(r),
        None => plain_scalar(input, pos),
    }
}

} // verus!
