//! Input that is text: where the whole input is well-formed UTF-8, a scalar
//! matches wherever its bytes say so. That a scalar's text must be
//! well-formed UTF-8 then rules nothing out.

use vstd::prelude::*;
use vstd::utf8::{
    decode_first_scalar, encode_scalar, encode_utf8, encode_utf8_valid_utf8, is_char_boundary,
    is_char_boundary_iff_not_is_continuation_byte, is_char_boundary_start_end_of_seq,
    is_continuation_byte, is_scalar, length_of_first_scalar, pop_first_scalar,
    valid_first_scalar, valid_utf8, valid_utf8_concat, valid_utf8_split,
};
use crate::grammar::{
    escape, is_plain_stop, is_reserved_start, lemma_plain_end_bounds, lemma_spaces_end_bounds,
    plain_end, plain_scalar, quoted_body, quoted_scalar, scalar, spaces_end, BACKSLASH, DELETE,
    QUOTE, SPACE,
};
use crate::laws::{is_body_byte, lemma_quoted_body_plain_stretch};

verus! {

/// In well-formed UTF-8 a continuation byte follows a byte that is not
/// ASCII.
pub proof fn lemma_continuation_follows_non_ascii(s: Seq<u8>, i: int)
    requires
        valid_utf8(s),
        0 < i < s.len(),
        is_continuation_byte(s[i]),
    ensures
        s[i - 1] >= 0x80,
    decreases s.len(),
{
    let len = length_of_first_scalar(s);
    assert(valid_first_scalar(s) && valid_utf8(pop_first_scalar(s)));
    if i < len {
    } else {
        let rest = pop_first_scalar(s);
        assert(rest.len() == s.len() - len);
        assert(rest[i - len] == s[i]);
        if i == len {
            assert(valid_first_scalar(rest));
        } else {
            assert(rest[i - len - 1] == s[i - 1]);
            lemma_continuation_follows_non_ascii(rest, i - len);
        }
    }
}

/// True when `p` is the start of the input or follows an ASCII byte.
pub open spec fn follows_ascii(s: Seq<u8>, p: int) -> bool {
    p == 0 || (0 < p <= s.len() && s[p - 1] <= 0x7f)
}

/// In well-formed UTF-8 a character begins, or the input ends, after every
/// ASCII byte.
pub proof fn lemma_boundary_after_ascii(s: Seq<u8>, p: int)
    requires
        valid_utf8(s),
        follows_ascii(s, p),
    ensures
        is_char_boundary(s, p),
{
    is_char_boundary_start_end_of_seq(s);
    if 0 < p < s.len() {
        is_char_boundary_iff_not_is_continuation_byte(s, p);
        if is_continuation_byte(s[p]) {
            lemma_continuation_follows_non_ascii(s, p);
        }
    }
}

/// In well-formed UTF-8 a character begins at every ASCII byte, and the
/// end of the input ends a character.
pub proof fn lemma_boundary_at_ascii(s: Seq<u8>, p: int)
    requires
        valid_utf8(s),
        0 <= p <= s.len(),
        p == s.len() || s[p] <= 0x7f,
    ensures
        is_char_boundary(s, p),
{
    is_char_boundary_start_end_of_seq(s);
    if p < s.len() {
        is_char_boundary_iff_not_is_continuation_byte(s, p);
    }
}

/// What lies between two character boundaries of well-formed UTF-8 is
/// well-formed UTF-8.
pub proof fn lemma_valid_between(s: Seq<u8>, a: int, b: int)
    requires
        valid_utf8(s),
        0 <= a <= b <= s.len(),
        is_char_boundary(s, a),
        is_char_boundary(s, b),
    ensures
        valid_utf8(s.subrange(a, b)),
{
    valid_utf8_split(s, b);
    let head = s.subrange(0, b);
    is_char_boundary_start_end_of_seq(head);
    if a < b {
        is_char_boundary_iff_not_is_continuation_byte(s, a);
        assert(head[a] == s[a]);
        is_char_boundary_iff_not_is_continuation_byte(head, a);
    }
    valid_utf8_split(head, a);
    assert(head.subrange(a, head.len() as int) =~= s.subrange(a, b));
}

/// A plain scalar ends at the end of the input or before an ASCII byte.
pub proof fn lemma_plain_end_at_ascii(s: Seq<u8>, q: int)
    requires
        0 <= q <= s.len(),
    ensures
        plain_end(s, q) == s.len() || s[plain_end(s, q)] <= 0x7f,
    decreases s.len() - q,
{
    lemma_spaces_end_bounds(s, q);
    lemma_plain_end_bounds(s, q);
    let w = spaces_end(s, q);
    if w < s.len() && !is_plain_stop(s[w]) {
        lemma_plain_end_at_ascii(s, w + 1);
    } else if q < w {
        assert(s[q] == SPACE);
    }
}

/// On text, a plain scalar matches wherever a byte that is not reserved
/// stands.
pub proof fn lemma_plain_scalar_on_text(s: Seq<u8>, p: int)
    requires
        valid_utf8(s),
        follows_ascii(s, p),
    ensures
        plain_scalar(s, p) is Some <==> 0 <= p < s.len() && !is_reserved_start(s[p]),
{
    if 0 <= p < s.len() && !is_reserved_start(s[p]) {
        let e = plain_end(s, p + 1);
        lemma_plain_end_bounds(s, p + 1);
        lemma_plain_end_at_ascii(s, p + 1);
        lemma_boundary_after_ascii(s, p);
        lemma_boundary_at_ascii(s, e);
        lemma_valid_between(s, p, e);
    }
}

/// The UTF-8 encoding of a Unicode scalar value is well-formed UTF-8.
pub proof fn lemma_encode_scalar_valid(v: u32)
    requires
        is_scalar(v),
    ensures
        valid_utf8(encode_scalar(v)),
{
    let c = v as char;
    assert(c as u32 == v);
    assert(encode_utf8(seq![c]) =~= encode_scalar(v)) by {
        assert(seq![c].drop_first() =~= Seq::<char>::empty());
        reveal_with_fuel(encode_utf8, 2);
    }
    encode_utf8_valid_utf8(seq![c]);
}

/// An escape sequence stands for a Unicode scalar value, and it ends with
/// an ASCII byte within the input.
pub proof fn lemma_escape_ends_in_ascii(s: Seq<u8>, p: int)
    ensures
        escape(s, p) matches Some((v, q)) ==> is_scalar(v) && 0 <= p < q <= s.len() && s[q - 1]
            <= 0x7f,
{
}

/// A single ASCII byte is well-formed UTF-8.
proof fn lemma_ascii_byte_valid(b: u8)
    requires
        b <= 0x7f,
    ensures
        valid_utf8(seq![b]),
{
    assert(pop_first_scalar(seq![b]) =~= Seq::<u8>::empty());
    reveal_with_fuel(valid_utf8, 2);
}

/// Well-formed UTF-8 that begins with a byte beyond ASCII begins with a
/// character of two to four such bytes, which are well-formed UTF-8 on
/// their own, and another character begins after them, or the input ends.
proof fn lemma_first_scalar_beyond_ascii(x: Seq<u8>)
    requires
        valid_utf8(x),
        x.len() > 0,
        x[0] >= 0x80,
    ensures
        2 <= length_of_first_scalar(x) <= x.len(),
        forall|i: int| 0 <= i < length_of_first_scalar(x) ==> x[i] >= 0x80,
        valid_utf8(x.subrange(0, length_of_first_scalar(x))),
        length_of_first_scalar(x) == x.len() || !is_continuation_byte(
            x[length_of_first_scalar(x)],
        ),
{
    let len = length_of_first_scalar(x);
    let first = x.subrange(0, len);
    let rest = pop_first_scalar(x);
    assert(valid_first_scalar(x) && valid_utf8(rest));
    assert(valid_utf8(first)) by {
        assert(valid_first_scalar(first)) by {
            assert(first[0] == x[0]);
            if len >= 2 {
                assert(first[1] == x[1]);
            }
            if len >= 3 {
                assert(first[2] == x[2]);
            }
            if len >= 4 {
                assert(first[3] == x[3]);
            }
            assert(decode_first_scalar(first) == decode_first_scalar(x));
        }
        assert(pop_first_scalar(first) =~= Seq::<u8>::empty());
        reveal_with_fuel(valid_utf8, 2);
    }
    if len < x.len() {
        assert(rest.len() > 0 && rest[0] == x[len]);
        assert(valid_first_scalar(rest));
    }
}

/// On text, from a character boundary on, the body of a quoted scalar
/// decodes to well-formed UTF-8 if what was decoded so far is.
pub proof fn lemma_quoted_body_on_text(s: Seq<u8>, p: int, acc: Seq<u8>)
    requires
        valid_utf8(s),
        valid_utf8(acc),
        0 <= p <= s.len(),
        is_char_boundary(s, p),
    ensures
        valid_utf8(quoted_body(s, p, acc).0),
    decreases s.len() - p,
{
    if p < s.len() {
        let b = s[p];
        if b == BACKSLASH {
            lemma_escape_ends_in_ascii(s, p + 1);
            match escape(s, p + 1) {
                Some((v, q)) => {
                    lemma_encode_scalar_valid(v);
                    valid_utf8_concat(acc, encode_scalar(v));
                    lemma_boundary_after_ascii(s, q);
                    lemma_quoted_body_on_text(s, q, acc + encode_scalar(v));
                },
                None => {},
            }
        } else if b == QUOTE || b == DELETE {
        } else if b <= 0x7f {
            lemma_ascii_byte_valid(b);
            valid_utf8_concat(acc, seq![b]);
            assert(acc.push(b) =~= acc + seq![b]);
            lemma_boundary_after_ascii(s, p + 1);
            lemma_quoted_body_on_text(s, p + 1, acc.push(b));
        } else {
            let x = s.subrange(p, s.len() as int);
            valid_utf8_split(s, p);
            assert(x[0] == s[p]);
            lemma_first_scalar_beyond_ascii(x);
            let len = length_of_first_scalar(x);
            let q = p + len;
            assert forall|j: int| p <= j < q implies is_body_byte(#[trigger] s[j]) by {
                assert(s[j] == x[j - p]);
            }
            lemma_quoted_body_plain_stretch(s, p, q, acc);
            assert(s.subrange(p, q) =~= x.subrange(0, len));
            valid_utf8_concat(acc, s.subrange(p, q));
            is_char_boundary_start_end_of_seq(s);
            if q < s.len() {
                assert(s[q] == x[len]);
                is_char_boundary_iff_not_is_continuation_byte(s, q);
            }
            lemma_quoted_body_on_text(s, q, acc + s.subrange(p, q));
        }
    }
}

/// On text, a quoted scalar matches wherever a quote stands and the body
/// after it stops at a quote.
pub proof fn lemma_quoted_scalar_on_text(s: Seq<u8>, p: int)
    requires
        valid_utf8(s),
        follows_ascii(s, p),
    ensures
        quoted_scalar(s, p) is Some <==> 0 <= p < s.len() && s[p] == QUOTE && ({
            let e = quoted_body(s, p + 1, Seq::empty()).1;
            0 <= e < s.len() && s[e] == QUOTE
        }),
{
    if 0 <= p < s.len() && s[p] == QUOTE {
        lemma_boundary_after_ascii(s, p + 1);
        lemma_quoted_body_on_text(s, p + 1, Seq::empty());
    }
}

/// On text, whether a scalar matches is decided by the grammar alone: that
/// its text must be well-formed UTF-8 rules nothing out. This holds at the
/// start of the input and after every ASCII byte, and so wherever a
/// statement looks for a key or a value.
pub proof fn lemma_scalar_on_text(s: Seq<u8>, p: int)
    requires
        valid_utf8(s),
        follows_ascii(s, p),
    ensures
        scalar(s, p) is Some <==> 0 <= p < s.len() && (!is_reserved_start(s[p]) || (s[p] == QUOTE
            && ({
            let e = quoted_body(s, p + 1, Seq::empty()).1;
            0 <= e < s.len() && s[e] == QUOTE
        }))),
{
    lemma_plain_scalar_on_text(s, p);
    lemma_quoted_scalar_on_text(s, p);
}

} // verus!
