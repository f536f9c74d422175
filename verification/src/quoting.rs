//! Blanking quoted regions byte by byte, and how it relates to blanking
//! them character by character.
//!
//! A command line is held as UTF-8 bytes; `encode_utf8(s@)` is the byte
//! sequence of a string `s`. Quotes are ASCII, and no byte of a multi-byte
//! character is ASCII, so blanking the bytes blanks the same characters as
//! blanking the characters, keeps every byte position and keeps the bytes
//! valid UTF-8.

use vstd::prelude::*;
use vstd::utf8::{encode_scalar, encode_utf8, valid_utf8};
use crate::bash::{blank_quoted, is_quote};
use crate::bash_laws::quote_step;

verus! {

/// A byte that opens and closes a quoted region: `"` (34) or `'` (39).
pub open spec fn is_quote_byte(b: u8) -> bool {
    b == 34 || b == 39
}

/// The quote that is open after reading the byte `b` while `open` is open.
pub open spec fn byte_quote_step(b: u8, open: Option<u8>) -> Option<u8> {
    match open {
        None => if is_quote_byte(b) {
            Some(b)
        } else {
            None
        },
        Some(q) => if b == q {
            None
        } else {
            Some(q)
        },
    }
}

/// What the byte `b` becomes when `open` is open before it: itself outside
/// quoted regions, a space (32) for a quote and inside a quoted region.
pub open spec fn blank_head(b: u8, open: Option<u8>) -> u8 {
    if open is None && !is_quote_byte(b) {
        b
    } else {
        32
    }
}

/// `s` with every quoted region, quotes included, turned into space bytes
/// (32). `open` is the quote byte of the region open at the start of `s`.
/// A region opened by `'` or `"` runs up to the next occurrence of the same
/// byte, or to the end. Every other byte stays.
pub open spec fn blank_bytes(s: Seq<u8>, open: Option<u8>) -> Seq<u8>
    decreases s.len(),
{
    if s.len() == 0 {
        seq![]
    } else {
        seq![blank_head(s[0], open)] + blank_bytes(s.drop_first(), byte_quote_step(s[0], open))
    }
}

/// The quote byte that is open after reading `s` from the state `open`.
pub open spec fn byte_open_after(s: Seq<u8>, open: Option<u8>) -> Option<u8>
    decreases s.len(),
{
    if s.len() == 0 {
        open
    } else {
        byte_open_after(s.drop_first(), byte_quote_step(s[0], open))
    }
}

/// Blanking keeps the number of bytes.
pub proof fn lemma_blank_bytes_len(s: Seq<u8>, open: Option<u8>)
    ensures
        blank_bytes(s, open).len() == s.len(),
    decreases s.len(),
{
    if s.len() > 0 {
        lemma_blank_bytes_len(s.drop_first(), byte_quote_step(s[0], open));
    }
}

/// Blanking the bytes from position `i` on.
pub proof fn lemma_blank_step(s: Seq<u8>, i: int, open: Option<u8>)
    requires
        0 <= i < s.len(),
    ensures
        blank_bytes(s.skip(i), open) == seq![blank_head(s[i], open)] + blank_bytes(
            s.skip(i + 1),
            byte_quote_step(s[i], open),
        ),
{
    assert(s.skip(i)[0] == s[i]);
    assert(s.skip(i).drop_first() =~= s.skip(i + 1));
}

/// Blanking joined bytes blanks the first part, then the second from the
/// quote state that the first part leaves.
pub proof fn lemma_blank_bytes_joined(x: Seq<u8>, y: Seq<u8>, open: Option<u8>)
    ensures
        blank_bytes(x + y, open) == blank_bytes(x, open) + blank_bytes(y, byte_open_after(x, open)),
        byte_open_after(x + y, open) == byte_open_after(y, byte_open_after(x, open)),
    decreases x.len(),
{
    if x.len() == 0 {
        assert(x + y =~= y);
        assert(blank_bytes(x, open) + blank_bytes(y, open) =~= blank_bytes(y, open));
    } else {
        let next = byte_quote_step(x[0], open);
        assert((x + y)[0] == x[0]);
        assert((x + y).drop_first() =~= x.drop_first() + y);
        lemma_blank_bytes_joined(x.drop_first(), y, next);
        let head = blank_head(x[0], open);
        assert(seq![head] + (blank_bytes(x.drop_first(), next) + blank_bytes(
            y,
            byte_open_after(x, open),
        )) =~= (seq![head] + blank_bytes(x.drop_first(), next)) + blank_bytes(
            y,
            byte_open_after(x, open),
        ));
    }
}

/// Whether `s` holds no quote byte.
pub open spec fn quote_free(s: Seq<u8>) -> bool {
    forall|i: int| 0 <= i < s.len() ==> !is_quote_byte(#[trigger] s[i])
}

/// Blanking leaves no quote byte behind.
proof fn lemma_blank_bytes_quote_free(s: Seq<u8>, open: Option<u8>)
    ensures
        quote_free(blank_bytes(s, open)),
    decreases s.len(),
{
    if s.len() > 0 {
        let next = byte_quote_step(s[0], open);
        lemma_blank_bytes_quote_free(s.drop_first(), next);
        let out = blank_bytes(s, open);
        assert forall|i: int| 0 <= i < out.len() implies !is_quote_byte(#[trigger] out[i]) by {
            if i > 0 {
                assert(out[i] == blank_bytes(s.drop_first(), next)[i - 1]);
            }
        }
    }
}

/// Bytes that hold no quote are left as they are.
proof fn lemma_blank_bytes_unquoted(s: Seq<u8>)
    requires
        quote_free(s),
    ensures
        blank_bytes(s, None) == s,
    decreases s.len(),
{
    if s.len() > 0 {
        assert(!is_quote_byte(s[0]));
        assert(quote_free(s.drop_first())) by {
            assert forall|i: int| 0 <= i < s.drop_first().len() implies !is_quote_byte(
                #[trigger] s.drop_first()[i],
            ) by {
                assert(s.drop_first()[i] == s[i + 1]);
            }
        }
        lemma_blank_bytes_unquoted(s.drop_first());
        assert(s =~= seq![s[0]] + s.drop_first());
    }
}

/// Blanking the quoted regions of bytes a second time changes nothing.
pub proof fn law_byte_blanking_idempotent(s: Seq<u8>)
    ensures
        blank_bytes(blank_bytes(s, None), None) == blank_bytes(s, None),
{
    lemma_blank_bytes_quote_free(s, None);
    lemma_blank_bytes_unquoted(blank_bytes(s, None));
}

/// Each blanked byte is the byte itself, or a space where it is a quote or
/// lies in the region that the bytes before it leave open.
pub proof fn lemma_blank_bytes_at(s: Seq<u8>, i: int)
    requires
        0 <= i < s.len(),
    ensures
        blank_bytes(s, None)[i] == blank_head(s[i], byte_open_after(s.take(i), None)),
{
    assert(s =~= s.take(i) + s.skip(i));
    lemma_blank_bytes_joined(s.take(i), s.skip(i), None);
    lemma_blank_bytes_len(s.take(i), None);
    lemma_blank_step(s, i, byte_open_after(s.take(i), None));
    let open = byte_open_after(s.take(i), None);
    assert(blank_bytes(s.skip(i), open)[0] == blank_head(s[i], open));
}

/// The encoding of a prefix one character longer.
pub proof fn lemma_encode_take_step(s: Seq<char>, k: int)
    requires
        0 <= k < s.len(),
    ensures
        encode_utf8(s.take(k + 1)).len() == encode_utf8(s.take(k)).len() + encode_scalar(
            s[k] as u32,
        ).len(),
        encode_utf8(s.take(k + 1)).len() <= encode_utf8(s).len(),
{
    assert(s.take(k + 1) =~= s.take(k) + seq![s[k]]);
    lemma_encode_joined(s.take(k), seq![s[k]]);
    lemma_encode_single(s[k]);
    assert(s =~= s.take(k + 1) + s.skip(k + 1));
    lemma_encode_joined(s.take(k + 1), s.skip(k + 1));
}

/// `n` spaces.
pub open spec fn spaces(n: nat) -> Seq<char> {
    Seq::new(n, |i: int| ' ')
}

/// `n` space bytes.
pub open spec fn space_bytes(n: nat) -> Seq<u8> {
    Seq::new(n, |i: int| 32u8)
}

/// Whether every byte of `s` is at least 0x80, as every byte of the encoding
/// of a character outside ASCII is.
pub open spec fn all_high(s: Seq<u8>) -> bool {
    forall|i: int| 0 <= i < s.len() ==> #[trigger] s[i] >= 0x80
}

proof fn lemma_blank_high_bytes(s: Seq<u8>, open: Option<u8>)
    requires
        all_high(s),
        open matches Some(q) ==> q < 0x80,
    ensures
        blank_bytes(s, open) == if open is None {
            s
        } else {
            space_bytes(s.len())
        },
        byte_open_after(s, open) == open,
    decreases s.len(),
{
    if s.len() > 0 {
        assert(s[0] >= 0x80);
        assert(all_high(s.drop_first())) by {
            assert forall|i: int| 0 <= i < s.drop_first().len() implies #[trigger] s.drop_first()[i]
                >= 0x80 by {
                assert(s.drop_first()[i] == s[i + 1]);
            }
        }
        assert(byte_quote_step(s[0], open) == open);
        lemma_blank_high_bytes(s.drop_first(), open);
        if open is None {
            assert(seq![s[0]] + s.drop_first() =~= s);
        } else {
            assert(seq![32u8] + space_bytes((s.len() - 1) as nat) =~= space_bytes(s.len()));
        }
    }
}

proof fn lemma_or_high(x: u8)
    by (bit_vector)
    ensures
        (0x80u8 | x) >= 0x80,
        (0xC0u8 | x) >= 0x80,
        (0xE0u8 | x) >= 0x80,
        (0xF0u8 | x) >= 0x80,
{
}

proof fn lemma_ascii_byte(v: u32)
    by (bit_vector)
    requires
        v < 0x80,
    ensures
        (v & 0x7F) as u8 == v as u8,
        (v as u8) as u32 == v,
{
}

/// The encoding of an ASCII character is its code; every byte of the
/// encoding of another character is at least 0x80.
pub proof fn lemma_encode_scalar_shape(c: char)
    ensures
        1 <= encode_scalar(c as u32).len() <= 4,
        (c as u32) < 0x80 ==> encode_scalar(c as u32) == seq![(c as u32) as u8],
        (c as u32) < 0x80 ==> ((c as u32) as u8) as u32 == c as u32,
        (c as u32) >= 0x80 ==> all_high(encode_scalar(c as u32)),
        (c as u32) >= 0x80 ==> encode_scalar(c as u32).len() >= 2,
        (c as u32) < 0x80 ==> encode_scalar(c as u32).len() == 1,
        0x80 <= (c as u32) < 0x800 ==> encode_scalar(c as u32).len() == 2,
        0x800 <= (c as u32) < 0x10000 ==> encode_scalar(c as u32).len() == 3,
        0x10000 <= (c as u32) ==> encode_scalar(c as u32).len() == 4,
{
    let v = c as u32;
    vstd::utf8::char_is_scalar(c);
    if v < 0x80 {
        lemma_ascii_byte(v);
    } else {
        lemma_or_high(((v >> 6) & 0x1F) as u8);
        lemma_or_high(((v >> 12) & 0x0F) as u8);
        lemma_or_high(((v >> 18) & 0x7) as u8);
        lemma_or_high((v & 0x3F) as u8);
        lemma_or_high(((v >> 6) & 0x3F) as u8);
        lemma_or_high(((v >> 12) & 0x3F) as u8);
    }
}

/// The first byte of the encoding of `x` is the ASCII code `v` exactly when
/// `x` is the character of that code.
pub proof fn lemma_first_byte_ascii(x: char, v: u8)
    requires
        v < 0x80,
    ensures
        encode_scalar(x as u32)[0] == v <==> x as u32 == v as u32,
{
    lemma_encode_scalar_shape(x);
}

/// The first byte of the encoding of `x` is the code `v` of the ASCII
/// character `y` exactly when `x` is `y`.
pub proof fn lemma_first_byte_is(x: char, y: char, v: u8)
    requires
        v as u32 == y as u32,
        v < 0x80,
    ensures
        encode_scalar(x as u32)[0] == v <==> x == y,
{
    lemma_first_byte_ascii(x, v);
    vstd::utf8::char_u32_cast(x, x as u32);
    vstd::utf8::char_u32_cast(y, y as u32);
}

/// The number of bytes of the encoding of `c` (`char::len_utf8`).
pub fn utf8_width(c: char) -> (n: usize)
    ensures
        n == encode_scalar(c as u32).len(),
{
    proof {
        lemma_encode_scalar_shape(c);
    }
    let v = c as u32;
    if v < 0x80 {
        1
    } else if v < 0x800 {
        2
    } else if v < 0x10000 {
        3
    } else {
        4
    }
}

/// Encoding joined characters joins their encodings.
pub proof fn lemma_encode_joined(a: Seq<char>, b: Seq<char>)
    ensures
        encode_utf8(a + b) == encode_utf8(a) + encode_utf8(b),
    decreases a.len(),
{
    if a.len() == 0 {
        assert(a + b =~= b);
        assert(encode_utf8(a) + encode_utf8(b) =~= encode_utf8(b));
    } else {
        assert((a + b)[0] == a[0]);
        assert((a + b).drop_first() =~= a.drop_first() + b);
        lemma_encode_joined(a.drop_first(), b);
        assert(encode_scalar(a[0] as u32) + (encode_utf8(a.drop_first()) + encode_utf8(b))
            =~= (encode_scalar(a[0] as u32) + encode_utf8(a.drop_first())) + encode_utf8(b));
    }
}

proof fn lemma_encode_single(c: char)
    ensures
        encode_utf8(seq![c]) == encode_scalar(c as u32),
{
    assert(seq![c].drop_first() =~= Seq::<char>::empty());
    assert(seq![c][0] == c);
    assert(encode_utf8(seq![c].drop_first()) == Seq::<u8>::empty());
    assert(encode_scalar(c as u32) + Seq::<u8>::empty() =~= encode_scalar(c as u32));
}

proof fn lemma_encode_spaces(n: nat)
    ensures
        encode_utf8(spaces(n)) == space_bytes(n),
    decreases n,
{
    if n > 0 {
        lemma_encode_spaces((n - 1) as nat);
        assert(spaces(n).drop_first() =~= spaces((n - 1) as nat));
        lemma_encode_scalar_shape(' ');
        assert(encode_scalar(' ' as u32) =~= seq![32u8]);
        assert(seq![32u8] + space_bytes((n - 1) as nat) =~= space_bytes(n));
    }
}

/// The quote byte of an open quote character.
pub open spec fn lift(open: Option<char>) -> Option<u8> {
    match open {
        Some(q) => Some((q as u32) as u8),
        None => None,
    }
}

/// Whether `open` is no quote or a quote character.
pub open spec fn quote_state(open: Option<char>) -> bool {
    open matches Some(q) ==> is_quote(q)
}

/// The characters that stand for `c` once blanked from the state `open`:
/// `c` itself where it stays, else one space per byte of its encoding.
pub open spec fn blank_piece(c: char, open: Option<char>) -> Seq<char> {
    if open is None && !is_quote(c) {
        seq![c]
    } else {
        spaces(encode_scalar(c as u32).len())
    }
}

/// `s` blanked with one space per byte of each blanked character.
pub open spec fn blank_wide(s: Seq<char>, open: Option<char>) -> Seq<char>
    decreases s.len(),
{
    if s.len() == 0 {
        seq![]
    } else {
        blank_piece(s[0], open) + blank_wide(s.drop_first(), quote_step(s[0], open))
    }
}

proof fn lemma_quote_char_byte(c: char)
    ensures
        (c as u32) < 0x80 ==> (is_quote(c) <==> is_quote_byte((c as u32) as u8)),
        is_quote(c) ==> (c as u32) < 0x80,
{
    lemma_encode_scalar_shape(c);
    vstd::utf8::char_u32_cast(c, c as u32);
    vstd::utf8::char_u32_cast('"', '"' as u32);
    vstd::utf8::char_u32_cast('\'', '\'' as u32);
    assert('"' as u32 == 34);
    assert('\'' as u32 == 39);
}

/// Blanking the bytes of one character.
proof fn lemma_blank_one_char(c: char, open: Option<char>)
    requires
        quote_state(open),
    ensures
        blank_bytes(encode_scalar(c as u32), lift(open)) == encode_utf8(blank_piece(c, open)),
        byte_open_after(encode_scalar(c as u32), lift(open)) == lift(quote_step(c, open)),
        quote_state(quote_step(c, open)),
{
    let e = encode_scalar(c as u32);
    lemma_encode_scalar_shape(c);
    lemma_quote_char_byte(c);
    if let Some(q) = open {
        lemma_quote_char_byte(q);
        lemma_encode_scalar_shape(q);
        vstd::utf8::char_u32_cast(c, c as u32);
        vstd::utf8::char_u32_cast(q, q as u32);
    }
    if (c as u32) < 0x80 {
        let b = (c as u32) as u8;
        assert(e == seq![b]);
        assert(e.drop_first() =~= Seq::<u8>::empty());
        assert(blank_bytes(e.drop_first(), byte_quote_step(b, lift(open))) =~= Seq::<u8>::empty());
        assert(byte_open_after(e.drop_first(), byte_quote_step(b, lift(open))) == byte_quote_step(
            b,
            lift(open),
        ));
        if let Some(q) = open {
            assert((b == (q as u32) as u8) <==> (c == q));
        }
        assert(byte_quote_step(b, lift(open)) == lift(quote_step(c, open)));
        assert(blank_bytes(e, lift(open)) =~= seq![if open is None && !is_quote_byte(b) {
            b
        } else {
            32u8
        }]);
        if !(open is None && !is_quote(c)) {
            lemma_encode_spaces(1);
            assert(spaces(1) =~= seq![' ']);
            assert(space_bytes(1) =~= seq![32u8]);
        } else {
            lemma_encode_single(c);
        }
    } else {
        lemma_blank_high_bytes(e, lift(open));
        if open is None {
            lemma_encode_single(c);
        } else {
            lemma_encode_spaces(e.len());
        }
    }
}

/// Blanking the bytes of a line is encoding the line blanked with one space
/// per byte of each blanked character.
pub proof fn lemma_blank_bytes_encode(s: Seq<char>, open: Option<char>)
    requires
        quote_state(open),
    ensures
        blank_bytes(encode_utf8(s), lift(open)) == encode_utf8(blank_wide(s, open)),
        byte_open_after(encode_utf8(s), lift(open)) == lift(crate::bash_laws::open_after(s, open)),
    decreases s.len(),
{
    if s.len() > 0 {
        let c = s[0];
        let e = encode_scalar(c as u32);
        lemma_blank_one_char(c, open);
        lemma_blank_bytes_joined(e, encode_utf8(s.drop_first()), lift(open));
        lemma_blank_bytes_encode(s.drop_first(), quote_step(c, open));
        lemma_encode_joined(blank_piece(c, open), blank_wide(s.drop_first(), quote_step(c, open)));
    }
}

/// Blanking the bytes of a string leaves valid UTF-8.
pub proof fn lemma_blank_bytes_valid(s: Seq<char>)
    ensures
        valid_utf8(blank_bytes(encode_utf8(s), None)),
{
    lemma_blank_bytes_encode(s, None);
    vstd::utf8::encode_utf8_valid_utf8(blank_wide(s, None));
}

/// Blanking a line a second time, one space per byte of each blanked
/// character, changes nothing.
pub proof fn law_stripping_idempotent(s: Seq<char>)
    ensures
        blank_wide(blank_wide(s, None), None) == blank_wide(s, None),
{
    let once = blank_wide(s, None);
    lemma_blank_bytes_encode(s, None);
    lemma_blank_bytes_encode(once, None);
    law_byte_blanking_idempotent(encode_utf8(s));
    vstd::utf8::encode_utf8_decode_utf8(once);
    vstd::utf8::encode_utf8_decode_utf8(blank_wide(once, None));
}

/// At the first byte of each character, the blanked bytes hold the first
/// byte of the encoding of the blanked character.
pub proof fn lemma_blank_bytes_at_char(s: Seq<char>, open: Option<char>, j: int)
    requires
        quote_state(open),
        0 <= j < s.len(),
    ensures
        encode_utf8(s.take(j)).len() < encode_utf8(s).len(),
        blank_bytes(encode_utf8(s), lift(open))[encode_utf8(s.take(j)).len() as int]
            == encode_scalar(blank_quoted(s, open)[j] as u32)[0],
    decreases j,
{
    let c = s[0];
    let e = encode_scalar(c as u32);
    let rest = s.drop_first();
    lemma_blank_one_char(c, open);
    lemma_encode_scalar_shape(c);
    lemma_blank_bytes_joined(e, encode_utf8(rest), lift(open));
    lemma_blank_bytes_len(e, lift(open));
    assert(encode_utf8(s) == e + encode_utf8(rest));
    let whole = blank_bytes(encode_utf8(s), lift(open));
    let first = blank_bytes(e, lift(open));
    assert(whole == first + blank_bytes(encode_utf8(rest), lift(quote_step(c, open))));
    if j == 0 {
        assert(s.take(0) =~= Seq::<char>::empty());
        let piece = blank_piece(c, open);
        lemma_encode_joined(piece, Seq::<char>::empty());
        assert(piece + Seq::<char>::empty() =~= piece);
        assert(piece.len() > 0);
        assert(piece =~= seq![piece[0]] + piece.drop_first());
        lemma_encode_joined(seq![piece[0]], piece.drop_first());
        lemma_encode_single(piece[0]);
        lemma_encode_scalar_shape(piece[0]);
        assert(blank_quoted(s, open)[0] == piece[0]);
        assert(first == encode_utf8(piece));
        assert(first[0] == encode_scalar(piece[0] as u32)[0]);
        assert(whole[0] == first[0]);
        assert(encode_utf8(s.take(0)).len() == 0);
    } else {
        lemma_blank_bytes_at_char(rest, quote_step(c, open), j - 1);
        assert(s.take(j) =~= seq![c] + rest.take(j - 1));
        lemma_encode_joined(seq![c], rest.take(j - 1));
        lemma_encode_single(c);
        let h = if open is None && !is_quote(c) {
            c
        } else {
            ' '
        };
        assert(blank_quoted(s, open) == seq![h] + blank_quoted(rest, quote_step(c, open)));
        crate::bash::lemma_blank_quoted_len(rest, quote_step(c, open));
        assert(blank_quoted(s, open)[j] == blank_quoted(rest, quote_step(c, open))[j - 1]);
        let off = encode_utf8(rest.take(j - 1)).len();
        lemma_blank_bytes_len(encode_utf8(rest), lift(quote_step(c, open)));
        assert(encode_utf8(s.take(j)).len() == e.len() + off);
        assert(whole[(e.len() + off) as int] == blank_bytes(encode_utf8(rest), lift(quote_step(c, open)))[off as int]);
    }
}

} // verus!
