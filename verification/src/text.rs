//! Text primitives the renderer is built on: byte-range slicing of the
//! source, display-width measurement, styling-aware width of messages, and
//! small helpers that append characters, repeated glyphs and decimal numbers
//! to the output string.
use vstd::prelude::*;
use vstd::string::{StringExecFns, StringSliceAdditionalSpecFns};
use vstd::utf8::{
    decode_utf8, encode_utf8, encode_utf8_decode_utf8, encode_utf8_valid_utf8, is_char_boundary,
    is_char_boundary_iff_not_is_continuation_byte, is_char_boundary_start_end_of_seq, valid_utf8,
    valid_utf8_split,
};

verus! {

/// The displayed column count of the text with the given UTF-8 bytes, as
/// unicode_width measures it.
pub uninterp spec fn text_width(bytes: Seq<u8>) -> nat;

/// The UTF-8 bytes of the given text with ANSI styling sequences removed, as
/// anstream strips them.
pub uninterp spec fn strip_of(bytes: Seq<u8>) -> Seq<u8>;

/// The displayed width of a message: styling is stripped before measuring,
/// so only visible glyphs count.
pub open spec fn msg_width(message: Seq<char>) -> nat {
    text_width(strip_of(encode_utf8(message)))
}

/// Relies on unicode_width::UnicodeWidthStr::width: the displayed column
/// count of a string, a function of its characters alone (an empty string
/// measures zero columns).
#[verifier::external_body]
pub(crate) fn measure_width(s: &str) -> (r: usize)
    ensures
        r == text_width(s.spec_bytes()),
        s.spec_bytes().len() == 0 ==> r == 0,
{
    unicode_width::UnicodeWidthStr::width(s)
}

/// Relies on anstream::adapter::strip_str: removes ANSI escape sequences and
/// keeps the printable content, a function of the input characters alone.
#[verifier::external_body]
pub(crate) fn strip_styling(s: &str) -> (r: String)
    ensures
        encode_utf8(r@) == strip_of(s.spec_bytes()),
{
    anstream::adapter::strip_str(s).to_string()
}

/// Relies on str::len: the length of the string in bytes (which always fits
/// in a `usize`).
#[verifier::external_body]
pub(crate) fn str_len(s: &str) -> (r: usize)
    ensures
        r == s.spec_bytes().len(),
{
    s.len()
}

/// Relies on String::push: appends the given character to the end of the
/// string.
#[verifier::external_body]
pub(crate) fn push_char(out: &mut String, c: char)
    ensures
        final(out)@ == old(out)@.push(c),
{
    out.push(c);
}

/// The display width of a message string: its styling-stripped width.
pub fn measure_message(s: &str) -> (r: usize)
    ensures
        r == msg_width(s@),
{
    let plain = strip_styling(s);
    measure_width(plain.as_str())
}

/// The bytes of `bytes[a..b]` when that is a well-formed range on character
/// boundaries, and the empty sequence otherwise.
pub open spec fn slice_bytes(bytes: Seq<u8>, a: int, b: int) -> Seq<u8> {
    if 0 <= a <= b <= bytes.len() && is_char_boundary(bytes, a) && is_char_boundary(bytes, b) {
        bytes.subrange(a, b)
    } else {
        Seq::empty()
    }
}

proof fn lemma_boundary_prefix(bytes: Seq<u8>, a: int, b: int)
    requires
        valid_utf8(bytes),
        0 <= a <= b <= bytes.len(),
        is_char_boundary(bytes, a),
        is_char_boundary(bytes, b),
    ensures
        valid_utf8(bytes.subrange(0, b)),
        is_char_boundary(bytes.subrange(0, b), a),
{
    valid_utf8_split(bytes, b);
    let pre = bytes.subrange(0, b);
    if a == b {
        is_char_boundary_start_end_of_seq(pre);
    } else {
        is_char_boundary_iff_not_is_continuation_byte(bytes, a);
        is_char_boundary_iff_not_is_continuation_byte(pre, a);
        assert(pre[a] == bytes[a]);
    }
}

/// The substring of `s` over the byte range `[a, b)`, or the empty string
/// when that range is not well formed on character boundaries.
pub fn slice_range<'a>(s: &'a str, a: usize, b: usize) -> (r: &'a str)
    ensures
        r.spec_bytes() == slice_bytes(s.spec_bytes(), a as int, b as int),
        r@ == decode_utf8(slice_bytes(s.spec_bytes(), a as int, b as int)),
{
    proof {
        encode_utf8_valid_utf8(s@);
    }
    if a <= b && b <= str_len(s) && s.is_char_boundary(a) && s.is_char_boundary(b) {
        proof {
            lemma_boundary_prefix(s.spec_bytes(), a as int, b as int);
        }
        let (pre, _) = s.split_at(b);
        let (_, mid) = pre.split_at(a);
        proof {
            assert(pre.spec_bytes() =~= s.spec_bytes().subrange(0, b as int));
            assert(mid.spec_bytes() =~= s.spec_bytes().subrange(a as int, b as int));
            encode_utf8_decode_utf8(mid@);
        }
        mid
    } else {
        let r = "";
        proof {
            reveal_strlit("");
            assert(r.spec_bytes() =~= Seq::<u8>::empty());
            assert(slice_bytes(s.spec_bytes(), a as int, b as int) =~= Seq::<u8>::empty());
            assert(decode_utf8(Seq::<u8>::empty()) =~= Seq::<char>::empty());
            assert(r@ =~= Seq::<char>::empty());
        }
        r
    }
}

/// The display width of the source slice `[a, b)`, measured as the renderer
/// measures every slice: an ill-formed range has width zero.
pub fn width_between(s: &str, a: u128, b: u128) -> (w: usize)
    ensures
        w == text_width(slice_bytes(s.spec_bytes(), a as int, b as int)),
{
    let n = str_len(s);
    if a <= n as u128 && b <= n as u128 {
        let sl = slice_range(s, a as usize, b as usize);
        measure_width(sl)
    } else {
        let r = "";
        proof {
            reveal_strlit("");
            assert(r.spec_bytes() =~= Seq::<u8>::empty());
            assert(slice_bytes(s.spec_bytes(), a as int, b as int) =~= Seq::<u8>::empty());
        }
        measure_width(r)
    }
}

/// `n` copies of the character `c`.
pub open spec fn repeat_char(c: char, n: nat) -> Seq<char> {
    Seq::new(n, |i| c)
}

/// `n` spaces.
pub open spec fn spaces(n: nat) -> Seq<char> {
    repeat_char(' ', n)
}

/// Appends `n` copies of `c` to `out`.
pub fn push_repeat(out: &mut String, c: char, n: usize)
    ensures
        final(out)@ == old(out)@ + repeat_char(c, n as nat),
{
    let ghost base = out@;
    let mut i: usize = 0;
    while i < n
        invariant
            i <= n,
            out@ == base + repeat_char(c, i as nat),
        decreases n - i,
    {
        push_char(out, c);
        i = i + 1;
        proof {
            assert(base + repeat_char(c, i as nat) =~= (base + repeat_char(c, (i - 1) as nat)).push(
                c,
            ));
        }
    }
    proof {
        assert(out@ =~= base + repeat_char(c, n as nat));
    }
}

/// The decimal digit character for `d % 10`.
pub open spec fn digit_char(d: nat) -> char {
    ((48 + (d % 10)) as u8) as char
}

/// The decimal digits of `n`, most significant first.
pub open spec fn dec_digits(n: nat) -> Seq<char>
    decreases n,
{
    if n < 10 {
        seq![digit_char(n)]
    } else {
        dec_digits(n / 10).push(digit_char(n % 10))
    }
}

proof fn lemma_dec_digits_len(n: nat)
    ensures
        1 <= dec_digits(n).len() <= n + 1,
    decreases n,
{
    if n >= 10 {
        lemma_dec_digits_len(n / 10);
    }
}

/// Appends the decimal digits of `n` to `out`.
pub fn push_digits(out: &mut String, n: usize)
    ensures
        final(out)@ == old(out)@ + dec_digits(n as nat),
    decreases n,
{
    if n >= 10 {
        push_digits(out, n / 10);
    }
    let d: u8 = 48 + (n % 10) as u8;
    push_char(out, d as char);
    proof {
        if n < 10 {
            assert(old(out)@.push(d as char) =~= old(out)@ + seq![digit_char(n as nat)]);
        } else {
            assert((old(out)@ + dec_digits((n / 10) as nat)).push(d as char) =~= old(out)@
                + dec_digits((n / 10) as nat).push(digit_char(n as nat % 10)));
        }
    }
}

/// The count of decimal digits of `n`.
pub fn digit_count(n: usize) -> (r: usize)
    ensures
        r == dec_digits(n as nat).len(),
    decreases n,
{
    if n < 10 {
        1
    } else {
        let c = digit_count(n / 10);
        proof {
            lemma_dec_digits_len((n / 10) as nat);
        }
        c + 1
    }
}

/// A number rendered right-aligned in a field of `width` columns: padding
/// spaces, then the decimal digits (never truncated).
pub open spec fn num_field(n: nat, width: nat) -> Seq<char> {
    let d = dec_digits(n);
    if d.len() < width {
        spaces((width - d.len()) as nat) + d
    } else {
        d
    }
}

/// Appends `n`, right-aligned in a field of `width` columns, to `out`.
pub fn push_num_field(out: &mut String, n: usize, width: usize)
    ensures
        final(out)@ == old(out)@ + num_field(n as nat, width as nat),
{
    let ghost base = out@;
    let dl = digit_count(n);
    if dl < width {
        push_repeat(out, ' ', width - dl);
    }
    push_digits(out, n);
    proof {
        if dl < width {
            assert(out@ =~= base + num_field(n as nat, width as nat));
        }
    }
}

/// Appends a borrowed string to `out`.
pub fn push_str(out: &mut String, s: &str)
    ensures
        final(out)@ == old(out)@ + s@,
{
    out.append(s);
}

/// Addition capped at the largest `usize`, the arithmetic the layout cursor
/// uses so that it cannot overflow.
pub open spec fn sat_add(a: nat, b: nat) -> nat {
    if a + b > usize::MAX {
        usize::MAX as nat
    } else {
        a + b
    }
}

/// Exec counterpart of [`sat_add`].
pub fn sat_add_exec(a: usize, b: usize) -> (r: usize)
    ensures
        r as nat == sat_add(a as nat, b as nat),
{
    a.saturating_add(b)
}

} // verus!
