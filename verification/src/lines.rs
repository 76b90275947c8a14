//! The source indexer: splits the source text into physical lines, each with
//! the absolute byte span of its displayed text (the trailing newline byte is
//! counted in the offsets but left out of the span).
use crate::Span;
use vstd::prelude::*;
use vstd::string::StringSliceAdditionalSpecFns;
use vstd::utf8::{
    is_char_boundary, is_char_boundary_iff_not_is_continuation_byte,
    is_char_boundary_start_end_of_seq, is_continuation_byte, length_of_first_scalar,
    pop_first_scalar, valid_first_scalar, valid_utf8, valid_utf8_split,
};

verus! {

/// The position of the first newline byte at or after `i`, or the length of
/// `sb` when there is none.
pub open spec fn next_newline(sb: Seq<u8>, i: int) -> int
    decreases sb.len() - i,
    when 0 <= i
{
    if i >= sb.len() {
        sb.len() as int
    } else if sb[i] == 10 {
        i
    } else {
        next_newline(sb, i + 1)
    }
}

pub proof fn lemma_next_newline(sb: Seq<u8>, i: int)
    requires
        0 <= i <= sb.len(),
    ensures
        i <= next_newline(sb, i) <= sb.len(),
        next_newline(sb, i) < sb.len() ==> sb[next_newline(sb, i)] == 10,
        forall|k: int| i <= k < next_newline(sb, i) ==> sb[k] != 10,
    decreases sb.len() - i,
{
    if i < sb.len() && sb[i] != 10 {
        lemma_next_newline(sb, i + 1);
    }
}

/// Scanning for the next newline can start anywhere after positions already
/// known to hold no newline.
pub proof fn lemma_next_newline_skip(sb: Seq<u8>, a: int, i: int)
    requires
        0 <= a <= i <= sb.len(),
        forall|k: int| a <= k < i ==> sb[k] != 10,
    ensures
        next_newline(sb, a) == next_newline(sb, i),
    decreases i - a,
{
    if a < i {
        lemma_next_newline_skip(sb, a + 1, i);
    }
}

#[via_fn]
proof fn line_spans_from_decreases(sb: Seq<u8>, i: int) {
    if 0 <= i < sb.len() {
        lemma_next_newline(sb, i);
    }
}

/// The byte spans of the displayed lines of `sb`, starting at position `i`:
/// each span runs from a line's first byte to its newline (or to the end of
/// the source for an unterminated final line).
pub open spec fn line_spans_from(sb: Seq<u8>, i: int) -> Seq<(int, int)>
    decreases sb.len() - i,
    when 0 <= i
    via line_spans_from_decreases
{
    if i >= sb.len() {
        Seq::empty()
    } else {
        let j = next_newline(sb, i);
        if j < sb.len() {
            seq![(i, j)] + line_spans_from(sb, j + 1)
        } else {
            seq![(i, j)]
        }
    }
}

/// The byte spans of all displayed lines of `sb`.
pub open spec fn line_spans(sb: Seq<u8>) -> Seq<(int, int)> {
    line_spans_from(sb, 0)
}

/// The spans of a vector of [`Span`] values, as mathematical pairs.
pub open spec fn spans_of(v: Seq<Span>) -> Seq<(int, int)> {
    v.map_values(|sp: Span| (sp.start as int, sp.end as int))
}

/// Computes the displayed-line spans of the source text.
pub fn line_spans_exec(s: &str) -> (r: Vec<Span>)
    ensures
        spans_of(r@) == line_spans(s.spec_bytes()),
{
    let ghost sb = s.spec_bytes();
    let bytes = s.as_bytes();
    let n = crate::text::str_len(s);
    let mut r: Vec<Span> = Vec::new();
    let mut line_start: usize = 0;
    let mut i: usize = 0;
    while i < n
        invariant
            line_start <= i <= n,
            n == sb.len(),
            bytes@ == sb,
            forall|k: int| line_start <= k < i ==> sb[k] != 10,
            line_spans(sb) =~= spans_of(r@) + line_spans_from(sb, line_start as int),
        decreases n - i,
    {
        if bytes[i] == 10 {
            proof {
                lemma_next_newline_skip(sb, line_start as int, i as int);
                assert(next_newline(sb, i as int) == i);
                assert(line_spans_from(sb, line_start as int) =~= seq![
                    (line_start as int, i as int),
                ] + line_spans_from(sb, i + 1));
            }
            let ghost r_old = r@;
            r.push(Span { start: line_start, end: i });
            proof {
                assert(spans_of(r@) =~= spans_of(r_old) + seq![(line_start as int, i as int)]);
            }
            line_start = i + 1;
        }
        i = i + 1;
    }
    if line_start < n {
        proof {
            lemma_next_newline_skip(sb, line_start as int, n as int);
            assert(next_newline(sb, line_start as int) == n);
            assert(line_spans_from(sb, line_start as int) =~= seq![(line_start as int, n as int)]);
        }
        let ghost r_old = r@;
        r.push(Span { start: line_start, end: n });
        proof {
            assert(spans_of(r@) =~= spans_of(r_old) + seq![(line_start as int, n as int)]);
        }
    }
    proof {
        assert(line_spans(sb) =~= spans_of(r@));
    }
    r
}

/// The shape of every line span: it lies inside the source, it ends at a
/// newline byte or at the end of the source, and it starts at the scan
/// position or right after a newline byte.
pub proof fn lemma_line_structure(sb: Seq<u8>, i: int, k: int)
    requires
        0 <= i <= sb.len(),
        0 <= k < line_spans_from(sb, i).len(),
    ensures
        i <= line_spans_from(sb, i)[k].0 <= line_spans_from(sb, i)[k].1 <= sb.len(),
        line_spans_from(sb, i)[k].1 < sb.len() ==> sb[line_spans_from(sb, i)[k].1] == 10,
        line_spans_from(sb, i)[k].0 == i || sb[line_spans_from(sb, i)[k].0 - 1] == 10,
    decreases sb.len() - i,
{
    lemma_next_newline(sb, i);
    let j = next_newline(sb, i);
    if i < sb.len() && j < sb.len() && k > 0 {
        lemma_line_structure(sb, j + 1, k - 1);
        assert(line_spans_from(sb, i)[k] == line_spans_from(sb, j + 1)[k - 1]);
    }
}

/// In valid UTF-8, the position right after an ASCII byte is a character
/// boundary.
pub proof fn lemma_boundary_after_ascii(sb: Seq<u8>, pos: int)
    requires
        valid_utf8(sb),
        0 <= pos < sb.len(),
        sb[pos] < 0x80,
    ensures
        is_char_boundary(sb, pos + 1),
{
    if pos + 1 == sb.len() {
        is_char_boundary_start_end_of_seq(sb);
    } else {
        is_char_boundary_iff_not_is_continuation_byte(sb, pos);
        is_char_boundary_iff_not_is_continuation_byte(sb, pos + 1);
        if is_continuation_byte(sb[pos + 1]) {
            valid_utf8_split(sb, pos);
            let suf = sb.subrange(pos, sb.len() as int);
            assert(valid_utf8(suf));
            assert(suf[0] == sb[pos]);
            assert(valid_first_scalar(suf));
            assert(length_of_first_scalar(suf) == 1);
            let rest = pop_first_scalar(suf);
            assert(valid_utf8(rest));
            assert(rest.len() > 0 && rest[0] == sb[pos + 1]);
            assert(valid_first_scalar(rest));
            assert(false);
        }
    }
}

/// True when `pos` lies on line `k`: at or after its first byte, and no
/// further than its newline position.
pub open spec fn on_line(lines: Seq<(int, int)>, k: int, pos: int) -> bool {
    lines[k].0 <= pos <= lines[k].1
}

/// The first line that `pos` lies on, starting the search at line `j`.
pub open spec fn assigned_from(lines: Seq<(int, int)>, j: int, pos: int) -> Option<int>
    decreases lines.len() - j,
    when 0 <= j
{
    if j >= lines.len() {
        None
    } else if on_line(lines, j, pos) {
        Some(j)
    } else {
        assigned_from(lines, j + 1, pos)
    }
}

/// The line that a label starting at `pos` belongs to, if any.
pub open spec fn assigned_line(lines: Seq<(int, int)>, pos: int) -> Option<int> {
    assigned_from(lines, 0, pos)
}

/// Finds the line that a label starting at `pos` belongs to.
pub fn find_line(lines: &Vec<Span>, pos: usize) -> (r: Option<usize>)
    ensures
        match r {
            Some(k) => assigned_line(spans_of(lines@), pos as int) == Some(k as int),
            None => assigned_line(spans_of(lines@), pos as int) is None,
        },
{
    let ghost ls = spans_of(lines@);
    let mut j: usize = 0;
    while j < lines.len()
        invariant
            j <= lines.len(),
            ls == spans_of(lines@),
            assigned_line(ls, pos as int) == assigned_from(ls, j as int, pos as int),
        decreases lines.len() - j,
    {
        if lines[j].start <= pos && pos <= lines[j].end {
            return Some(j);
        }
        j = j + 1;
    }
    None
}

} // verus!
