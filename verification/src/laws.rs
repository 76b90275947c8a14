//! The laws the renderer obeys, stated over the same spec functions that
//! the executable functions' contracts use, and proved once and for all.
use crate::config::Charset;
use crate::layout::{collides, point_of, primary_from, MidView};
use crate::lines::{lemma_boundary_after_ascii, lemma_line_structure, line_spans};
use crate::order::{key_le, key_leq, keys_of, sorted_keys, Key};
use crate::text::{msg_width, sat_add, slice_bytes, spaces, text_width};
use crate::{group_keys, on_key, render_spec, Label, Note};
use vstd::prelude::*;
use vstd::relations::{sorted_by, total_ordering};

verus! {

/// Rendering is a pure function of the diagnostic's stored state: two
/// renders of the same message, source, labels, notes and charset yield
/// identical output.
pub proof fn lemma_render_idempotent(
    sb: Seq<u8>,
    message: Seq<char>,
    labels: Seq<Label>,
    notes: Seq<Note>,
    cs: Charset,
    r1: Seq<char>,
    r2: Seq<char>,
)
    requires
        r1 == render_spec(sb, message, labels, notes, cs),
        r2 == render_spec(sb, message, labels, notes, cs),
    ensures
        r1 == r2,
{
}

/// A caret run is as wide as the display width of the source slice its span
/// covers, and a zero-width span is drawn with exactly one caret.
pub proof fn lemma_caret_run_width(sb: Seq<u8>, l: Label)
    ensures
        l.span.start == l.span.end ==> point_of(sb, l) == 1,
        l.span.start != l.span.end ==> point_of(sb, l) == text_width(
            slice_bytes(sb, l.span.start as int, l.span.end as int),
        ),
{
}

/// An inline label's segment of the primary row is its padding, a caret run
/// of exactly `point_of` carets, one separator space, and its message.
pub proof fn lemma_inline_caret_run(
    sb: Seq<u8>,
    ls: int,
    g: Seq<Label>,
    i: int,
    p: nat,
    cs: Charset,
)
    requires
        0 <= i < g.len(),
        !collides(sb, g, i),
    ensures
        ({
            let l = g[i];
            let pad = text_width(slice_bytes(sb, ls + p, l.span.start as int));
            let after = sat_add(
                sat_add(sat_add(sat_add(p, pad), point_of(sb, l)), msg_width(l.message@)),
                1,
            );
            primary_from(sb, ls, g, i, p, cs).0 == spaces(pad) + crate::text::repeat_char(
                cs.spanning,
                point_of(sb, l),
            ) + seq![' '] + l.message@ + primary_from(sb, ls, g, i + 1, after, cs).0
        }),
{
}

proof fn lemma_filter_member(s: Seq<Key>, p: spec_fn(Key) -> bool, i: int)
    requires
        0 <= i < s.filter(p).len(),
    ensures
        exists|j: int| 0 <= j < s.len() && s[j] == s.filter(p)[i],
    decreases s.len(),
{
    reveal(Seq::<_>::filter);
    if s.len() > 0 {
        let dl = s.drop_last();
        let f = s.filter(p);
        if p(s.last()) && i == f.len() - 1 {
            assert(s[s.len() - 1] == f[i]);
        } else {
            assert(0 <= i < dl.filter(p).len());
            lemma_filter_member(dl, p, i);
            let j = choose|j: int| 0 <= j < dl.len() && dl[j] == dl.filter(p)[i];
            assert(s[j] == dl.filter(p)[i]);
            assert(f[i] == dl.filter(p)[i]);
        }
    }
}

proof fn lemma_filter_sorted(s: Seq<Key>, p: spec_fn(Key) -> bool, leq: spec_fn(Key, Key) -> bool)
    requires
        sorted_by(s, leq),
        total_ordering(leq),
    ensures
        sorted_by(s.filter(p), leq),
    decreases s.len(),
{
    reveal(Seq::<_>::filter);
    if s.len() > 0 {
        let dl = s.drop_last();
        assert(sorted_by(dl, leq)) by {
            assert forall|a: int, b: int| 0 <= a < b < dl.len() implies #[trigger] leq(
                dl[a],
                dl[b],
            ) by {
                assert(leq(s[a], s[b]));
            }
        }
        lemma_filter_sorted(dl, p, leq);
        if p(s.last()) {
            let f = dl.filter(p);
            assert forall|a: int, b: int| 0 <= a < b < s.filter(p).len() implies #[trigger] leq(
                s.filter(p)[a],
                s.filter(p)[b],
            ) by {
                if b < f.len() {
                    assert(leq(f[a], f[b]));
                } else {
                    lemma_filter_member(dl, p, a);
                    let j = choose|j: int| 0 <= j < dl.len() && dl[j] == f[a];
                    if j < s.len() - 1 {
                        assert(leq(s[j], s[s.len() - 1]));
                    }
                    assert(s.filter(p)[b] == s.last());
                }
            }
        }
    }
}

/// On any row, labels appear left to right in ascending `(start, end)`
/// order: the group of labels a line renders is sorted by that order.
pub proof fn lemma_row_order(labels: Seq<Label>, line: (int, int))
    ensures
        sorted_by(group_keys(sorted_keys(labels), line), key_leq()),
        forall|a: int, b: int|
            0 <= a < b < group_keys(sorted_keys(labels), line).len() ==> key_le(
                #[trigger] group_keys(sorted_keys(labels), line)[a],
                #[trigger] group_keys(sorted_keys(labels), line)[b],
            ),
{
    crate::order::lemma_key_le_total();
    keys_of(labels).lemma_sort_by_ensures(key_leq());
    lemma_filter_sorted(sorted_keys(labels), on_key(line), key_leq());
    let g = group_keys(sorted_keys(labels), line);
    assert forall|a: int, b: int| 0 <= a < b < g.len() implies key_le(
        #[trigger] g[a],
        #[trigger] g[b],
    ) by {
        assert(key_leq()(g[a], g[b]));
    }
}

/// The labels a primary row defers, in order: exactly those whose inline
/// placement would extend past the next label's start column.
pub open spec fn deferred_from(sb: Seq<u8>, g: Seq<Label>, i: int) -> Seq<MidView>
    decreases g.len() - i,
    when 0 <= i
{
    if i >= g.len() {
        Seq::empty()
    } else if collides(sb, g, i) {
        let l = g[i];
        let point = point_of(sb, l);
        let pm1 = if point > 0 {
            (point - 1) as nat
        } else {
            0
        };
        seq![
            MidView {
                start: l.span.start as int,
                conn: (pm1 / 2) as int,
                msgw: msg_width(l.message@) as int,
                msg: l.message@,
            },
        ] + deferred_from(sb, g, i + 1)
    } else {
        deferred_from(sb, g, i + 1)
    }
}

/// A label is deferred to the extension rows if and only if its collision
/// test holds; the cursor position plays no part in the decision.
pub proof fn lemma_deferral_iff(sb: Seq<u8>, ls: int, g: Seq<Label>, i: int, p: nat, cs: Charset)
    requires
        0 <= i,
    ensures
        primary_from(sb, ls, g, i, p, cs).1 == deferred_from(sb, g, i),
    decreases g.len() - i,
{
    if i < g.len() {
        let l = g[i];
        let pad = text_width(slice_bytes(sb, ls + p, l.span.start as int));
        let point = point_of(sb, l);
        let mw = msg_width(l.message@);
        let p2 = sat_add(sat_add(p, pad), point);
        if collides(sb, g, i) {
            lemma_deferral_iff(sb, ls, g, i + 1, p2, cs);
        } else {
            lemma_deferral_iff(sb, ls, g, i + 1, sat_add(sat_add(p2, mw), 1), cs);
        }
    }
}

/// Line spans of a valid UTF-8 source always lie on character boundaries,
/// so the line text a header row shows is exactly the source bytes of that
/// line: the guarded slice never falls back to the empty sequence there.
pub proof fn lemma_line_text_exact(sb: Seq<u8>, k: int)
    requires
        vstd::utf8::valid_utf8(sb),
        0 <= k < line_spans(sb).len(),
    ensures
        slice_bytes(sb, line_spans(sb)[k].0, line_spans(sb)[k].1) == sb.subrange(
            line_spans(sb)[k].0,
            line_spans(sb)[k].1,
        ),
{
    lemma_line_structure(sb, 0, k);
    let s = line_spans(sb)[k].0;
    let e = line_spans(sb)[k].1;
    if s > 0 {
        lemma_boundary_after_ascii(sb, s - 1);
    }
    if e == sb.len() {
        vstd::utf8::is_char_boundary_start_end_of_seq(sb);
    } else {
        vstd::utf8::is_char_boundary_iff_not_is_continuation_byte(sb, e);
    }
}

/// The deferral test spelled out: a label collides exactly when a label
/// follows it on the row and carets, separator and message would reach past
/// that label's start.
pub proof fn lemma_deferral_formula(sb: Seq<u8>, g: Seq<Label>, i: int)
    requires
        0 <= i < g.len(),
    ensures
        collides(sb, g, i) <==> (i + 1 < g.len() && g[i].span.start + point_of(sb, g[i])
            + msg_width(g[i].message@) + 1 > g[i + 1].span.start),
{
}

} // verus!
