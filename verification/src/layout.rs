//! The caret-row layout engine: for one source line and its labels, builds
//! the primary underline row and the cascade of extension rows that resolve
//! deferred labels without visual overlap.
use crate::config::Charset;
use crate::text::{
    measure_message, msg_width, push_char, push_repeat, push_str, repeat_char, sat_add,
    sat_add_exec, slice_bytes, spaces, text_width, width_between,
};
use crate::order::Key;
use crate::Label;
use vstd::prelude::*;
use vstd::string::StringSliceAdditionalSpecFns;

verus! {

/// A label deferred from the primary row to the extension rows: where its
/// connector column is, how wide its message is, and the message itself.
#[derive(Debug)]
pub struct Mid {
    /// Byte offset of the label's span start.
    pub start: usize,
    /// Offset of the connector column within the label's caret run.
    pub conn: usize,
    /// Display width of the label's message.
    pub msgw: usize,
    /// The label's message.
    pub msg: String,
}

/// The mathematical content of a [`Mid`].
pub ghost struct MidView {
    /// Byte offset of the label's span start.
    pub start: int,
    /// Offset of the connector column within the label's caret run.
    pub conn: int,
    /// Display width of the label's message.
    pub msgw: int,
    /// The label's message.
    pub msg: Seq<char>,
}

impl View for Mid {
    type V = MidView;

    open spec fn view(&self) -> MidView {
        MidView {
            start: self.start as int,
            conn: self.conn as int,
            msgw: self.msgw as int,
            msg: self.msg@,
        }
    }
}

/// The views of a queue of deferred labels.
pub open spec fn views_of(s: Seq<Mid>) -> Seq<MidView> {
    s.map_values(|m: Mid| m@)
}

/// How a sort key describes a label of the list: same span, valid position.
pub open spec fn key_fits(labels: Seq<Label>, k: Key) -> bool {
    &&& k.idx < labels.len()
    &&& labels[k.idx as int].span.start == k.start
    &&& labels[k.idx as int].span.end == k.end
}

/// The labels a key sequence picks out, in key order.
pub open spec fn arrange(labels: Seq<Label>, ks: Seq<Key>) -> Seq<Label> {
    ks.map_values(|k: Key| labels[k.idx as int])
}

/// The width of a label's caret run: the display width of the source slice
/// its span covers, except that a zero-width span is drawn with one caret.
pub open spec fn point_of(sb: Seq<u8>, l: Label) -> nat {
    if l.span.start == l.span.end {
        1
    } else {
        text_width(slice_bytes(sb, l.span.start as int, l.span.end as int))
    }
}

/// The collision test of the primary row: placing carets, a separator space
/// and the whole message inline would extend past the next label's start.
pub open spec fn collides(sb: Seq<u8>, g: Seq<Label>, i: int) -> bool {
    &&& i + 1 < g.len()
    &&& g[i].span.start + point_of(sb, g[i]) + msg_width(g[i].message@) + 1 > g[i + 1].span.start
}

/// The primary row from label `i` on, with the cursor at `p` display
/// columns: the text still to emit, and the labels deferred to extension
/// rows.
pub open spec fn primary_from(
    sb: Seq<u8>,
    ls: int,
    g: Seq<Label>,
    i: int,
    p: nat,
    cs: Charset,
) -> (Seq<char>, Seq<MidView>)
    decreases g.len() - i,
    when 0 <= i
{
    if i >= g.len() {
        (Seq::<char>::empty(), Seq::<MidView>::empty())
    } else {
        let l = g[i];
        let pad = text_width(slice_bytes(sb, ls + p, l.span.start as int));
        let point = point_of(sb, l);
        let mw = msg_width(l.message@);
        let p2 = sat_add(sat_add(p, pad), point);
        if collides(sb, g, i) {
            let pm1 = if point > 0 {
                (point - 1) as nat
            } else {
                0
            };
            let left = pm1 / 2;
            let rest = primary_from(sb, ls, g, i + 1, p2, cs);
            (
                spaces(pad) + repeat_char(cs.spanning_out, left) + seq![cs.spanning_mid]
                    + repeat_char(cs.spanning_out, (pm1 - left) as nat) + rest.0,
                seq![
                    MidView {
                        start: l.span.start as int,
                        conn: left as int,
                        msgw: mw as int,
                        msg: l.message@,
                    },
                ] + rest.1,
            )
        } else {
            let rest = primary_from(sb, ls, g, i + 1, sat_add(sat_add(p2, mw), 1), cs);
            (
                spaces(pad) + repeat_char(cs.spanning, point) + seq![' '] + l.message@ + rest.0,
                rest.1,
            )
        }
    }
}

/// Builds the primary row for one line's labels, appending its text to
/// `out` and returning the queue of deferred labels.
#[verifier::rlimit(100)]
pub(crate) fn build_primary(
    out: &mut String,
    src: &str,
    ls: usize,
    labels: &Vec<Label>,
    g: &Vec<Key>,
    cs: &Charset,
) -> (mids: Vec<Mid>)
    requires
        forall|t: int| 0 <= t < g@.len() ==> key_fits(labels@, g@[t]),
    ensures
        final(out)@ == old(out)@ + primary_from(
            src.spec_bytes(),
            ls as int,
            arrange(labels@, g@),
            0,
            0,
            *cs,
        ).0,
        views_of(mids@) == primary_from(
            src.spec_bytes(),
            ls as int,
            arrange(labels@, g@),
            0,
            0,
            *cs,
        ).1,
{
    let ghost sb = src.spec_bytes();
    let ghost garr = arrange(labels@, g@);
    let ghost base = out@;
    let mut mids: Vec<Mid> = Vec::new();
    let mut pos: usize = 0;
    let mut i: usize = 0;
    let ghost mut done: Seq<char> = Seq::empty();
    while i < g.len()
        invariant
            i <= g@.len(),
            sb == src.spec_bytes(),
            garr == arrange(labels@, g@),
            forall|t: int| 0 <= t < g@.len() ==> key_fits(labels@, g@[t]),
            out@ == base + done,
            primary_from(sb, ls as int, garr, 0, 0, *cs).0 == done + primary_from(
                sb,
                ls as int,
                garr,
                i as int,
                pos as nat,
                *cs,
            ).0,
            primary_from(sb, ls as int, garr, 0, 0, *cs).1 == views_of(mids@) + primary_from(
                sb,
                ls as int,
                garr,
                i as int,
                pos as nat,
                *cs,
            ).1,
        decreases g@.len() - i,
    {
        let ghost step = primary_from(sb, ls as int, garr, i as int, pos as nat, *cs);
        let k = g[i];
        let l = &labels[k.idx];
        proof {
            assert(garr[i as int] == labels@[k.idx as int]);
        }
        let pad = width_between(src, ls as u128 + pos as u128, l.span.start as u128);
        push_repeat(out, ' ', pad);
        let point: usize = if l.span.start == l.span.end {
            1
        } else {
            width_between(src, l.span.start as u128, l.span.end as u128)
        };
        let mw = measure_message(l.message.as_str());
        let collide: bool = if i + 1 < g.len() {
            let nxt = g[i + 1];
            proof {
                assert(garr[i + 1] == labels@[nxt.idx as int]);
                assert(garr[i + 1].span.start == nxt.start);
            }
            l.span.start as u128 + point as u128 + mw as u128 + 1 > nxt.start as u128
        } else {
            false
        };
        proof {
            assert(collide == collides(sb, garr, i as int));
        }
        let p2 = sat_add_exec(sat_add_exec(pos, pad), point);
        if collide {
            let pm1: usize = if point > 0 {
                point - 1
            } else {
                0
            };
            let left = pm1 / 2;
            push_repeat(out, cs.spanning_out, left);
            push_char(out, cs.spanning_mid);
            push_repeat(out, cs.spanning_out, pm1 - left);
            let ghost mids_pre = mids@;
            mids.push(Mid { start: l.span.start, conn: left, msgw: mw, msg: l.message.clone() });
            pos = p2;
            i = i + 1;
            proof {
                let seg = spaces(pad as nat) + repeat_char(cs.spanning_out, left as nat) + seq![
                    cs.spanning_mid,
                ] + repeat_char(cs.spanning_out, (pm1 - left) as nat);
                assert(step.0 =~= seg + primary_from(sb, ls as int, garr, i as int, pos as nat, *cs).0);
                done = done + seg;
                assert(out@ =~= base + done);
                assert(primary_from(sb, ls as int, garr, 0, 0, *cs).0 =~= done + primary_from(
                    sb,
                    ls as int,
                    garr,
                    i as int,
                    pos as nat,
                    *cs,
                ).0);
                let mv = MidView {
                    start: l.span.start as int,
                    conn: left as int,
                    msgw: mw as int,
                    msg: l.message@,
                };
                assert(views_of(mids@) =~= views_of(mids_pre).push(mv));
                assert(step.1 =~= seq![mv] + primary_from(sb, ls as int, garr, i as int, pos as nat, *cs).1);
                assert(primary_from(sb, ls as int, garr, 0, 0, *cs).1 =~= views_of(mids@)
                    + primary_from(sb, ls as int, garr, i as int, pos as nat, *cs).1);
            }
        } else {
            push_repeat(out, cs.spanning, point);
            push_char(out, ' ');
            push_str(out, l.message.as_str());
            pos = sat_add_exec(sat_add_exec(p2, mw), 1);
            i = i + 1;
            proof {
                let seg = spaces(pad as nat) + repeat_char(cs.spanning, point as nat) + seq![' ']
                    + l.message@;
                assert(step.0 =~= seg + primary_from(sb, ls as int, garr, i as int, pos as nat, *cs).0);
                done = done + seg;
                assert(out@ =~= base + done);
                assert(primary_from(sb, ls as int, garr, 0, 0, *cs).0 =~= done + primary_from(
                    sb,
                    ls as int,
                    garr,
                    i as int,
                    pos as nat,
                    *cs,
                ).0);
            }
        }
    }
    mids
}

/// The collision test of an extension row: the connector plus the message
/// would strike a later pending label's start column.
pub open spec fn ext_collides(q: Seq<MidView>, i: int) -> bool {
    exists|j: int| i < j < q.len() && q[i].start + q[i].conn + q[i].msgw + 2 > #[trigger] q[j].start
}

/// One extension row from queue entry `i` on, with the cursor at `p`: the
/// text still to emit, and the entries kept for the next row.
pub open spec fn ext_row_from(
    sb: Seq<u8>,
    ls: int,
    q: Seq<MidView>,
    i: int,
    p: nat,
    cs: Charset,
) -> (Seq<char>, Seq<MidView>)
    decreases q.len() - i,
    when 0 <= i
{
    if i >= q.len() {
        (Seq::<char>::empty(), Seq::<MidView>::empty())
    } else {
        let m = q[i];
        let pad = text_width(slice_bytes(sb, ls + p, m.start + m.conn));
        let p1 = sat_add(p, pad);
        if ext_collides(q, i) {
            let rest = ext_row_from(sb, ls, q, i + 1, sat_add(p1, 2), cs);
            (spaces(pad) + seq![cs.out_extension, ' '] + rest.0, seq![m] + rest.1)
        } else {
            let rest = ext_row_from(sb, ls, q, i + 1, sat_add(sat_add(p1, 2), m.msgw as nat), cs);
            (spaces(pad) + seq![cs.out_end, ' '] + m.msg + rest.0, rest.1)
        }
    }
}

/// Every extension row resolves at least one pending label: the last entry
/// never collides with a later one, so it leaves the queue.
pub proof fn lemma_ext_row_shrinks(
    sb: Seq<u8>,
    ls: int,
    q: Seq<MidView>,
    i: int,
    p: nat,
    cs: Charset,
)
    requires
        0 <= i < q.len(),
    ensures
        ext_row_from(sb, ls, q, i, p, cs).1.len() < q.len() - i,
    decreases q.len() - i,
{
    let m = q[i];
    let pad = text_width(slice_bytes(sb, ls + p, m.start + m.conn));
    let p1 = sat_add(p, pad);
    if ext_collides(q, i) {
        lemma_ext_row_shrinks(sb, ls, q, i + 1, sat_add(p1, 2), cs);
    } else {
        if i + 1 < q.len() {
            lemma_ext_row_shrinks(sb, ls, q, i + 1, sat_add(sat_add(p1, 2), m.msgw as nat), cs);
        }
    }
}

/// The left-column prefix of caret and extension rows.
pub open spec fn row_prefix(width: nat, cs: Charset) -> Seq<char> {
    spaces(width) + seq![' ', cs.column_broken_line, ' ']
}

#[via_fn]
proof fn ext_rows_decreases(sb: Seq<u8>, ls: int, q: Seq<MidView>, cs: Charset, width: nat) {
    if q.len() > 0 {
        lemma_ext_row_shrinks(sb, ls, q, 0, 0, cs);
    }
}

/// The full cascade of extension rows for a queue of deferred labels. It
/// terminates because every row removes at least one entry.
pub open spec fn ext_rows(sb: Seq<u8>, ls: int, q: Seq<MidView>, cs: Charset, width: nat) -> Seq<
    char,
>
    decreases q.len(),
    via ext_rows_decreases
{
    if q.len() == 0 {
        Seq::empty()
    } else {
        let row = ext_row_from(sb, ls, q, 0, 0, cs);
        row_prefix(width, cs) + row.0 + seq!['\n'] + ext_rows(sb, ls, row.1, cs, width)
    }
}

/// Builds one extension row, appending its text to `out` and returning the
/// entries kept for the next row.
fn build_ext_row(out: &mut String, src: &str, ls: usize, q: &Vec<Mid>, cs: &Charset) -> (kept: Vec<
    Mid,
>)
    ensures
        final(out)@ == old(out)@ + ext_row_from(src.spec_bytes(), ls as int, views_of(q@), 0, 0, *cs).0,
        views_of(kept@) == ext_row_from(src.spec_bytes(), ls as int, views_of(q@), 0, 0, *cs).1,
{
    let ghost sb = src.spec_bytes();
    let ghost qv = views_of(q@);
    let ghost base = out@;
    let mut kept: Vec<Mid> = Vec::new();
    let mut pos: usize = 0;
    let mut i: usize = 0;
    let ghost mut done: Seq<char> = Seq::empty();
    while i < q.len()
        invariant
            i <= q@.len(),
            sb == src.spec_bytes(),
            qv == views_of(q@),
            out@ == base + done,
            ext_row_from(sb, ls as int, qv, 0, 0, *cs).0 == done + ext_row_from(
                sb,
                ls as int,
                qv,
                i as int,
                pos as nat,
                *cs,
            ).0,
            ext_row_from(sb, ls as int, qv, 0, 0, *cs).1 == views_of(kept@) + ext_row_from(
                sb,
                ls as int,
                qv,
                i as int,
                pos as nat,
                *cs,
            ).1,
        decreases q@.len() - i,
    {
        let ghost step = ext_row_from(sb, ls as int, qv, i as int, pos as nat, *cs);
        let m = &q[i];
        proof {
            assert(qv[i as int] == q@[i as int]@);
        }
        let pad = width_between(
            src,
            ls as u128 + pos as u128,
            m.start as u128 + m.conn as u128,
        );
        push_repeat(out, ' ', pad);
        let p1 = sat_add_exec(pos, pad);
        let mut hit = false;
        let mut j = i + 1;
        while j < q.len()
            invariant
                i < j <= q@.len(),
                qv == views_of(q@),
                i < q@.len(),
                *m == q@[i as int],
                hit == exists|t: int|
                    i < t < j && qv[i as int].start + qv[i as int].conn + qv[i as int].msgw + 2
                        > #[trigger] qv[t].start,
            decreases q@.len() - j,
        {
            let o = &q[j];
            let strike = m.start as u128 + m.conn as u128 + m.msgw as u128 + 2 > o.start as u128;
            proof {
                assert(qv[j as int] == q@[j as int]@);
            }
            if strike {
                hit = true;
                proof {
                    assert(i < j < j + 1 && qv[i as int].start + qv[i as int].conn + qv[
                        i as int
                    ].msgw + 2 > qv[j as int].start);
                }
            }
            j = j + 1;
        }
        proof {
            assert(hit == ext_collides(qv, i as int));
        }
        if hit {
            push_char(out, cs.out_extension);
            push_char(out, ' ');
            let ghost kept_pre = kept@;
            kept.push(Mid { start: m.start, conn: m.conn, msgw: m.msgw, msg: m.msg.clone() });
            pos = sat_add_exec(p1, 2);
            i = i + 1;
            proof {
                let seg = spaces(pad as nat) + seq![cs.out_extension, ' '];
                assert(step.0 =~= seg + ext_row_from(sb, ls as int, qv, i as int, pos as nat, *cs).0);
                done = done + seg;
                assert(out@ =~= base + done);
                assert(ext_row_from(sb, ls as int, qv, 0, 0, *cs).0 =~= done + ext_row_from(
                    sb,
                    ls as int,
                    qv,
                    i as int,
                    pos as nat,
                    *cs,
                ).0);
                assert(kept@[kept_pre.len() as int]@ == qv[i - 1]);
                assert(views_of(kept@) =~= views_of(kept_pre).push(qv[i - 1]));
                assert(step.1 =~= seq![qv[i - 1]] + ext_row_from(sb, ls as int, qv, i as int, pos as nat, *cs).1);
                assert(ext_row_from(sb, ls as int, qv, 0, 0, *cs).1 =~= views_of(kept@)
                    + ext_row_from(sb, ls as int, qv, i as int, pos as nat, *cs).1);
            }
        } else {
            push_char(out, cs.out_end);
            push_char(out, ' ');
            push_str(out, m.msg.as_str());
            pos = sat_add_exec(sat_add_exec(p1, 2), m.msgw);
            i = i + 1;
            proof {
                let seg = spaces(pad as nat) + seq![cs.out_end, ' '] + qv[i - 1].msg;
                assert(step.0 =~= seg + ext_row_from(sb, ls as int, qv, i as int, pos as nat, *cs).0);
                done = done + seg;
                assert(out@ =~= base + done);
                assert(ext_row_from(sb, ls as int, qv, 0, 0, *cs).0 =~= done + ext_row_from(
                    sb,
                    ls as int,
                    qv,
                    i as int,
                    pos as nat,
                    *cs,
                ).0);
            }
        }
    }
    kept
}

/// Builds the whole extension-row cascade for a queue of deferred labels,
/// appending each row to `out` until the queue is empty.
pub(crate) fn build_ext_rows(
    out: &mut String,
    src: &str,
    ls: usize,
    q0: Vec<Mid>,
    cs: &Charset,
    width: usize,
)
    ensures
        final(out)@ == old(out)@ + ext_rows(
            src.spec_bytes(),
            ls as int,
            views_of(q0@),
            *cs,
            width as nat,
        ),
{
    let ghost sb = src.spec_bytes();
    let ghost base = out@;
    let ghost target = ext_rows(sb, ls as int, views_of(q0@), *cs, width as nat);
    let mut q = q0;
    let ghost mut done: Seq<char> = Seq::empty();
    while q.len() > 0
        invariant
            sb == src.spec_bytes(),
            out@ == base + done,
            target == done + ext_rows(sb, ls as int, views_of(q@), *cs, width as nat),
        decreases q@.len(),
    {
        let ghost qv = views_of(q@);
        push_repeat(out, ' ', width);
        push_char(out, ' ');
        push_char(out, cs.column_broken_line);
        push_char(out, ' ');
        let kept = build_ext_row(out, src, ls, &q, cs);
        push_char(out, '\n');
        proof {
            assert(qv.len() == q@.len());
            lemma_ext_row_shrinks(sb, ls as int, qv, 0, 0, *cs);
            assert(views_of(kept@).len() < qv.len());
            let row = ext_row_from(sb, ls as int, qv, 0, 0, *cs);
            let seg = row_prefix(width as nat, *cs) + row.0 + seq!['\n'];
            assert(out@ =~= base + done + seg);
            assert(ext_rows(sb, ls as int, qv, *cs, width as nat) =~= seg + ext_rows(
                sb,
                ls as int,
                row.1,
                *cs,
                width as nat,
            ));
            done = done + seg;
        }
        q = kept;
        proof {
            assert(target == done + ext_rows(sb, ls as int, views_of(q@), *cs, width as nat));
            assert(q@.len() < qv.len());
        }
    }
    proof {
        assert(views_of(q@).len() == 0);
        assert(ext_rows(sb, ls as int, views_of(q@), *cs, width as nat) =~= Seq::<char>::empty());
        assert(out@ =~= base + target);
    }
}

} // verus!
