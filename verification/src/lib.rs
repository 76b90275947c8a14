//! Renders compiler-style diagnostics: a message, an excerpt of source text,
//! labeled spans underlined with carets, and trailing notes.
//!
//! Callers supply already-computed spans and messages; this crate owns only
//! the visual layout. The core is the caret-row layout engine in [`layout`]:
//! it decides column positions, resolves collisions between neighbouring
//! labels, and defers labels into a terminating cascade of extension rows
//! when inline placement is impossible.
use vstd::prelude::*;

pub mod config;
pub mod laws;
pub mod layout;
pub mod lines;
pub mod order;
pub mod text;

use config::Charset;
use layout::{arrange, build_ext_rows, build_primary, ext_rows, key_fits, primary_from, row_prefix};
use lines::{assigned_line, find_line, line_spans, line_spans_exec, spans_of};
use order::{key_leq, keys_of, sort_keys, sorted_keys, Key};
use text::{
    dec_digits, digit_count, num_field, push_char, push_num_field, push_repeat, push_str,
    slice_bytes, spaces, str_len,
};
use vstd::string::StringSliceAdditionalSpecFns;
use vstd::utf8::decode_utf8;

verus! {

/// A half-open range of byte offsets into the source text.
#[derive(Debug, Clone, Copy, PartialEq, Eq, Structural)]
pub struct Span {
    /// First byte of the range.
    pub start: usize,
    /// One past the last byte of the range.
    pub end: usize,
}

impl Span {
    /// Builds the span `[start, end)`.
    pub fn new(start: usize, end: usize) -> (r: Span)
        ensures
            r == (Span { start, end }),
    {
        Span { start, end }
    }
}

/// A label: a span of the source together with a message about it.
#[derive(Debug, Clone)]
pub struct Label {
    /// The span this label is anchored to.
    pub span: Span,
    /// The message drawn next to the span's caret run.
    pub message: String,
}

impl Label {
    /// Builds a label over `span` carrying `message`.
    pub fn new(span: Span, message: &str) -> (r: Label)
        ensures
            r.span == span,
            r.message@ == message@,
    {
        Label { span, message: message.to_owned() }
    }
}

/// A note drawn after all line blocks.
#[derive(Debug)]
pub struct Note {
    /// The note's text.
    pub message: String,
}

/// The source text that the spans reference.
#[derive(Debug)]
pub struct Source<'s>(pub &'s str);

impl<'s> Source<'s> {
    /// The displayed lines of the source, each with its absolute byte span.
    /// A line's span runs to its newline byte, which is counted in the
    /// offsets but left out of the displayed text.
    pub fn spans(&self) -> (r: Vec<(&'s str, Span)>)
        ensures
            spans_of(r@.map_values(|p: (&'s str, Span)| p.1)) == line_spans(self.0.spec_bytes()),
            forall|k: int|
                0 <= k < r@.len() ==> (#[trigger] r@[k]).0@ == decode_utf8(
                    slice_bytes(self.0.spec_bytes(), r@[k].1.start as int, r@[k].1.end as int),
                ),
    {
        let ghost sb = self.0.spec_bytes();
        let ls = line_spans_exec(self.0);
        let mut r: Vec<(&'s str, Span)> = Vec::new();
        let mut k: usize = 0;
        while k < ls.len()
            invariant
                k <= ls@.len(),
                sb == self.0.spec_bytes(),
                spans_of(ls@) == line_spans(sb),
                r@.len() == k,
                forall|t: int|
                    0 <= t < k ==> (#[trigger] r@[t]).1 == ls@[t] && r@[t].0@ == decode_utf8(
                        slice_bytes(sb, ls@[t].start as int, ls@[t].end as int),
                    ),
            decreases ls@.len() - k,
        {
            let sp = ls[k];
            let text = text::slice_range(self.0, sp.start, sp.end);
            r.push((text, sp));
            k = k + 1;
        }
        proof {
            assert(r@.map_values(|p: (&'s str, Span)| p.1) =~= ls@);
        }
        r
    }
}

/// The two caller-misuse conditions a diagnostic can fail with.
#[derive(Debug, Clone, Copy, PartialEq, Eq, Structural)]
pub enum RenderError {
    /// A label's span ends past the end of the source text.
    OutOfBounds,
    /// A label's start offset falls inside a span already placed on an
    /// earlier source line.
    Overlap,
}

/// The diagnostic builder this crate is all about: a message, a borrowed
/// source text, labels, notes, and a charset, built up by chained calls and
/// rendered by a read-only pass.
#[derive(Debug)]
pub struct Error<'s> {
    /// The headline message, drawn first.
    pub message: String,
    /// The source text the labels point into.
    pub source: Source<'s>,
    /// The labels, in the order they were added.
    pub labels: Vec<Label>,
    /// The notes, in the order they were added.
    pub notes: Vec<Note>,
    /// The characters the diagnostic is drawn with.
    pub charset: Charset,
}

/// Labels `i` and `j` overlap in the unsupported way: both lie on a line,
/// `j`'s line comes earlier, and `j`'s span contains `i`'s start offset.
pub open spec fn overlap_pair(
    labels: Seq<Label>,
    lns: Seq<(int, int)>,
    i: int,
    j: int,
) -> bool {
    &&& 0 <= i < labels.len()
    &&& 0 <= j < labels.len()
    &&& match (
        assigned_line(lns, labels[i].span.start as int),
        assigned_line(lns, labels[j].span.start as int),
    ) {
        (Some(ki), Some(kj)) => kj < ki && labels[j].span.start <= labels[i].span.start
            < labels[j].span.end,
        _ => false,
    }
}

/// Some label's start offset falls inside a span placed on an earlier line.
pub open spec fn has_overlap(labels: Seq<Label>, lns: Seq<(int, int)>) -> bool {
    exists|i: int, j: int| overlap_pair(labels, lns, i, j)
}

fn check_overlap(labels: &Vec<Label>, lns: &Vec<Span>) -> (r: bool)
    ensures
        r == has_overlap(labels@, spans_of(lns@)),
{
    let ghost lsv = spans_of(lns@);
    let mut i: usize = 0;
    while i < labels.len()
        invariant
            i <= labels@.len(),
            lsv == spans_of(lns@),
            forall|a: int, b: int| a < i ==> !overlap_pair(labels@, lsv, a, b),
        decreases labels@.len() - i,
    {
        let start_i = labels[i].span.start;
        let ki_opt = find_line(lns, start_i);
        match ki_opt {
            Some(ki) => {
                let mut j: usize = 0;
                while j < labels.len()
                    invariant
                        j <= labels@.len(),
                        i < labels@.len(),
                        lsv == spans_of(lns@),
                        start_i == labels@[i as int].span.start,
                        assigned_line(lsv, start_i as int) == Some(ki as int),
                        forall|b: int| b < j ==> !overlap_pair(labels@, lsv, i as int, b),
                    decreases labels@.len() - j,
                {
                    let lj = &labels[j];
                    if lj.span.start <= start_i && start_i < lj.span.end {
                        let kj_opt = find_line(lns, lj.span.start);
                        match kj_opt {
                            Some(kj) => {
                                if kj < ki {
                                    proof {
                                        assert(overlap_pair(labels@, lsv, i as int, j as int));
                                    }
                                    return true;
                                }
                            },
                            None => {},
                        }
                    }
                    j = j + 1;
                }
            },
            None => {
                proof {
                    assert forall|b: int| !overlap_pair(labels@, lsv, i as int, b) by {}
                }
            },
        }
        i = i + 1;
    }
    proof {
        assert forall|a: int, b: int| !overlap_pair(labels@, lsv, a, b) by {}
    }
    false
}

/// The keys a line keeps: those whose label starts on it.
pub open spec fn on_key(line: (int, int)) -> spec_fn(Key) -> bool {
    |kk: Key| line.0 <= kk.start <= line.1
}

/// The sorted keys of the labels grouped onto one line.
pub open spec fn group_keys(ks: Seq<Key>, line: (int, int)) -> Seq<Key> {
    ks.filter(on_key(line))
}

/// The text of the line blocks from line `k` on: for each line with labels,
/// a header row, the primary caret row, and the extension-row cascade.
pub open spec fn blocks_from(
    sb: Seq<u8>,
    labels: Seq<Label>,
    ks: Seq<Key>,
    lns: Seq<(int, int)>,
    k: int,
    cs: Charset,
    width: nat,
) -> Seq<char>
    decreases lns.len() - k,
    when 0 <= k
{
    if k >= lns.len() {
        Seq::empty()
    } else {
        let g = arrange(labels, group_keys(ks, lns[k]));
        let rest = blocks_from(sb, labels, ks, lns, k + 1, cs, width);
        if g.len() == 0 {
            rest
        } else {
            let prim = primary_from(sb, lns[k].0, g, 0, 0, cs);
            num_field(k as nat, width) + seq![' ', cs.column_line, ' '] + decode_utf8(
                slice_bytes(sb, lns[k].0, lns[k].1),
            ) + seq!['\n'] + row_prefix(width, cs) + prim.0 + seq!['\n'] + ext_rows(
                sb,
                lns[k].0,
                prim.1,
                cs,
                width,
            ) + rest
        }
    }
}

/// The note rows from note `k` on, one row per note, in insertion order.
pub open spec fn notes_from(notes: Seq<Note>, k: int, cs: Charset, width: nat) -> Seq<char>
    decreases notes.len() - k,
    when 0 <= k
{
    if k >= notes.len() {
        Seq::empty()
    } else {
        spaces(width) + seq![' ', cs.note, ' '] + notes[k].message@ + seq!['\n'] + notes_from(
            notes,
            k + 1,
            cs,
            width,
        )
    }
}

/// The width of the line-number field: the digit count of the number of
/// source lines (one column when the source is empty).
pub open spec fn field_width(sb: Seq<u8>) -> nat {
    if line_spans(sb).len() == 0 {
        1
    } else {
        dec_digits(line_spans(sb).len() as nat).len()
    }
}

/// The full text of a rendered diagnostic: the message line, then a block
/// for every source line with labels, then the note rows.
pub open spec fn render_spec(
    sb: Seq<u8>,
    message: Seq<char>,
    labels: Seq<Label>,
    notes: Seq<Note>,
    cs: Charset,
) -> Seq<char> {
    let width = field_width(sb);
    message + seq!['\n'] + blocks_from(
        sb,
        labels,
        sorted_keys(labels),
        line_spans(sb),
        0,
        cs,
        width,
    ) + notes_from(notes, 0, cs, width)
}

impl<'s> Error<'s> {
    /// Creates a new diagnostic over the given source text, with no message,
    /// no labels, no notes, and the unicode charset.
    pub fn new(source: &'s str) -> (r: Self)
        ensures
            r.message@ == Seq::<char>::empty(),
            r.source.0 == source,
            r.labels@ == Seq::<Label>::empty(),
            r.notes@ == Seq::<Note>::empty(),
            r.charset == config::unicode_charset(),
    {
        Error {
            labels: Vec::new(),
            source: Source(source),
            notes: Vec::new(),
            message: String::new(),
            charset: Charset::unicode(),
        }
    }

    /// Sets the charset.
    pub fn charset(self, charset: Charset) -> (r: Self)
        ensures
            r.charset == charset,
            r.message == self.message,
            r.source == self.source,
            r.labels == self.labels,
            r.notes == self.notes,
    {
        Error { charset, ..self }
    }

    /// Sets the headline message.
    pub fn message(self, message: &str) -> (r: Self)
        ensures
            r.message@ == message@,
            r.source == self.source,
            r.labels == self.labels,
            r.notes == self.notes,
            r.charset == self.charset,
    {
        Error { message: message.to_owned(), ..self }
    }

    /// Adds a label. The span is checked eagerly: a label whose span ends
    /// past the end of the source is rejected here, and only here.
    pub fn label(self, label: Label) -> (r: Result<Self, RenderError>)
        ensures
            match r {
                Ok(e) => {
                    &&& label.span.end <= self.source.0.spec_bytes().len()
                    &&& e.labels@ == self.labels@.push(label)
                    &&& e.message == self.message
                    &&& e.source == self.source
                    &&& e.notes == self.notes
                    &&& e.charset == self.charset
                },
                Err(err) => {
                    &&& label.span.end > self.source.0.spec_bytes().len()
                    &&& err == RenderError::OutOfBounds
                },
            },
    {
        if label.span.end <= str_len(self.source.0) {
            let mut e = self;
            e.labels.push(label);
            Ok(e)
        } else {
            Err(RenderError::OutOfBounds)
        }
    }

    /// Adds a note.
    pub fn note(self, note: &str) -> (r: Self)
        ensures
            r.notes@.len() == self.notes@.len() + 1,
            r.notes@.drop_last() == self.notes@,
            r.notes@.last().message@ == note@,
            r.message == self.message,
            r.source == self.source,
            r.labels == self.labels,
            r.charset == self.charset,
    {
        let mut e = self;
        let ghost pre = e.notes@;
        e.notes.push(Note { message: note.to_owned() });
        proof {
            assert(e.notes@.drop_last() =~= pre);
        }
        e
    }

    /// Renders the diagnostic. Succeeds for every input except the
    /// unsupported overlap: a label starting inside a span placed on an
    /// earlier source line. Rendering reads the diagnostic without mutating
    /// it, so repeated calls yield identical output.
    #[verifier::rlimit(100)]
    pub fn render(&self) -> (r: Result<String, RenderError>)
        ensures
            match r {
                Ok(out) => {
                    &&& !has_overlap(self.labels@, line_spans(self.source.0.spec_bytes()))
                    &&& out@ == render_spec(
                        self.source.0.spec_bytes(),
                        self.message@,
                        self.labels@,
                        self.notes@,
                        self.charset,
                    )
                },
                Err(e) => {
                    &&& has_overlap(self.labels@, line_spans(self.source.0.spec_bytes()))
                    &&& e == RenderError::Overlap
                },
            },
    {
        let src = self.source.0;
        let ghost sb = src.spec_bytes();
        let ghost cs = self.charset;
        let ghost lblv = self.labels@;
        let lns = line_spans_exec(src);
        let ghost lsv = spans_of(lns@);
        if check_overlap(&self.labels, &lns) {
            return Err(RenderError::Overlap);
        }
        let width: usize = if lns.len() == 0 {
            1
        } else {
            digit_count(lns.len())
        };
        proof {
            assert(lsv.len() == lns@.len());
            assert(width as nat == field_width(sb));
        }
        let keys = sort_keys(&self.labels);
        let nlab = self.labels.len();
        proof {
            order::lemma_key_le_total();
            keys_of(lblv).lemma_sort_by_ensures(key_leq());
            assert forall|t: int| 0 <= t < keys@.len() implies key_fits(
                lblv,
                #[trigger] keys@[t],
            ) by {
                let x = keys@[t];
                assert(keys@.contains(x)) by {
                    assert(keys@[t] == x);
                }
                assert(keys_of(lblv).sort_by(key_leq()).contains(x));
                assert(keys_of(lblv).contains(x));
                let w = choose|w: int| 0 <= w < keys_of(lblv).len() && keys_of(lblv)[w] == x;
                assert(keys_of(lblv)[w] == x);
                assert(nlab == lblv.len());
                assert(x.idx == w as usize && w < nlab);
            }
        }
        let mut out = String::new();
        push_str(&mut out, self.message.as_str());
        push_char(&mut out, '\n');
        proof {
            assert(out@ =~= self.message@ + seq!['\n']);
        }
        let ghost mut done: Seq<char> = Seq::empty();
        let mut k: usize = 0;
        while k < lns.len()
            invariant
                k <= lns@.len(),
                sb == src.spec_bytes(),
                cs == self.charset,
                lblv == self.labels@,
                lsv == spans_of(lns@),
                keys@ == sorted_keys(lblv),
                forall|t: int| 0 <= t < keys@.len() ==> key_fits(lblv, #[trigger] keys@[t]),
                out@ == self.message@ + seq!['\n'] + done,
                blocks_from(sb, lblv, keys@, lsv, 0, cs, width as nat) == done + blocks_from(
                    sb,
                    lblv,
                    keys@,
                    lsv,
                    k as int,
                    cs,
                    width as nat,
                ),
            decreases lns@.len() - k,
        {
            let line = lns[k];
            let ghost lpair = lsv[k as int];
            let mut g: Vec<Key> = Vec::new();
            let mut t: usize = 0;
            while t < keys.len()
                invariant
                    t <= keys@.len(),
                    k < lns@.len(),
                    lsv == spans_of(lns@),
                    lpair == lsv[k as int],
                    line == lns@[k as int],
                    lblv == self.labels@,
                    g@ == keys@.take(t as int).filter(on_key(lpair)),
                    forall|t2: int| 0 <= t2 < keys@.len() ==> key_fits(lblv, #[trigger] keys@[t2]),
                    forall|x: int| 0 <= x < g@.len() ==> key_fits(lblv, #[trigger] g@[x]),
                decreases keys@.len() - t,
            {
                let kk = keys[t];
                let keep = line.start <= kk.start && kk.start <= line.end;
                proof {
                    assert(keep == on_key(lpair)(kk));
                }
                let ghost g_pre = g@;
                if keep {
                    g.push(kk);
                }
                t = t + 1;
                proof {
                    assert(keys@.take(t as int) =~= keys@.take(t - 1) + seq![kk]);
                    Seq::<Key>::filter_distributes_over_add(
                        keys@.take(t - 1),
                        seq![kk],
                        on_key(lpair),
                    );
                    lemma_filter_one(kk, on_key(lpair));
                    if keep {
                        assert(g@ =~= g_pre + seq![kk]);
                    } else {
                        assert(seq![kk].filter(on_key(lpair)) =~= Seq::<Key>::empty());
                        assert(g@ =~= g_pre + seq![kk].filter(on_key(lpair)));
                    }
                }
            }
            proof {
                assert(keys@.take(keys@.len() as int) =~= keys@);
                assert(g@ == group_keys(keys@, lpair));
            }
            let ghost g_arr = arrange(lblv, group_keys(keys@, lpair));
            let ghost step = blocks_from(sb, lblv, keys@, lsv, k as int, cs, width as nat);
            if g.len() > 0 {
                proof {
                    assert(g_arr.len() == g@.len());
                }
                push_num_field(&mut out, k, width);
                push_char(&mut out, ' ');
                push_char(&mut out, self.charset.column_line);
                push_char(&mut out, ' ');
                let text = text::slice_range(src, line.start, line.end);
                push_str(&mut out, text);
                push_char(&mut out, '\n');
                push_repeat(&mut out, ' ', width);
                push_char(&mut out, ' ');
                push_char(&mut out, self.charset.column_broken_line);
                push_char(&mut out, ' ');
                let mids = build_primary(&mut out, src, line.start, &self.labels, &g, &self.charset);
                push_char(&mut out, '\n');
                build_ext_rows(&mut out, src, line.start, mids, &self.charset, width);
                k = k + 1;
                proof {
                    let prim = primary_from(sb, lpair.0, g_arr, 0, 0, cs);
                    let seg = num_field((k - 1) as nat, width as nat) + seq![' ', cs.column_line, ' ']
                        + decode_utf8(slice_bytes(sb, lpair.0, lpair.1)) + seq!['\n'] + row_prefix(
                        width as nat,
                        cs,
                    ) + prim.0 + seq!['\n'] + ext_rows(sb, lpair.0, prim.1, cs, width as nat);
                    assert(out@ =~= self.message@ + seq!['\n'] + (done + seg));
                    assert(step =~= seg + blocks_from(sb, lblv, keys@, lsv, k as int, cs, width as nat));
                    done = done + seg;
                }
            } else {
                k = k + 1;
                proof {
                    assert(g_arr.len() == 0);
                    assert(step == blocks_from(sb, lblv, keys@, lsv, k as int, cs, width as nat));
                }
            }
        }
        proof {
            assert(blocks_from(sb, lblv, keys@, lsv, lns@.len() as int, cs, width as nat)
                =~= Seq::<char>::empty());
            assert(blocks_from(sb, lblv, keys@, lsv, 0, cs, width as nat) =~= done);
        }
        let ghost blocks_all = done;
        let ghost mut ndone: Seq<char> = Seq::empty();
        let mut m: usize = 0;
        while m < self.notes.len()
            invariant
                m <= self.notes@.len(),
                cs == self.charset,
                out@ == self.message@ + seq!['\n'] + blocks_all + ndone,
                notes_from(self.notes@, 0, cs, width as nat) == ndone + notes_from(
                    self.notes@,
                    m as int,
                    cs,
                    width as nat,
                ),
            decreases self.notes@.len() - m,
        {
            push_repeat(&mut out, ' ', width);
            push_char(&mut out, ' ');
            push_char(&mut out, self.charset.note);
            push_char(&mut out, ' ');
            push_str(&mut out, self.notes[m].message.as_str());
            push_char(&mut out, '\n');
            m = m + 1;
            proof {
                let seg = spaces(width as nat) + seq![' ', cs.note, ' '] + self.notes@[m
                    - 1].message@ + seq!['\n'];
                assert(out@ =~= self.message@ + seq!['\n'] + blocks_all + (ndone + seg));
                assert(notes_from(self.notes@, m - 1, cs, width as nat) =~= seg + notes_from(
                    self.notes@,
                    m as int,
                    cs,
                    width as nat,
                ));
                ndone = ndone + seg;
            }
        }
        proof {
            assert(notes_from(self.notes@, self.notes@.len() as int, cs, width as nat)
                =~= Seq::<char>::empty());
            assert(out@ =~= render_spec(sb, self.message@, lblv, self.notes@, cs));
        }
        Ok(out)
    }
}

proof fn lemma_filter_one(x: Key, p: spec_fn(Key) -> bool)
    ensures
        seq![x].filter(p) == if p(x) {
            seq![x]
        } else {
            Seq::<Key>::empty()
        },
{
    reveal_with_fuel(Seq::<_>::filter, 2);
    let s = seq![x];
    assert(s.drop_last() =~= Seq::<Key>::empty());
    assert(s.last() == x);
    if p(x) {
        assert(s.filter(p) =~= seq![x]);
    }
}

} // verus!
