use vstd::prelude::*;
use crate::glyph::{
    cells, copy_glyph_range, end_glyph, glyph_ok, gs_next, gs_rank, lemma_cells_len, lemma_cells_push,
    lemma_paint_parts, lemma_render_len, lemma_render_step, lemma_tiles_order, lemma_tiles_push, paint,
    render, rep, scan_start, splice, tiles, trace, Glyph, GlyphScan, ScanState, ERR_HFB,
};
use crate::scan::{arg_at, header_at, Meas, Scan};
use std::collections::VecDeque;

verus! {

/// Largest value a span-header argument can hold.
pub const ARG_MAX: u16 = 32767;

/// Largest attribute code that a marker can carry.
pub const HFB_MAX: u16 = 6399;

/// One span record of a row log: the cells `[x, x + sx)`, the number of
/// units clipped off the left of its first glyph, and the bytes that
/// follow its header (UTF-8 text with attribute markers).
pub struct SpanRec {
    pub x: int,
    pub sx: int,
    pub shift: int,
    pub payload: Seq<u8>,
}

/// Header argument encoding: one byte below 128, else the high byte with
/// bit 7 set followed by the low byte.
pub open spec fn arg_bytes(v: int) -> Seq<u8> {
    if v >= 128 {
        seq![(v / 256 + 128) as u8, (v % 256) as u8]
    } else {
        seq![v as u8]
    }
}

/// Header of span `r` written when the previous span ended at `pos`.
pub open spec fn header_bytes(r: SpanRec, pos: int) -> Seq<u8> {
    if r.x == pos && r.shift == 0 {
        seq![0xFCu8] + arg_bytes(r.sx)
    } else if r.x == pos {
        seq![0xFDu8] + arg_bytes(r.shift) + arg_bytes(r.sx)
    } else if r.shift == 0 {
        seq![0xFEu8] + arg_bytes(r.x) + arg_bytes(r.sx)
    } else {
        seq![0xFFu8] + arg_bytes(r.shift) + arg_bytes(r.x) + arg_bytes(r.sx)
    }
}

/// Position following the last span record.
pub open spec fn end_pos(sp: Seq<SpanRec>) -> int {
    if sp.len() == 0 {
        0
    } else {
        sp.last().x + sp.last().sx
    }
}

/// The bytes of a row log holding the span records `sp` in order.
pub open spec fn encode(sp: Seq<SpanRec>) -> Seq<u8>
    decreases sp.len(),
{
    if sp.len() == 0 {
        Seq::<u8>::empty()
    } else {
        encode(sp.drop_last()) + header_bytes(sp.last(), end_pos(sp.drop_last()))
            + sp.last().payload
    }
}

pub open spec fn span_ok(r: SpanRec) -> bool {
    &&& 0 <= r.x <= ARG_MAX
    &&& 0 <= r.sx <= ARG_MAX
    &&& 0 <= r.shift <= ARG_MAX
}

/// Attribute code that a marker for `h` carries.
pub open spec fn hfb_code(h: u16) -> int {
    if h <= HFB_MAX {
        h as int
    } else {
        HFB_MAX as int
    }
}

/// UTF-8 bytes of the marker codepoint U+E000 + `h`, clamped to U+F8FF.
pub open spec fn marker_bytes(h: u16) -> Seq<u8> {
    let v = 0xE000 + hfb_code(h);
    seq![(0xE0 + v / 4096) as u8, (0x80 + v / 64 % 64) as u8, (0x80 + v % 64) as u8]
}

/// `sp` with `extra` appended to the payload of its last record.
pub open spec fn add_payload(sp: Seq<SpanRec>, extra: Seq<u8>) -> Seq<SpanRec> {
    sp.update(
        sp.len() - 1,
        SpanRec { x: sp.last().x, sx: sp.last().sx, shift: sp.last().shift, payload: sp.last().payload + extra },
    )
}

/// Header arguments read back as written.
pub proof fn lemma_arg_round_trip(v: int, rest: Seq<u8>)
    requires
        0 <= v <= ARG_MAX,
    ensures
        arg_at(arg_bytes(v) + rest, 0) == Some((v, arg_bytes(v).len() as int)),
{
    let s = arg_bytes(v) + rest;
    if v >= 128 {
        assert(s[0] == (v / 256 + 128) as u8);
        assert(s[1] == (v % 256) as u8);
    } else {
        assert(s[0] == v as u8);
    }
}

/// A span header reads back as the record's position, width and shift,
/// given the position where the previous span ended.
pub proof fn lemma_header_round_trip(r: SpanRec, pos: int, rest: Seq<u8>)
    requires
        span_ok(r),
    ensures
        header_at(header_bytes(r, pos) + rest, 0, pos) == Some(
            ((r.x, r.sx, r.shift), header_bytes(r, pos).len() as int),
        ),
{
    if r.x == pos && r.shift == 0 {
        lemma_header_fc(r, pos, rest);
    } else if r.x == pos {
        lemma_header_fd(r, pos, rest);
    } else if r.shift == 0 {
        lemma_header_fe(r, pos, rest);
    } else {
        lemma_header_ff(r, pos, rest);
    }
}

proof fn lemma_header_fc(r: SpanRec, pos: int, rest: Seq<u8>)
    requires
        span_ok(r),
        r.x == pos && r.shift == 0,
    ensures
        header_at(header_bytes(r, pos) + rest, 0, pos) == Some(
            ((r.x, r.sx, r.shift), header_bytes(r, pos).len() as int),
        ),
{
    let vs = seq![r.sx];
    lemma_args_bytes(vs);
    lemma_args_read(0xFC, vs, rest);
    assert(header_bytes(r, pos) =~= seq![0xFCu8] + args_bytes(vs));
}

proof fn lemma_header_fd(r: SpanRec, pos: int, rest: Seq<u8>)
    requires
        span_ok(r),
        r.x == pos && r.shift != 0,
    ensures
        header_at(header_bytes(r, pos) + rest, 0, pos) == Some(
            ((r.x, r.sx, r.shift), header_bytes(r, pos).len() as int),
        ),
{
    let vs = seq![r.shift, r.sx];
    lemma_args_bytes(vs);
    lemma_args_read(0xFD, vs, rest);
    assert(header_bytes(r, pos) =~= seq![0xFDu8] + args_bytes(vs));
}

proof fn lemma_header_fe(r: SpanRec, pos: int, rest: Seq<u8>)
    requires
        span_ok(r),
        r.x != pos && r.shift == 0,
    ensures
        header_at(header_bytes(r, pos) + rest, 0, pos) == Some(
            ((r.x, r.sx, r.shift), header_bytes(r, pos).len() as int),
        ),
{
    let vs = seq![r.x, r.sx];
    lemma_args_bytes(vs);
    lemma_args_read(0xFE, vs, rest);
    assert(header_bytes(r, pos) =~= seq![0xFEu8] + args_bytes(vs));
}

proof fn lemma_header_ff(r: SpanRec, pos: int, rest: Seq<u8>)
    requires
        span_ok(r),
        r.x != pos && r.shift != 0,
    ensures
        header_at(header_bytes(r, pos) + rest, 0, pos) == Some(
            ((r.x, r.sx, r.shift), header_bytes(r, pos).len() as int),
        ),
{
    let vs = seq![r.shift, r.x, r.sx];
    lemma_args_bytes(vs);
    lemma_args_read(0xFF, vs, rest);
    assert(header_bytes(r, pos) =~= seq![0xFFu8] + args_bytes(vs));
}

/// The argument bytes of one to three values, spelled out.
proof fn lemma_args_bytes(vs: Seq<int>)
    requires
        1 <= vs.len() <= 3,
    ensures
        vs.len() == 1 ==> args_bytes(vs) == arg_bytes(vs[0]),
        vs.len() == 2 ==> args_bytes(vs) == arg_bytes(vs[0]) + arg_bytes(vs[1]),
        vs.len() == 3 ==> args_bytes(vs) == arg_bytes(vs[0]) + arg_bytes(vs[1]) + arg_bytes(vs[2]),
{
    let v1 = vs.subrange(1, vs.len() as int);
    assert(args_bytes(vs) == arg_bytes(vs[0]) + args_bytes(v1));
    if vs.len() == 1 {
        assert(args_bytes(v1) == Seq::<u8>::empty());
        assert(args_bytes(vs) =~= arg_bytes(vs[0]));
    } else {
        let v2 = v1.subrange(1, v1.len() as int);
        assert(args_bytes(v1) == arg_bytes(v1[0]) + args_bytes(v2));
        if vs.len() == 2 {
            assert(args_bytes(v2) == Seq::<u8>::empty());
            assert(args_bytes(vs) =~= arg_bytes(vs[0]) + arg_bytes(vs[1]));
        } else {
            let v3 = v2.subrange(1, v2.len() as int);
            assert(args_bytes(v2) == arg_bytes(v2[0]) + args_bytes(v3));
            assert(args_bytes(v3) == Seq::<u8>::empty());
            assert(args_bytes(vs) =~= arg_bytes(vs[0]) + arg_bytes(vs[1]) + arg_bytes(vs[2]));
        }
    }
}

/// The bytes of the arguments `vs` in order.
pub open spec fn args_bytes(vs: Seq<int>) -> Seq<u8>
    decreases vs.len(),
{
    if vs.len() == 0 {
        Seq::<u8>::empty()
    } else {
        arg_bytes(vs[0]) + args_bytes(vs.subrange(1, vs.len() as int))
    }
}

/// After an opcode, the arguments read back one by one.
proof fn lemma_args_read(op: u8, vs: Seq<int>, rest: Seq<u8>)
    requires
        1 <= vs.len() <= 3,
        forall|k: int| 0 <= k < vs.len() ==> 0 <= #[trigger] vs[k] <= ARG_MAX,
    ensures
        ({
            let s = seq![op] + args_bytes(vs) + rest;
            let a0 = arg_bytes(vs[0]).len() as int;
            &&& arg_at(s, 1) == Some((vs[0], 1 + a0))
            &&& vs.len() >= 2 ==> arg_at(s, 1 + a0) == Some((vs[1], 1 + a0 + arg_bytes(vs[1]).len()))
            &&& vs.len() >= 3 ==> arg_at(s, 1 + a0 + arg_bytes(vs[1]).len()) == Some(
                (vs[2], 1 + a0 + arg_bytes(vs[1]).len() + arg_bytes(vs[2]).len()),
            )
            &&& (seq![op] + args_bytes(vs)).len() == 1 + a0 + (if vs.len() >= 2 {
                arg_bytes(vs[1]).len() as int
            } else {
                0
            }) + (if vs.len() >= 3 {
                arg_bytes(vs[2]).len() as int
            } else {
                0
            })
            &&& s[0] == op
        }),
{
    let s = seq![op] + args_bytes(vs) + rest;
    let v1 = vs.subrange(1, vs.len() as int);
    let a0 = arg_bytes(vs[0]);
    assert(args_bytes(vs) == a0 + args_bytes(v1));
    let t0 = args_bytes(vs) + rest;
    assert(s.subrange(1, s.len() as int) =~= a0 + (args_bytes(v1) + rest));
    lemma_arg_round_trip(vs[0], args_bytes(v1) + rest);
    lemma_arg_at_shift(s, 1, a0 + (args_bytes(v1) + rest));
    if vs.len() >= 2 {
        let v2 = v1.subrange(1, v1.len() as int);
        let a1 = arg_bytes(v1[0]);
        assert(args_bytes(v1) == a1 + args_bytes(v2));
        assert(s.subrange(1 + a0.len() as int, s.len() as int) =~= a1 + (args_bytes(v2) + rest));
        lemma_arg_round_trip(vs[1], args_bytes(v2) + rest);
        lemma_arg_at_shift(s, 1 + a0.len() as int, a1 + (args_bytes(v2) + rest));
        if vs.len() >= 3 {
            let v3 = v2.subrange(1, v2.len() as int);
            let a2 = arg_bytes(v2[0]);
            assert(args_bytes(v2) == a2 + args_bytes(v3));
            assert(v3.len() == 0);
            assert(args_bytes(v3) == Seq::<u8>::empty());
            assert(s.subrange(1 + a0.len() + a1.len() as int, s.len() as int) =~= a2 + rest);
            lemma_arg_round_trip(vs[2], rest);
            lemma_arg_at_shift(s, 1 + a0.len() + a1.len() as int, a2 + rest);
        } else {
            assert(v2.len() == 0);
            assert(args_bytes(v2) == Seq::<u8>::empty());
        }
    } else {
        assert(v1.len() == 0);
        assert(args_bytes(v1) == Seq::<u8>::empty());
    }
}

/// Reading an argument at `i` of `s` is reading it at 0 of what follows `i`.
proof fn lemma_arg_at_shift(s: Seq<u8>, i: int, t: Seq<u8>)
    requires
        0 <= i <= s.len(),
        t == s.subrange(i, s.len() as int),
    ensures
        match arg_at(t, 0) {
            Some((v, j)) => arg_at(s, i) == Some((v, i + j)),
            None => arg_at(s, i) is None,
        },
{
    if t.len() > 0 {
        assert(t[0] == s[i]);
    }
    if t.len() > 1 {
        assert(t[1] == s[i + 1]);
    }
}

pub proof fn lemma_encode_add_payload(sp: Seq<SpanRec>, extra: Seq<u8>)
    requires
        sp.len() > 0,
    ensures
        encode(add_payload(sp, extra)) == encode(sp) + extra,
        end_pos(add_payload(sp, extra)) == end_pos(sp),
        add_payload(sp, extra).len() == sp.len(),
        forall|i: int| 0 <= i < sp.len() - 1 ==> add_payload(sp, extra)[i] == sp[i],
{
    let sp2 = add_payload(sp, extra);
    assert(sp2.drop_last() =~= sp.drop_last());
    assert(encode(sp2) =~= encode(sp) + extra);
}

pub proof fn lemma_encode_push(sp: Seq<SpanRec>, r: SpanRec)
    ensures
        encode(sp.push(r)) == encode(sp) + header_bytes(r, end_pos(sp)) + r.payload,
        end_pos(sp.push(r)) == r.x + r.sx,
{
    assert(sp.push(r).drop_last() =~= sp);
}

/// A row of the display.
///
/// `data` is an append log of span records (see `encode`).  Updates are
/// appended and later folded back into a single left-to-right form by
/// normalisation.  A span header starts with a byte FC-FF, which is
/// invalid UTF-8:
///
///     FC            sx utf-8-text...
///     FD shift      sx utf-8-text...
///     FE       xpos sx utf-8-text...
///     FF shift xpos sx utf-8-text...
///
/// Where `xpos` is omitted the span follows on from the previous one.
pub(crate) struct Row {
    /// Is the row currently normalized?
    pub(crate) normal: bool,
    /// Position following the most recently appended span
    pub(crate) pos: u16,
    /// The span log
    pub(crate) data: Vec<u8>,
    /// The span records that `data` holds
    pub(crate) spans: Ghost<Seq<SpanRec>>,
}

impl Row {
    pub(crate) open spec fn wf(&self) -> bool {
        &&& self.data@ == encode(self.spans@)
        &&& self.pos == end_pos(self.spans@)
        &&& forall|i: int| 0 <= i < self.spans@.len() ==> span_ok(#[trigger] self.spans@[i])
    }

    /// Create a row holding a single span of width `width` in colour `hfb`.
    pub(crate) fn new(width: u16, hfb: u16) -> (r: Self)
        requires
            width <= ARG_MAX,
        ensures
            r.wf(),
            r.normal,
            r.spans@ == seq![SpanRec { x: 0, sx: width as int, shift: 0, payload: marker_bytes(hfb) }],
    {
        let mut this = Self { normal: true, pos: 0, data: Vec::new(), spans: Ghost(Seq::empty()) };
        this.span(0, width, 0);
        this.hfb(hfb);
        this.normal = true;
        assert(Seq::<u8>::empty() + marker_bytes(hfb) =~= marker_bytes(hfb));
        assert(this.spans@ =~= seq![SpanRec { x: 0, sx: width as int, shift: 0, payload: marker_bytes(hfb) }]);
        this
    }

    /// Empty the log; the caller rewrites the whole line afterwards.
    pub(crate) fn replace_all(&mut self)
        ensures
            final(self).wf(),
            final(self).normal,
            final(self).spans@ == Seq::<SpanRec>::empty(),
    {
        self.data.clear();
        self.normal = true;
        self.pos = 0;
        self.spans = Ghost(Seq::empty());
        assert(self.data@ =~= encode(self.spans@));
    }

    /// Start a span at `x` of width `sx`, with `shift` units clipped off
    /// the left of its first glyph.
    pub(crate) fn span(&mut self, x: u16, sx: u16, shift: u16)
        requires
            old(self).wf(),
            x <= ARG_MAX,
            sx <= ARG_MAX,
            shift <= ARG_MAX,
        ensures
            final(self).wf(),
            !final(self).normal,
            final(self).spans@ == old(self).spans@.push(
                SpanRec { x: x as int, sx: sx as int, shift: shift as int, payload: Seq::empty() },
            ),
    {
        let ghost r = SpanRec { x: x as int, sx: sx as int, shift: shift as int, payload: Seq::empty() };
        let ghost d0 = self.data@;
        if x == self.pos {
            if shift == 0 {
                self.data.push(0xFC);
            } else {
                self.data.push(0xFD);
                self.arg(shift);
            }
        } else {
            if shift == 0 {
                self.data.push(0xFE);
                self.arg(x);
            } else {
                self.data.push(0xFF);
                self.arg(shift);
                self.arg(x);
            }
        }
        self.arg(sx);
        self.pos = x + sx;
        self.normal = false;
        proof {
            lemma_encode_push(old(self).spans@, r);
            assert(self.data@ =~= d0 + header_bytes(r, end_pos(old(self).spans@)) + r.payload);
        }
        self.spans = Ghost(self.spans@.push(r));
    }

    /// Append a colour-change marker (U+E000 + hfb, at most U+F8FF).
    pub(crate) fn hfb(&mut self, hfb: u16)
        requires
            old(self).wf(),
            old(self).spans@.len() > 0,
        ensures
            final(self).wf(),
            final(self).normal == old(self).normal,
            final(self).spans@ == add_payload(old(self).spans@, marker_bytes(hfb)),
    {
        let h: u32 = if hfb <= HFB_MAX {
            hfb as u32
        } else {
            HFB_MAX as u32
        };
        let v: u32 = 0xE000 + h;
        self.data.push((0xE0 + v / 4096) as u8);
        self.data.push((0x80 + v / 64 % 64) as u8);
        self.data.push((0x80 + v % 64) as u8);
        proof {
            lemma_encode_add_payload(old(self).spans@, marker_bytes(hfb));
            assert(self.data@ =~= old(self).data@ + marker_bytes(hfb));
        }
        self.spans = Ghost(add_payload(self.spans@, marker_bytes(hfb)));
    }

    /// Append a header argument (0..=32767).
    fn arg(&mut self, val: u16)
        requires
            val <= ARG_MAX,
        ensures
            final(self).data@ == old(self).data@ + arg_bytes(val as int),
            final(self).pos == old(self).pos,
            final(self).normal == old(self).normal,
            final(self).spans == old(self).spans,
    {
        if val >= 128 {
            self.data.push((val / 256) as u8 + 128);
            self.data.push((val % 256) as u8);
        } else {
            self.data.push(val as u8);
        }
        assert(self.data@ =~= old(self).data@ + arg_bytes(val as int));
    }

    /// Append `text[from..to]` to the payload of the current span.
    pub(crate) fn add_slice(&mut self, text: &[u8], from: usize, to: usize)
        requires
            old(self).wf(),
            old(self).spans@.len() > 0,
            from <= to <= text@.len(),
        ensures
            final(self).wf(),
            final(self).normal == old(self).normal,
            final(self).spans@ == add_payload(old(self).spans@, text@.subrange(from as int, to as int)),
    {
        let mut i = from;
        while i < to
            invariant
                from <= i <= to <= text@.len(),
                self.data@ == old(self).data@ + text@.subrange(from as int, i as int),
                self.pos == old(self).pos,
                self.normal == old(self).normal,
                self.spans == old(self).spans,
            decreases to - i,
        {
            self.data.push(text[i]);
            i += 1;
            assert(self.data@ =~= old(self).data@ + text@.subrange(from as int, i as int));
        }
        proof {
            lemma_encode_add_payload(old(self).spans@, text@.subrange(from as int, to as int));
        }
        self.spans = Ghost(add_payload(self.spans@, text@.subrange(from as int, to as int)));
    }
}

/// The span records `sp` lie side by side from 0 to `w`; none is empty
/// unless the width is 0, where records can only be empty.
pub open spec fn covers(sp: Seq<SpanRec>, w: int) -> bool {
    &&& end_pos(sp) == w
    &&& sp.len() > 0 ==> sp[0].x == 0
    &&& forall|i: int| 0 <= i < sp.len() ==> (#[trigger] sp[i]).sx >= 1 || w == 0
    &&& forall|i: int| 0 <= i < sp.len() - 1 ==> #[trigger] sp[i].x + sp[i].sx == sp[i + 1].x
}

pub proof fn lemma_covers_push(sp: Seq<SpanRec>, r: SpanRec, a: int)
    requires
        covers(sp, a),
        r.x == a,
        r.sx >= 1,
        sp.len() == 0 || a > 0,
    ensures
        covers(sp.push(r), a + r.sx),
{
    let sp2 = sp.push(r);
    assert(forall|i: int| 0 <= i < sp.len() ==> sp2[i] == sp[i]);
    assert forall|i: int| 0 <= i < sp2.len() - 1 implies #[trigger] sp2[i].x + sp2[i].sx == sp2[i + 1].x by {
        if i < sp.len() - 1 {
            assert(sp[i].x + sp[i].sx == sp[i + 1].x);
        }
    }
}

pub proof fn lemma_covers_add_payload(sp: Seq<SpanRec>, extra: Seq<u8>, a: int)
    requires
        covers(sp, a),
        sp.len() > 0,
    ensures
        covers(add_payload(sp, extra), a),
{
    let sp2 = add_payload(sp, extra);
    assert(forall|i: int| 0 <= i < sp.len() ==> sp2[i].x == sp[i].x && sp2[i].sx == sp[i].sx);
    assert forall|i: int| 0 <= i < sp2.len() - 1 implies #[trigger] sp2[i].x + sp2[i].sx == sp2[i + 1].x by {
        assert(sp[i].x + sp[i].sx == sp[i + 1].x);
    }
}

/// Where a merge starts: the background, one padding glyph over the whole
/// width in the error colour; nothing merged yet; at column 0.
pub open spec fn merge_start(w: int) -> (Seq<Glyph>, Seq<Glyph>, int) {
    (
        if w > 0 {
            seq![Glyph { x: 0, sx: w as u16, shift: 0, hfb: ERR_HFB, len: 0, wid: 0, off: 0 }]
        } else {
            Seq::empty()
        },
        Seq::empty(),
        0,
    )
}

/// One glyph `g` of the trace merged into the state (background, line so
/// far, column): a glyph left of the column finishes the line from the
/// background, which becomes the new background; the cells up to `g` come
/// from the background; then `g`.
pub open spec fn merge_step(st: (Seq<Glyph>, Seq<Glyph>, int), g: Glyph, w: int) -> (
    Seq<Glyph>,
    Seq<Glyph>,
    int,
) {
    let g1 = st.0;
    let g2 = st.1;
    let x = st.2;
    let a = if x > g.x {
        if x < w {
            (g2 + splice(g1, x, w).0, Seq::<Glyph>::empty(), 0int)
        } else {
            (g2, Seq::<Glyph>::empty(), 0int)
        }
    } else {
        (g1, g2, x)
    };
    let b = if a.2 < g.x {
        (splice(a.0, a.2, g.x as int).1, a.1 + splice(a.0, a.2, g.x as int).0)
    } else {
        (a.0, a.1)
    };
    (b.0, b.1.push(g), g.x + g.sx)
}

/// The merge state after the glyphs `t` in order.
pub open spec fn merge_fold(t: Seq<Glyph>, w: int) -> (Seq<Glyph>, Seq<Glyph>, int)
    decreases t.len(),
{
    if t.len() == 0 {
        merge_start(w)
    } else {
        merge_step(merge_fold(t.drop_last(), w), t.last(), w)
    }
}

/// The side-by-side glyphs that merging the trace `t` over width `w`
/// gives: the line so far, finished from the background.
pub open spec fn merged(t: Seq<Glyph>, w: int) -> Seq<Glyph> {
    let st = merge_fold(t, w);
    if st.2 < w {
        st.1 + splice(st.0, st.2, w).0
    } else {
        st.1
    }
}

/// Fold the glyphs of the log `data` for a row of width `sx`, in log
/// order, into side-by-side glyphs over `[0, sx)` in `glyphs2`, each cell
/// showing the last glyph that covers it.  `glyphs1` is scratch space.
#[verifier::rlimit(60)]
fn merge_glyphs(data: &[u8], sx: u16, glyphs1: &mut VecDeque<Glyph>, glyphs2: &mut VecDeque<Glyph>)
    requires
        sx <= ARG_MAX,
    ensures
        tiles(final(glyphs2)@, 0, sx as int, sx as int, data@.len() as int),
        cells(final(glyphs2)@, data@) == render(trace(data@, sx as int, scan_start()), data@, sx as int),
        final(glyphs2)@ == merged(trace(data@, sx as int, scan_start()), sx as int),
{
    let ghost w = sx as int;
    let ghost d = data@;
    let ghost t = trace(d, w, scan_start());
    let dlen = data.len();
    glyphs1.clear();
    if sx > 0 {
        glyphs1.push_back(Glyph { x: 0, sx, shift: 0, hfb: ERR_HFB, len: 0, wid: 0, off: 0 });
    }
    glyphs2.clear();
    let mut x: u16 = 0;
    let ghost mut st: int = 0;
    let ghost mut k: int = 0;
    let mut scan = GlyphScan::new(data, sx);
    proof {
        assert(tiles(glyphs1@, 0, w, w, dlen as int));
        lemma_render_len(t.subrange(0, 0), d, w);
        if sx > 0 {
            assert(glyphs1@.subrange(1, 1) =~= Seq::<Glyph>::empty());
            assert(cells(Seq::<Glyph>::empty(), d) == Seq::<(u16, Seq<u8>)>::empty());
            assert(d.subrange(0, 0) =~= Seq::<u8>::empty());
            assert(cells(glyphs1@, d) =~= render(t.subrange(0, 0), d, w));
        } else {
            assert(cells(glyphs1@, d) =~= render(t.subrange(0, 0), d, w));
        }
        assert(cells(glyphs2@, d) =~= render(t.subrange(0, 0), d, w).subrange(0, 0));
        assert(t.subrange(0, t.len() as int) =~= t);
    }
    loop
        invariant_except_break
            trace(d, w, scan.view()) == t.subrange(k, t.len() as int),
        invariant
            scan.wf(),
            scan.sx == sx,
            scan.p.data == data,
            d == data@,
            dlen == d.len(),
            sx <= ARG_MAX,
            w == sx,
            x <= sx,
            st <= x,
            0 <= k <= t.len(),
            t == trace(d, w, scan_start()),
            tiles(glyphs1@, st, w, w, dlen as int),
            tiles(glyphs2@, 0, x as int, w, dlen as int),
            render(t.subrange(0, k), d, w).len() == w,
            (glyphs1@, glyphs2@, x as int) == merge_fold(t.subrange(0, k), w),
            cells(glyphs2@, d) == render(t.subrange(0, k), d, w).subrange(0, x as int),
            cells(glyphs1@, d).subrange(x - st, w - st) == render(t.subrange(0, k), d, w).subrange(x as int, w),
        ensures
            tiles(glyphs2@, 0, x as int, w, dlen as int),
            tiles(glyphs1@, st, w, w, dlen as int),
            st <= x <= sx,
            k == t.len(),
            cells(glyphs2@, d) == render(t, d, w).subrange(0, x as int),
            cells(glyphs1@, d).subrange(x - st, w - st) == render(t, d, w).subrange(x as int, w),
            render(t, d, w).len() == w,
            (glyphs1@, glyphs2@, x as int) == merge_fold(t, w),
        decreases scan.rank(),
    {
        let ghost pre = scan.view();
        let g = scan.next();
        proof {
            lemma_trace_next(d, w, pre, g, scan.view(), t, k - 1);
        }
        if g.x >= sx {
            proof {
                assert(t.subrange(0, k) =~= t);
            }
            break;
        }
        let ghost r0 = render(t.subrange(0, k), d, w);
        let ghost ms0 = merge_fold(t.subrange(0, k), w);
        proof {
            lemma_render_step(t, k, d, w);
            lemma_tiles_order(glyphs1@, st, w, w, dlen as int);
            lemma_cells_len(glyphs1@, st, w, w, dlen as int, d);
            lemma_cells_len(glyphs2@, 0, x as int, w, dlen as int, d);
        }
        if x > g.x {
            if x < sx {
                copy_glyph_range(x, sx, glyphs1, glyphs2, Ghost(w), Ghost(dlen as int), Ghost(st), Ghost(d));
                proof {
                    assert(r0.subrange(0, x as int) + r0.subrange(x as int, w) =~= r0);
                }
            } else {
                assert(r0.subrange(0, x as int) =~= r0);
            }
            proof {
                lemma_cells_len(glyphs2@, 0, w, w, dlen as int, d);
            }
            core::mem::swap(glyphs1, glyphs2);
            x = 0;
            proof {
                st = 0;
                assert(cells(glyphs1@, d).subrange(0, w) =~= r0);
            }
            glyphs2.clear();
            proof {
                assert(cells(glyphs2@, d) =~= r0.subrange(0, 0));
            }
        }
        if x < g.x {
            let ghost c2 = cells(glyphs2@, d);
            let ghost c1 = cells(glyphs1@, d);
            copy_glyph_range(x, g.x, glyphs1, glyphs2, Ghost(w), Ghost(dlen as int), Ghost(st), Ghost(d));
            proof {
                let s2 = choose|s2: int|
                    s2 <= g.x && tiles(glyphs1@, s2, w, w, dlen as int) && #[trigger] cells(glyphs1@, d).subrange(
                        g.x - s2,
                        w - s2,
                    ) == c1.subrange(g.x - st, w - st);
                assert(c1.subrange(x - st, g.x - st) =~= r0.subrange(x as int, g.x as int)) by {
                    assert(c1.subrange(x - st, w - st).subrange(0, g.x - x) =~= c1.subrange(x - st, g.x - st));
                    assert(r0.subrange(x as int, w).subrange(0, g.x - x) =~= r0.subrange(x as int, g.x as int));
                }
                assert(c1.subrange(g.x - st, w - st) =~= r0.subrange(g.x as int, w)) by {
                    assert(c1.subrange(x - st, w - st).subrange(g.x - x, w - x) =~= c1.subrange(g.x - st, w - st));
                    assert(r0.subrange(x as int, w).subrange(g.x - x, w - x) =~= r0.subrange(g.x as int, w));
                }
                assert(cells(glyphs2@, d) =~= r0.subrange(0, g.x as int));
                st = s2;
            }
        } else {
            assert(x == g.x);
        }
        let ghost r1 = paint(r0, g, d);
        proof {
            lemma_paint_parts(r0, g, d);
            lemma_tiles_push(glyphs2@, g, 0, g.x as int, w, dlen as int);
            lemma_cells_push(glyphs2@, g, d);
            assert(cells(glyphs2@, d) + rep(g, d, g.sx as int) =~= r1.subrange(0, g.x + g.sx));
            lemma_cells_len(glyphs1@, st, w, w, dlen as int, d);
            assert(cells(glyphs1@, d).subrange(g.x + g.sx - st, w - st) =~= r1.subrange(g.x + g.sx, w)) by {
                assert(cells(glyphs1@, d).subrange(g.x - st, w - st).subrange(g.sx as int, w - g.x) =~= cells(
                    glyphs1@,
                    d,
                ).subrange(g.x + g.sx - st, w - st));
                assert(r0.subrange(g.x as int, w).subrange(g.sx as int, w - g.x) =~= r0.subrange(g.x + g.sx, w));
            }
            lemma_render_len(t.subrange(0, k + 1), d, w);
        }
        glyphs2.push_back(g);
        x = g.x + g.sx;
        proof {
            assert(t.subrange(0, k + 1).drop_last() =~= t.subrange(0, k));
            assert(t[k] == g);
            assert(merge_fold(t.subrange(0, k + 1), w) == merge_step(ms0, g, w));
            assert((glyphs1@, glyphs2@, x as int) == merge_step(ms0, g, w));
            k = k + 1;
        }
    }
    if x < sx {
        copy_glyph_range(x, sx, glyphs1, glyphs2, Ghost(w), Ghost(dlen as int), Ghost(st), Ghost(d));
        proof {
            let r = render(t, d, w);
            assert(r.subrange(0, x as int) + r.subrange(x as int, w) =~= r);
        }
    } else {
        proof {
            assert(render(t, d, w).subrange(0, x as int) =~= render(t, d, w));
        }
    }
}

/// Glyph `e` joins the record of the glyph before it: that one fills its
/// natural width and `e` is not shifted.
pub open spec fn joins(g: Seq<Glyph>, e: int) -> bool {
    g[e - 1].wid + g[e - 1].shift == g[e - 1].sx && g[e].shift == 0
}

/// End of the record whose glyphs run on from `e - 1`.
pub open spec fn group_end(g: Seq<Glyph>, e: int) -> int
    decreases g.len() - e,
{
    if 1 <= e < g.len() && joins(g, e) {
        group_end(g, e + 1)
    } else {
        e
    }
}

/// The payload of glyphs `i..end` of `g` with the colour `h` in force
/// (0x10000 for none): a colour change before each glyph whose colour
/// differs, then its bytes from `d`.
pub open spec fn emit(g: Seq<Glyph>, d: Seq<u8>, i: int, end: int, h: int) -> Seq<u8>
    decreases end - i,
{
    if i >= end || i < 0 {
        Seq::empty()
    } else {
        (if g[i].hfb != h {
            marker_bytes(g[i].hfb)
        } else {
            Seq::empty()
        }) + d.subrange(g[i].off as int, g[i].off + g[i].len) + emit(g, d, i + 1, end, g[i].hfb as int)
    }
}

/// The span records that write the side-by-side glyphs `g` from index `i`
/// on, with colour `h` in force, for a row of width `w`.
pub open spec fn serialize(g: Seq<Glyph>, d: Seq<u8>, i: int, h: int, w: int) -> Seq<SpanRec>
    decreases g.len() - i,
{
    if i < 0 || i >= g.len() {
        Seq::empty()
    } else {
        let e = group_end(g, i + 1);
        if i < e <= g.len() {
            seq![
                SpanRec {
                    x: g[i].x as int,
                    sx: (if e < g.len() {
                        g[e].x as int
                    } else {
                        w
                    }) - g[i].x,
                    shift: g[i].shift as int,
                    payload: emit(g, d, i, e, h),
                },
            ] + serialize(g, d, e, g[e - 1].hfb as int, w)
        } else {
            Seq::empty()
        }
    }
}

/// `sp` are the records that write, left to right, side-by-side glyphs
/// over `[0, w)` that show exactly what painting the glyphs of the log
/// `log` in order shows: the normal form of that log.
pub open spec fn normal_form(sp: Seq<SpanRec>, log: Seq<u8>, w: int) -> bool {
    let g = merged(trace(log, w, scan_start()), w);
    &&& tiles(g, 0, w, w, log.len() as int)
    &&& cells(g, log) == render(trace(log, w, scan_start()), log, w)
    &&& sp == serialize(g, log, 0, 0x10000, w)
}

proof fn lemma_group_end(g: Seq<Glyph>, e: int)
    requires
        1 <= e <= g.len(),
    ensures
        e <= group_end(g, e) <= g.len(),
    decreases g.len() - e,
{
    if 1 <= e < g.len() && joins(g, e) {
        lemma_group_end(g, e + 1);
    }
}

proof fn lemma_add_payload_twice(sp: Seq<SpanRec>, a: Seq<u8>, b: Seq<u8>)
    requires
        sp.len() > 0,
    ensures
        add_payload(add_payload(sp, a), b) == add_payload(sp, a + b),
{
    assert(sp.last().payload + a + b =~= sp.last().payload + (a + b));
    assert(add_payload(add_payload(sp, a), b) =~= add_payload(sp, a + b));
}

impl Row {
    /// Fold all updates of the row, if it is not in normal form, into a
    /// single left-to-right sequence of non-overlapping spans covering
    /// `[0, sx)`.  The deques and `spare` are scratch space.
    pub(crate) fn normalize(
        &mut self,
        sx: u16,
        glyphs1: &mut VecDeque<Glyph>,
        glyphs2: &mut VecDeque<Glyph>,
        spare: &mut Vec<u8>,
    )
        requires
            old(self).wf(),
            sx <= ARG_MAX,
        ensures
            final(self).wf(),
            final(self).normal,
            old(self).normal ==> final(self).spans@ == old(self).spans@ && final(self).data@ == old(
                self,
            ).data@,
            !old(self).normal ==> covers(final(self).spans@, sx as int),
            !old(self).normal ==> normal_form(final(self).spans@, old(self).data@, sx as int),
    {
        if self.normal {
            return;
        }
        let dlen = self.data.len();
        merge_glyphs(self.data.as_slice(), sx, glyphs1, glyphs2);
        // Write the glyphs back as a fresh log
        core::mem::swap(spare, &mut self.data);
        assert(spare@.len() == dlen);
        self.replace_all();
        self.write_glyphs(glyphs2, spare.as_slice(), sx);
        assert(tiles(glyphs2@, 0, sx as int, sx as int, old(self).data@.len() as int));
        self.normal = true;
    }

    /// Append the bytes of glyphs `gi..end` to the current span record,
    /// with a colour change before each glyph whose colour differs from
    /// the one in force (`hfb`, 0x10000 for none).  Returns the colour then
    /// in force.
    fn emit_glyphs(
        &mut self,
        gvec: &VecDeque<Glyph>,
        data: &[u8],
        gi: usize,
        end: usize,
        hfb: u32,
        Ghost(x): Ghost<int>,
        Ghost(w): Ghost<int>,
    ) -> (r: u32)
        requires
            old(self).wf(),
            old(self).spans@.len() > 0,
            gi <= end <= gvec@.len(),
            forall|i: int| gi <= i < end ==> glyph_ok(#[trigger] gvec@[i], w, data@.len() as int),
            covers(old(self).spans@, x),
            hfb <= 0x10000,
        ensures
            final(self).wf(),
            final(self).normal == old(self).normal,
            final(self).spans@.len() > 0,
            covers(final(self).spans@, x),
            final(self).spans@ == add_payload(
                old(self).spans@,
                emit(gvec@, data@, gi as int, end as int, hfb as int),
            ),
            r == (if gi < end {
                gvec@[end - 1].hfb as u32
            } else {
                hfb
            }),
    {
        let mut i = gi;
        let mut h = hfb;
        let dl = data.len();
        let ghost sp0 = self.spans@;
        let ghost total = emit(gvec@, data@, gi as int, end as int, hfb as int);
        let ghost mut done = Seq::<u8>::empty();
        proof {
            assert(add_payload(sp0, Seq::<u8>::empty()) =~= sp0);
            assert(done + total =~= total);
        }
        while i < end
            invariant
                dl == data@.len(),
                self.wf(),
                self.normal == old(self).normal,
                self.spans@.len() > 0,
                gi <= i <= end <= gvec@.len(),
                forall|k: int| gi <= k < end ==> glyph_ok(#[trigger] gvec@[k], w, data@.len() as int),
                covers(self.spans@, x),
                sp0.len() > 0,
                h <= 0x10000,
                self.spans@ == add_payload(sp0, done),
                done + emit(gvec@, data@, i as int, end as int, h as int) == total,
                h == (if gi < i {
                    gvec@[i - 1].hfb as u32
                } else {
                    hfb
                }),
            decreases end - i,
        {
            let gl = gvec[i];
            assert(glyph_ok(gvec@[i as int], w, data@.len() as int));
            let ghost hprev = h as int;
            let ghost bytes = data@.subrange(gl.off as int, gl.off + gl.len);
            let ghost mark = if gl.hfb != hprev {
                marker_bytes(gl.hfb)
            } else {
                Seq::<u8>::empty()
            };
            proof {
                assert(emit(gvec@, data@, i as int, end as int, hprev) == mark + bytes + emit(
                    gvec@,
                    data@,
                    i + 1,
                    end as int,
                    gl.hfb as int,
                ));
            }
            i += 1;
            if gl.hfb as u32 != h {
                h = gl.hfb as u32;
                proof {
                    lemma_covers_add_payload(self.spans@, marker_bytes(gl.hfb), x);
                    lemma_add_payload_twice(sp0, done, mark);
                }
                self.hfb(gl.hfb);
            } else {
                proof {
                    assert(done + mark =~= done);
                }
                h = gl.hfb as u32;
            }
            proof {
                lemma_covers_add_payload(self.spans@, bytes, x);
                lemma_add_payload_twice(sp0, done + mark, bytes);
            }
            self.add_slice(data, gl.off, gl.off + gl.len as usize);
            proof {
                assert(done + mark + bytes + emit(gvec@, data@, i as int, end as int, h as int) =~= done + emit(
                    gvec@,
                    data@,
                    i - 1,
                    end as int,
                    hprev,
                ));
                done = done + mark + bytes;
            }
        }
        proof {
            assert(emit(gvec@, data@, end as int, end as int, h as int) == Seq::<u8>::empty());
            assert(done =~= total);
        }
        h
    }

    /// Write glyphs that lie side by side over `[0, sx)` as span records,
    /// taking their bytes from `data`.  Glyphs join one record while each
    /// fills its natural width and the next is not shifted.
    #[verifier::rlimit(50)]
    fn write_glyphs(&mut self, gvec: &VecDeque<Glyph>, data: &[u8], sx: u16)
        requires
            old(self).wf(),
            old(self).spans@ == Seq::<SpanRec>::empty(),
            sx <= ARG_MAX,
            tiles(gvec@, 0, sx as int, sx as int, data@.len() as int),
        ensures
            final(self).wf(),
            covers(final(self).spans@, sx as int),
            final(self).spans@ == serialize(gvec@, data@, 0, 0x10000, sx as int),
    {
        let ghost w = sx as int;
        let ghost dlen = data@.len() as int;
        let ghost whole = serialize(gvec@, data@, 0, 0x10000, w);
        proof {
            assert(Seq::<SpanRec>::empty() + whole =~= whole);
        }
        let glen = gvec.len();
        let mut gi: usize = 0;
        let mut hfb: u32 = 0x10000;
        let mut x: u16 = 0;
        proof {
            lemma_tiles_order(gvec@, 0, w, w, dlen);
        }
        while gi < glen
            invariant
                self.wf(),
                glen == gvec@.len(),
                sx <= ARG_MAX,
                w == sx,
                dlen == data@.len(),
                gi <= glen,
                tiles(gvec@, 0, w, w, dlen),
                forall|i: int| 0 <= i < glen ==> 0 <= #[trigger] gvec@[i].x && gvec@[i].x + gvec@[i].sx <= w,
                gi < glen ==> gvec@[gi as int].x == x,
                gi == glen ==> x == w,
                covers(self.spans@, x as int),
                x == 0 ==> self.spans@.len() == 0,
                hfb <= 0x10000,
                self.spans@ + serialize(gvec@, data@, gi as int, hfb as int, w) == whole,
            decreases glen - gi,
        {
            let (end, ssx) = span_end(gvec, gi, x, Ghost(w), Ghost(dlen));
            proof {
                lemma_group_end(gvec@, gi + 1);
            }
            let ghost rec = SpanRec {
                x: x as int,
                sx: ssx as int,
                shift: gvec@[gi as int].shift as int,
                payload: emit(gvec@, data@, gi as int, end as int, hfb as int),
            };
            assert(serialize(gvec@, data@, gi as int, hfb as int, w) == seq![rec] + serialize(
                gvec@,
                data@,
                end as int,
                gvec@[end - 1].hfb as int,
                w,
            ));
            assert(glyph_ok(gvec@[gi as int], w, dlen));
            let ghost x_before = x as int;
            let ghost sp0 = self.spans@;
            self.span(x, ssx, gvec[gi].shift);
            proof {
                lemma_covers_push(sp0, self.spans@.last(), x_before);
            }
            x = x + ssx;
            let ghost h_before = hfb as int;
            hfb = self.emit_glyphs(gvec, data, gi, end, hfb, Ghost(x as int), Ghost(w));
            proof {
                let r0 = SpanRec { x: x_before, sx: ssx as int, shift: gvec@[gi as int].shift as int, payload: Seq::empty() };
                assert(Seq::<u8>::empty() + rec.payload =~= rec.payload);
                assert(add_payload(sp0.push(r0), rec.payload) =~= sp0.push(rec));
                assert(sp0.push(rec) + serialize(gvec@, data@, end as int, hfb as int, w) =~= sp0 + (seq![rec]
                    + serialize(gvec@, data@, end as int, hfb as int, w)));
            }
            gi = end;
        }
    }
}

/// End of the span record that starts at glyph `gi` (at position `x`),
/// and its width: glyphs join while each fills its natural width and the
/// next one is not shifted.
fn span_end(gvec: &VecDeque<Glyph>, gi: usize, x: u16, Ghost(w): Ghost<int>, Ghost(dlen): Ghost<int>) -> (r: (usize, u16))
    requires
        gi < gvec@.len(),
        w <= ARG_MAX,
        tiles(gvec@, 0, w, w, dlen),
        forall|i: int| 0 <= i < gvec@.len() ==> 0 <= #[trigger] gvec@[i].x && gvec@[i].x + gvec@[i].sx <= w,
        gvec@[gi as int].x == x,
    ensures
        gi < r.0 <= gvec@.len(),
        r.0 == group_end(gvec@, gi + 1),
        r.1 >= 1,
        x + r.1 == (if r.0 < gvec@.len() {
            gvec@[r.0 as int].x as int
        } else {
            w
        }),
{
    let glen = gvec.len();
    let mut end = gi + 1;
    let mut ssx: u16 = gvec[gi].sx;
    assert(glyph_ok(gvec@[gi as int], w, dlen));
    while end < glen && gvec[end - 1].wid + gvec[end - 1].shift == gvec[end - 1].sx && gvec[end].shift
        == 0
        invariant
            gi < end <= glen,
            glen == gvec@.len(),
            tiles(gvec@, 0, w, w, dlen),
            forall|i: int| 0 <= i < glen ==> 0 <= #[trigger] gvec@[i].x && gvec@[i].x + gvec@[i].sx <= w,
            gvec@[gi as int].x == x,
            ssx == gvec@[end - 1].x + gvec@[end - 1].sx - x,
            ssx >= 1,
            w <= ARG_MAX,
            group_end(gvec@, end as int) == group_end(gvec@, gi + 1),
        decreases glen - end,
    {
        assert(gvec@[end - 1].x + gvec@[end - 1].sx == gvec@[end as int].x);
        assert(glyph_ok(gvec@[end - 1], w, dlen));
        assert(glyph_ok(gvec@[end as int], w, dlen));
        ssx = ssx + gvec[end].sx;
        end += 1;
    }
    if end < glen {
        assert(gvec@[end - 1].x + gvec@[end - 1].sx == gvec@[end as int].x);
    } else {
        assert(gvec@.last() == gvec@[end - 1]);
    }
    (end, ssx)
}

/// A run of cells to redraw: position, width, units clipped off the
/// left, colour and the UTF-8 bytes of the glyph (empty for padding).
pub struct Change {
    pub x: u16,
    pub sx: u16,
    pub shift: u16,
    pub hfb: u16,
    pub text: Vec<u8>,
}

/// A change of at least one cell within `[0, w)`, whose text is one glyph
/// (1 to 4 bytes) or nothing (padding).
pub open spec fn change_ok(c: Change, w: int) -> bool {
    &&& 1 <= c.sx
    &&& c.x + c.sx <= w
    &&& c.text@.len() <= 4
    &&& c.text@.len() > 0 ==> c.sx == 1
}

impl Change {
    /// The change as plain values: position, width, shift, colour, bytes.
    pub open spec fn parts(&self) -> (u16, u16, u16, u16, Seq<u8>) {
        (self.x, self.sx, self.shift, self.hfb, self.text@)
    }
}

/// Glyph `i` of the trace `t`, or the end glyph past its end.
pub open spec fn glyph_at(t: Seq<Glyph>, i: int, w: int) -> Glyph {
    if 0 <= i < t.len() {
        t[i]
    } else {
        end_glyph(w)
    }
}

/// Two glyphs agree in every field and in their bytes.
pub open spec fn same_glyph(a: Glyph, ad: Seq<u8>, b: Glyph, bd: Seq<u8>) -> bool {
    a.hfb == b.hfb && a.x == b.x && a.sx == b.sx && a.shift == b.shift && a.len == b.len && a.wid
        == b.wid && ad.subrange(a.off as int, a.off + a.len) == bd.subrange(b.off as int, b.off + b.len)
}

/// The change that redraws glyph `g` of a log `d`.
pub open spec fn change_of(g: Glyph, d: Seq<u8>) -> (u16, u16, u16, u16, Seq<u8>) {
    (g.x, g.sx, g.shift, g.hfb, d.subrange(g.off as int, g.off + g.len))
}

/// The changes from glyph `i0` of the old trace `t0` and glyph `i1` of the
/// new trace `t1` on: walking both in step, an old glyph left of the new
/// one is passed over, equal glyphs are passed over together, and any
/// other new glyph is a change.
pub open spec fn diff_from(
    t0: Seq<Glyph>,
    d0: Seq<u8>,
    t1: Seq<Glyph>,
    d1: Seq<u8>,
    w: int,
    i0: int,
    i1: int,
) -> Seq<(u16, u16, u16, u16, Seq<u8>)>
    decreases (t0.len() - i0) + (t1.len() - i1),
{
    if !(0 <= i0 <= t0.len() && 0 <= i1 <= t1.len()) {
        Seq::empty()
    } else {
        let g0 = glyph_at(t0, i0, w);
        let g1 = glyph_at(t1, i1, w);
        if !(g0.x < w || g1.x < w) {
            Seq::empty()
        } else if g0.x < g1.x {
            if i0 < t0.len() {
                diff_from(t0, d0, t1, d1, w, i0 + 1, i1)
            } else {
                Seq::empty()
            }
        } else if same_glyph(g0, d0, g1, d1) {
            if i0 < t0.len() && i1 < t1.len() {
                diff_from(t0, d0, t1, d1, w, i0 + 1, i1 + 1)
            } else {
                Seq::empty()
            }
        } else {
            if i1 < t1.len() {
                seq![change_of(g1, d1)] + diff_from(t0, d0, t1, d1, w, i0, i1 + 1)
            } else {
                Seq::empty()
            }
        }
    }
}

/// The changes that take a row whose log is `old` to one whose log is
/// `new`, both of width `w`: none where the logs are equal, else the
/// glyphs of `new` that differ from those of `old` where they stand.
pub open spec fn row_changes(old: Seq<u8>, new: Seq<u8>, w: int) -> Seq<
    (u16, u16, u16, u16, Seq<u8>),
> {
    if old == new {
        Seq::empty()
    } else {
        diff_from(trace(old, w, scan_start()), old, trace(new, w, scan_start()), new, w, 0, 0)
    }
}

/// The changes from `(i0, i1)` on are glyphs of the new trace `t1` from
/// `i1` on, each taken at most once and in trace order.
pub proof fn lemma_diff_from_new(
    t0: Seq<Glyph>,
    d0: Seq<u8>,
    t1: Seq<Glyph>,
    d1: Seq<u8>,
    w: int,
    i0: int,
    i1: int,
)
    requires
        0 <= i0 <= t0.len(),
        0 <= i1 <= t1.len(),
    ensures
        exists|js: Seq<int>|
            #![trigger js.len()]
            js.len() == diff_from(t0, d0, t1, d1, w, i0, i1).len() && (forall|k: int|
                0 <= k < js.len() ==> i1 <= #[trigger] js[k] < t1.len() && diff_from(
                    t0,
                    d0,
                    t1,
                    d1,
                    w,
                    i0,
                    i1,
                )[k] == change_of(t1[js[k]], d1)) && (forall|k: int, l: int|
                0 <= k < l < js.len() ==> #[trigger] js[k] < #[trigger] js[l]),
    decreases (t0.len() - i0) + (t1.len() - i1),
{
    let d = diff_from(t0, d0, t1, d1, w, i0, i1);
    let g0 = glyph_at(t0, i0, w);
    let g1 = glyph_at(t1, i1, w);
    if !(g0.x < w || g1.x < w) {
        let js = Seq::<int>::empty();
        assert(js.len() == d.len());
    } else if g0.x < g1.x {
        if i0 < t0.len() {
            lemma_diff_from_new(t0, d0, t1, d1, w, i0 + 1, i1);
        } else {
            let js = Seq::<int>::empty();
            assert(js.len() == d.len());
        }
    } else if same_glyph(g0, d0, g1, d1) {
        if i0 < t0.len() && i1 < t1.len() {
            lemma_diff_from_new(t0, d0, t1, d1, w, i0 + 1, i1 + 1);
            let js = choose|js: Seq<int>|
                #![trigger js.len()]
                js.len() == diff_from(t0, d0, t1, d1, w, i0 + 1, i1 + 1).len() && (forall|k: int|
                    0 <= k < js.len() ==> i1 + 1 <= #[trigger] js[k] < t1.len() && diff_from(
                        t0,
                        d0,
                        t1,
                        d1,
                        w,
                        i0 + 1,
                        i1 + 1,
                    )[k] == change_of(t1[js[k]], d1)) && (forall|k: int, l: int|
                    0 <= k < l < js.len() ==> #[trigger] js[k] < #[trigger] js[l]);
            assert(js.len() == d.len());
        } else {
            let js = Seq::<int>::empty();
            assert(js.len() == d.len());
        }
    } else {
        if i1 < t1.len() {
            lemma_diff_from_new(t0, d0, t1, d1, w, i0, i1 + 1);
            let rest = diff_from(t0, d0, t1, d1, w, i0, i1 + 1);
            let js0 = choose|js: Seq<int>|
                #![trigger js.len()]
                js.len() == rest.len() && (forall|k: int|
                    0 <= k < js.len() ==> i1 + 1 <= #[trigger] js[k] < t1.len() && rest[k] == change_of(
                        t1[js[k]],
                        d1,
                    )) && (forall|k: int, l: int| 0 <= k < l < js.len() ==> #[trigger] js[k] < #[trigger] js[l]);
            let js = seq![i1] + js0;
            assert(d == seq![change_of(g1, d1)] + rest);
            assert forall|k: int| 0 <= k < js.len() implies i1 <= #[trigger] js[k] < t1.len() && d[k]
                == change_of(t1[js[k]], d1) by {
                if k > 0 {
                    assert(js[k] == js0[k - 1]);
                }
            }
            assert forall|k: int, l: int| 0 <= k < l < js.len() implies #[trigger] js[k] < #[trigger] js[l] by {
                if k > 0 {
                    assert(js[k] == js0[k - 1] && js[l] == js0[l - 1]);
                } else {
                    assert(js[l] == js0[l - 1]);
                }
            }
            assert(js.len() == d.len());
        } else {
            let js = Seq::<int>::empty();
            assert(js.len() == d.len());
        }
    }
}

/// The changes between two row logs are glyphs of the new log's scan,
/// each with its own bytes, taken in scan order: none is made up.
pub proof fn lemma_changes_from_new_scan(old: Seq<u8>, new: Seq<u8>, w: int)
    ensures
        exists|js: Seq<int>|
            #![trigger js.len()]
            js.len() == row_changes(old, new, w).len() && (forall|k: int|
                0 <= k < js.len() ==> 0 <= #[trigger] js[k] < trace(new, w, scan_start()).len()
                    && row_changes(old, new, w)[k] == change_of(trace(new, w, scan_start())[js[k]], new))
                && (forall|k: int, l: int| 0 <= k < l < js.len() ==> #[trigger] js[k] < #[trigger] js[l]),
{
    if old == new {
        let js = Seq::<int>::empty();
        assert(js.len() == row_changes(old, new, w).len());
    } else {
        lemma_diff_from_new(trace(old, w, scan_start()), old, trace(new, w, scan_start()), new, w, 0, 0);
    }
}

/// Whether two byte sequences are equal.
fn same_bytes(a: &[u8], b: &[u8]) -> (r: bool)
    ensures
        r == (a@ == b@),
{
    if a.len() != b.len() {
        return false;
    }
    let mut i: usize = 0;
    while i < a.len()
        invariant
            a@.len() == b@.len(),
            i <= a@.len(),
            forall|k: int| 0 <= k < i ==> a@[k] == b@[k],
        decreases a@.len() - i,
    {
        if a[i] != b[i] {
            return false;
        }
        i += 1;
    }
    assert(a@ =~= b@);
    true
}

impl Row {
    /// The glyphs that differ between `self` (as displayed) and `new`, in
    /// order, each with its bytes from `new`.
    #[verifier::rlimit(60)]
    pub(crate) fn difference(&self, new: &Row, sx: u16) -> (r: Vec<Change>)
        requires
            sx <= ARG_MAX,
        ensures
            self.data@ == new.data@ ==> r@.len() == 0,
            forall|i: int| 0 <= i < r@.len() ==> #[trigger] change_ok(r@[i], sx as int),
            r@.len() == row_changes(self.data@, new.data@, sx as int).len(),
            forall|i: int|
                0 <= i < r@.len() ==> #[trigger] r@[i].parts() == row_changes(
                    self.data@,
                    new.data@,
                    sx as int,
                )[i],
    {
        let mut out: Vec<Change> = Vec::new();
        if same_bytes(self.data.as_slice(), new.data.as_slice()) {
            return out;
        }
        let adata = self.data.as_slice();
        let bdata = new.data.as_slice();
        let ghost w = sx as int;
        let ghost t0 = trace(adata@, w, scan_start());
        let ghost t1 = trace(bdata@, w, scan_start());
        let ghost whole = diff_from(t0, adata@, t1, bdata@, w, 0, 0);
        assert(whole == row_changes(self.data@, new.data@, sx as int));
        let mut s0 = GlyphScan::new(adata, sx);
        let mut s1 = GlyphScan::new(bdata, sx);
        proof {
            assert(t0.subrange(0, t0.len() as int) =~= t0);
            assert(t1.subrange(0, t1.len() as int) =~= t1);
        }
        let ghost pre0 = s0.view();
        let mut g0 = s0.next();
        proof {
            lemma_trace_next(adata@, w, pre0, g0, s0.view(), t0, -1);
        }
        let ghost pre1 = s1.view();
        let mut g1 = s1.next();
        proof {
            lemma_trace_next(bdata@, w, pre1, g1, s1.view(), t1, -1);
        }
        let ghost mut i0: int = 0;
        let ghost mut i1: int = 0;
        let ghost mut done: Seq<(u16, u16, u16, u16, Seq<u8>)> = Seq::empty();
        let bl = bdata.len();
        while g0.x < sx || g1.x < sx
            invariant
                bl == bdata@.len(),
                w == sx,
                sx <= ARG_MAX,
                g0.off + g0.len <= adata@.len(),
                g1.off + g1.len <= bdata@.len(),
                s0.wf(),
                s1.wf(),
                s0.sx == sx,
                s1.sx == sx,
                s0.p.data == adata,
                s1.p.data == bdata,
                g0.x >= sx ==> g0.x == sx,
                g1.x >= sx ==> g1.x == sx,
                g0.x < sx ==> glyph_ok(g0, sx as int, adata@.len() as int),
                g1.x < sx ==> glyph_ok(g1, sx as int, bdata@.len() as int),
                forall|i: int| 0 <= i < out@.len() ==> #[trigger] change_ok(out@[i], sx as int),
                tracks(t0, i0, g0, adata@, w, s0.view()),
                tracks(t1, i1, g1, bdata@, w, s1.view()),
                done + diff_from(t0, adata@, t1, bdata@, w, i0, i1) == whole,
                out@.len() == done.len(),
                forall|k: int| 0 <= k < out@.len() ==> #[trigger] out@[k].parts() == done[k],
            decreases s0.rank() + s1.rank() + (if g0.x < sx {
                1int
            } else {
                0
            }) + (if g1.x < sx {
                1int
            } else {
                0
            }),
        {
            assert(glyph_at(t0, i0, w).x == g0.x);
            assert(glyph_at(t1, i1, w).x == g1.x);
            if g0.x < g1.x {
                let ghost pre = s0.view();
                g0 = s0.next();
                proof {
                    lemma_trace_next(adata@, w, pre, g0, s0.view(), t0, i0);
                    i0 = i0 + 1;
                }
            } else if Glyph::equal(&g0, adata, &g1, bdata) {
                assert(same_glyph(glyph_at(t0, i0, w), adata@, glyph_at(t1, i1, w), bdata@));
                let ghost pre = s0.view();
                g0 = s0.next();
                proof {
                    lemma_trace_next(adata@, w, pre, g0, s0.view(), t0, i0);
                    i0 = i0 + 1;
                }
                let ghost pre = s1.view();
                g1 = s1.next();
                proof {
                    lemma_trace_next(bdata@, w, pre, g1, s1.view(), t1, i1);
                    i1 = i1 + 1;
                }
            } else {
                assert(!same_glyph(glyph_at(t0, i0, w), adata@, glyph_at(t1, i1, w), bdata@));
                let mut text: Vec<u8> = Vec::new();
                let mut i = g1.off;
                while i < g1.off + g1.len as usize
                    invariant
                        bl == bdata@.len(),
                        g1.off <= i <= g1.off + g1.len <= bdata@.len(),
                        text@ == bdata@.subrange(g1.off as int, i as int),
                    decreases g1.off + g1.len - i,
                {
                    text.push(bdata[i]);
                    i += 1;
                    assert(text@ =~= bdata@.subrange(g1.off as int, i as int));
                }
                let c = Change { x: g1.x, sx: g1.sx, shift: g1.shift, hfb: g1.hfb, text };
                proof {
                    assert(c.parts() == change_of(glyph_at(t1, i1, w), bdata@));
                    assert(done.push(c.parts()) + diff_from(t0, adata@, t1, bdata@, w, i0, i1 + 1) =~= done
                        + diff_from(t0, adata@, t1, bdata@, w, i0, i1));
                    done = done.push(c.parts());
                }
                out.push(c);
                let ghost pre = s1.view();
                g1 = s1.next();
                proof {
                    lemma_trace_next(bdata@, w, pre, g1, s1.view(), t1, i1);
                    i1 = i1 + 1;
                }
            }
        }
        proof {
            assert(diff_from(t0, adata@, t1, bdata@, w, i0, i1) == Seq::<(u16, u16, u16, u16, Seq<u8>)>::empty());
            assert(done =~= whole);
        }
        out
    }
}

/// Glyph `g` stands at index `i` of the trace `t` of `d`, and the scan
/// state `st` yields the rest of it; or `g` is the end glyph and `i` the
/// trace's length.
pub open spec fn tracks(t: Seq<Glyph>, i: int, g: Glyph, d: Seq<u8>, w: int, st: ScanState) -> bool {
    &&& 0 <= i <= t.len()
    &&& g.x < w ==> i < t.len() && t[i] == g && trace(d, w, st) == t.subrange(i + 1, t.len() as int)
    &&& g.x >= w ==> i == t.len()
}

/// One more glyph of a scan extends what it tracks by one.
pub(crate) proof fn lemma_trace_next(d: Seq<u8>, w: int, pre: ScanState, g: Glyph, post: ScanState, t: Seq<Glyph>, i: int)
    requires
        -1 <= i < t.len(),
        trace(d, w, pre) == t.subrange(i + 1, t.len() as int),
        (g, post) == gs_next(d, w, pre),
        g.x >= w ==> g.x == w,
        g.x < w ==> 0 <= gs_rank(d, post) < gs_rank(d, pre),
    ensures
        tracks(t, i + 1, g, d, w, post),
{
    let rest = t.subrange(i + 1, t.len() as int);
    if g.x < w {
        assert(trace(d, w, pre) == seq![g] + trace(d, w, post));
        assert(rest[0] == t[i + 1]);
        assert(t.subrange(i + 2, t.len() as int) =~= rest.subrange(1, rest.len() as int));
        assert((seq![g] + trace(d, w, post)).subrange(1, rest.len() as int) =~= trace(d, w, post));
    } else {
        assert(trace(d, w, pre) == Seq::<Glyph>::empty());
    }
}

} // verus!
