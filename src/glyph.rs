use vstd::prelude::*;
use crate::row::ARG_MAX;
use crate::scan::{header_at, lemma_step_progress, step, Meas, Scan};
use std::collections::VecDeque;

verus! {

/// Attribute used for background that normalisation failed to cover
/// (bright yellow on red), so that any such cell stands out.
pub const ERR_HFB: u16 = 162;

/// One glyph placement while normalising or comparing rows.
#[derive(Clone, Copy)]
pub struct Glyph {
    /// Colour code
    pub hfb: u16,
    /// X-position at which the glyph appears
    pub x: u16,
    /// Width of the cells in which it appears
    pub sx: u16,
    /// Units clipped off its left
    pub shift: u16,
    /// Length of its bytes in the log, or 0 for padding
    pub len: u16,
    /// Natural width, or 0 for padding
    pub wid: u16,
    /// Offset of its bytes in the log, or 0 for padding
    pub off: usize,
}

/// A glyph that lies within `[0, w)` and whose bytes lie within a log of
/// `dlen` bytes.
pub open spec fn glyph_ok(g: Glyph, w: int, dlen: int) -> bool {
    &&& 1 <= g.sx
    &&& g.x + g.sx <= w
    &&& g.shift == 0
    &&& g.off + g.len <= dlen
    &&& g.len > 0 ==> g.sx == 1 && g.wid == 1 && g.len <= 4
    &&& g.len == 0 ==> g.wid == 0
}

/// `gs` lies side by side from `a` to `b`, each glyph within `[0, w)`.
pub open spec fn tiles(gs: Seq<Glyph>, a: int, b: int, w: int, dlen: int) -> bool {
    &&& gs.len() == 0 ==> a == b
    &&& gs.len() > 0 ==> gs[0].x == a && gs.last().x + gs.last().sx == b
    &&& forall|i: int| 0 <= i < gs.len() ==> glyph_ok(#[trigger] gs[i], w, dlen)
    &&& forall|i: int| 0 <= i < gs.len() - 1 ==> #[trigger] gs[i].x + gs[i].sx == gs[i + 1].x
}

pub(crate) proof fn lemma_tiles_order(gs: Seq<Glyph>, a: int, b: int, w: int, dlen: int)
    requires
        tiles(gs, a, b, w, dlen),
    ensures
        a <= b,
        gs.len() > 0 ==> a < b,
        forall|i: int| 0 <= i < gs.len() ==> a <= #[trigger] gs[i].x && gs[i].x + gs[i].sx <= b,
    decreases gs.len(),
{
    if gs.len() > 0 {
        let rest = gs.subrange(1, gs.len() as int);
        let a1 = gs[0].x + gs[0].sx;
        assert(glyph_ok(gs[0], w, dlen));
        if rest.len() > 0 {
            assert(rest[0] == gs[1]);
            assert(gs[0].x + gs[0].sx == gs[1].x);
        }
        assert(forall|i: int| 0 <= i < rest.len() ==> #[trigger] rest[i] == gs[i + 1]);
        assert forall|i: int| 0 <= i < rest.len() - 1 implies #[trigger] rest[i].x + rest[i].sx == rest[i + 1].x by {
            assert(gs[i + 1].x + gs[i + 1].sx == gs[i + 2].x);
        }
        assert(tiles(rest, a1, b, w, dlen));
        lemma_tiles_order(rest, a1, b, w, dlen);
        assert forall|i: int| 0 <= i < gs.len() implies a <= #[trigger] gs[i].x && gs[i].x + gs[i].sx <= b by {
            if i > 0 {
                assert(rest[i - 1] == gs[i]);
            }
        }
    }
}

pub(crate) proof fn lemma_tiles_push(gs: Seq<Glyph>, g: Glyph, a: int, b: int, w: int, dlen: int)
    requires
        tiles(gs, a, b, w, dlen),
        glyph_ok(g, w, dlen),
        g.x == b,
    ensures
        tiles(gs.push(g), a, g.x + g.sx, w, dlen),
{
    let gs2 = gs.push(g);
    assert forall|i: int| 0 <= i < gs2.len() - 1 implies #[trigger] gs2[i].x + gs2[i].sx == gs2[i + 1].x by {
        if i < gs.len() - 1 {
            assert(gs2[i] == gs[i] && gs2[i + 1] == gs[i + 1]);
        }
    }
    assert forall|i: int| 0 <= i < gs2.len() implies glyph_ok(#[trigger] gs2[i], w, dlen) by {
        if i < gs.len() {
            assert(gs2[i] == gs[i]);
        }
    }
}

pub(crate) proof fn lemma_tiles_pop_front(gs: Seq<Glyph>, a: int, b: int, w: int, dlen: int)
    requires
        tiles(gs, a, b, w, dlen),
        gs.len() > 0,
    ensures
        tiles(gs.subrange(1, gs.len() as int), gs[0].x + gs[0].sx, b, w, dlen),
{
    let rest = gs.subrange(1, gs.len() as int);
    assert(forall|i: int| 0 <= i < rest.len() ==> #[trigger] rest[i] == gs[i + 1]);
    if rest.len() > 0 {
        assert(gs[0].x + gs[0].sx == gs[1].x);
    }
    assert forall|i: int| 0 <= i < rest.len() - 1 implies #[trigger] rest[i].x + rest[i].sx == rest[i + 1].x by {
        assert(gs[i + 1].x + gs[i + 1].sx == gs[i + 2].x);
    }
}

pub(crate) proof fn lemma_tiles_push_front(gs: Seq<Glyph>, g: Glyph, a: int, b: int, w: int, dlen: int)
    requires
        tiles(gs, a, b, w, dlen),
        glyph_ok(g, w, dlen),
        g.x + g.sx == a,
    ensures
        tiles(seq![g] + gs, g.x as int, b, w, dlen),
{
    let gs2 = seq![g] + gs;
    assert(forall|i: int| 0 < i < gs2.len() ==> #[trigger] gs2[i] == gs[i - 1]);
    assert forall|i: int| 0 <= i < gs2.len() - 1 implies #[trigger] gs2[i].x + gs2[i].sx == gs2[i + 1].x by {
        if i > 0 {
            assert(gs[i - 1].x + gs[i - 1].sx == gs[i].x);
        }
    }
    assert forall|i: int| 0 <= i < gs2.len() implies glyph_ok(#[trigger] gs2[i], w, dlen) by {
        if i > 0 {
            assert(gs2[i] == gs[i - 1]);
        }
    }
    if gs.len() > 0 {
        assert(gs2.last() == gs.last());
    }
}

/// What a glyph shows in each of its cells: its colour and its bytes in
/// the log `d` (none for padding, which shows spaces).
pub open spec fn cell_of(g: Glyph, d: Seq<u8>) -> (u16, Seq<u8>) {
    (g.hfb, d.subrange(g.off as int, g.off + g.len))
}

/// `n` cells showing glyph `g`.
pub open spec fn rep(g: Glyph, d: Seq<u8>, n: int) -> Seq<(u16, Seq<u8>)> {
    Seq::new(if n > 0 { n as nat } else { 0 }, |k: int| cell_of(g, d))
}

/// The cells that the side-by-side glyphs `gs` show, left to right.
pub open spec fn cells(gs: Seq<Glyph>, d: Seq<u8>) -> Seq<(u16, Seq<u8>)>
    decreases gs.len(),
{
    if gs.len() == 0 {
        Seq::empty()
    } else {
        rep(gs[0], d, gs[0].sx as int) + cells(gs.subrange(1, gs.len() as int), d)
    }
}

pub(crate) proof fn lemma_cells_push(gs: Seq<Glyph>, g: Glyph, d: Seq<u8>)
    ensures
        cells(gs.push(g), d) == cells(gs, d) + rep(g, d, g.sx as int),
    decreases gs.len(),
{
    let gs2 = gs.push(g);
    if gs.len() == 0 {
        assert(gs2.subrange(1, gs2.len() as int) =~= Seq::<Glyph>::empty());
        assert(cells(Seq::<Glyph>::empty(), d) == Seq::<(u16, Seq<u8>)>::empty());
        assert(cells(gs2, d) =~= rep(g, d, g.sx as int));
    } else {
        let rest = gs.subrange(1, gs.len() as int);
        assert(gs2.subrange(1, gs2.len() as int) =~= rest.push(g));
        lemma_cells_push(rest, g, d);
        assert(cells(gs2, d) =~= cells(gs, d) + rep(g, d, g.sx as int));
    }
}

pub(crate) proof fn lemma_cells_len(gs: Seq<Glyph>, a: int, b: int, w: int, dlen: int, d: Seq<u8>)
    requires
        tiles(gs, a, b, w, dlen),
    ensures
        cells(gs, d).len() == b - a,
    decreases gs.len(),
{
    if gs.len() > 0 {
        lemma_tiles_pop_front(gs, a, b, w, dlen);
        assert(glyph_ok(gs[0], w, dlen));
        lemma_cells_len(gs.subrange(1, gs.len() as int), gs[0].x + gs[0].sx, b, w, dlen, d);
    }
}

/// `cs` with the cells that glyph `g` covers showing `g`.
pub open spec fn paint(cs: Seq<(u16, Seq<u8>)>, g: Glyph, d: Seq<u8>) -> Seq<(u16, Seq<u8>)> {
    Seq::new(cs.len(), |k: int| if g.x <= k < g.x + g.sx { cell_of(g, d) } else { cs[k] })
}

/// The cells of a row of width `w` after painting the glyphs `t` of the
/// log `d` in order over a background that no glyph should survive.
pub open spec fn render(t: Seq<Glyph>, d: Seq<u8>, w: int) -> Seq<(u16, Seq<u8>)>
    decreases t.len(),
{
    if t.len() == 0 {
        Seq::new(if w > 0 { w as nat } else { 0 }, |k: int| (ERR_HFB, Seq::<u8>::empty()))
    } else {
        paint(render(t.drop_last(), d, w), t.last(), d)
    }
}

pub(crate) proof fn lemma_render_len(t: Seq<Glyph>, d: Seq<u8>, w: int)
    requires
        w >= 0,
    ensures
        render(t, d, w).len() == w,
    decreases t.len(),
{
    if t.len() > 0 {
        lemma_render_len(t.drop_last(), d, w);
    }
}

/// Painting one more glyph of a trace.
pub(crate) proof fn lemma_render_step(t: Seq<Glyph>, k: int, d: Seq<u8>, w: int)
    requires
        0 <= k < t.len(),
    ensures
        render(t.subrange(0, k + 1), d, w) == paint(render(t.subrange(0, k), d, w), t[k], d),
{
    assert(t.subrange(0, k + 1).drop_last() =~= t.subrange(0, k));
}

/// What painting `g` leaves on either side of it and shows under it.
pub(crate) proof fn lemma_paint_parts(cs: Seq<(u16, Seq<u8>)>, g: Glyph, d: Seq<u8>)
    requires
        g.x + g.sx <= cs.len(),
    ensures
        paint(cs, g, d).len() == cs.len(),
        paint(cs, g, d).subrange(0, g.x as int) == cs.subrange(0, g.x as int),
        paint(cs, g, d).subrange(g.x as int, g.x + g.sx) == rep(g, d, g.sx as int),
        paint(cs, g, d).subrange(g.x + g.sx, cs.len() as int) == cs.subrange(g.x + g.sx, cs.len() as int),
{
    let p = paint(cs, g, d);
    assert(p.subrange(0, g.x as int) =~= cs.subrange(0, g.x as int));
    assert(p.subrange(g.x as int, g.x + g.sx) =~= rep(g, d, g.sx as int));
    assert(p.subrange(g.x + g.sx, cs.len() as int) =~= cs.subrange(g.x + g.sx, cs.len() as int));
}

/// Cutting `adj` cells off the front of a glyph leaves the rest of what
/// it showed.
pub(crate) proof fn lemma_cells_cut(cf: Seq<(u16, Seq<u8>)>, g0: Glyph, g: Glyph, rest: Seq<(u16, Seq<u8>)>, d: Seq<u8>, adj: int)
    requires
        cf == rep(g0, d, g0.sx as int) + rest,
        0 <= adj < g0.sx,
        g.sx == g0.sx - adj,
        cell_of(g, d) == cell_of(g0, d),
    ensures
        cf.subrange(adj, cf.len() as int) == rep(g, d, g.sx as int) + rest,
{
    assert(cf.subrange(adj, cf.len() as int) =~= rep(g, d, g.sx as int) + rest);
}

/// Appending the first `n` cells of what remains extends what was taken.
pub(crate) proof fn lemma_cells_take(
    taken: Seq<(u16, Seq<u8>)>,
    t0: Seq<(u16, Seq<u8>)>,
    f0: Seq<(u16, Seq<u8>)>,
    a: int,
    b: int,
    c: int,
    more: Seq<(u16, Seq<u8>)>,
)
    requires
        0 <= a <= b <= c <= f0.len(),
        taken == t0 + f0.subrange(a, b),
        more == f0.subrange(b, c),
    ensures
        taken + more == t0 + f0.subrange(a, c),
{
    assert(taken + more =~= t0 + f0.subrange(a, c));
}

/// Glyph `g` with the cells before `x0` cut off its front: it moves right
/// and narrows, and a glyph with text records the cut as shift.
pub open spec fn front_trim(g: Glyph, x0: int) -> Glyph {
    if g.x < x0 {
        let adj = x0 - g.x;
        Glyph {
            x: (g.x + adj) as u16,
            sx: (g.sx - adj) as u16,
            shift: if g.len != 0 {
                (g.shift + adj) as u16
            } else {
                g.shift
            },
            ..g
        }
    } else {
        g
    }
}

/// Splicing the cells `[x0, x1)` off the front of `from`: the glyphs that
/// cover them, in order, the first cut at `x0` and the last cut at `x1`;
/// and what stays on `from`, a glyph cut at `x1` first (uncut on the
/// right), then the rest.
pub open spec fn splice(from: Seq<Glyph>, x0: int, x1: int) -> (Seq<Glyph>, Seq<Glyph>)
    decreases from.len(),
{
    if from.len() == 0 {
        (Seq::empty(), Seq::empty())
    } else {
        let g = from[0];
        let rest = from.subrange(1, from.len() as int);
        if g.x + g.sx <= x0 {
            splice(rest, x0, x1)
        } else {
            let g1 = front_trim(g, x0);
            if g1.x + g1.sx > x1 {
                (seq![Glyph { sx: (x1 - g1.x) as u16, ..g1 }], seq![g1] + rest)
            } else if g1.x + g1.sx >= x1 {
                (seq![g1], rest)
            } else {
                (seq![g1] + splice(rest, x0, x1).0, splice(rest, x0, x1).1)
            }
        }
    }
}

/// Move the cells `[x0, x1)` from the front of `from` to the back of `to`,
/// like splicing film.  A glyph cut at `x0` loses its front; one cut at
/// `x1` loses its end, and stays on `from` for later ranges.
#[verifier::rlimit(100)]
#[verifier::spinoff_prover]
pub(crate) fn copy_glyph_range(
    x0: u16,
    x1: u16,
    from: &mut VecDeque<Glyph>,
    to: &mut VecDeque<Glyph>,
    Ghost(w): Ghost<int>,
    Ghost(dlen): Ghost<int>,
    Ghost(s): Ghost<int>,
    Ghost(d): Ghost<Seq<u8>>,
)
    requires
        x0 < x1 <= w <= ARG_MAX,
        s <= x0,
        tiles(old(from)@, s, w, w, dlen),
        tiles(old(to)@, 0, x0 as int, w, dlen),
        d.len() == dlen,
    ensures
        final(to)@ == old(to)@ + splice(old(from)@, x0 as int, x1 as int).0,
        final(from)@ == splice(old(from)@, x0 as int, x1 as int).1,
        tiles(final(to)@, 0, x1 as int, w, dlen),
        cells(final(to)@, d) == cells(old(to)@, d) + cells(old(from)@, d).subrange(x0 - s, x1 - s),
        exists|s2: int|
            s2 <= x1 && tiles(final(from)@, s2, w, w, dlen) && #[trigger] cells(final(from)@, d).subrange(
                x1 - s2,
                w - s2,
            ) == cells(old(from)@, d).subrange(x1 - s, w - s),
{
    let ghost mut st = s;
    let ghost mut cur = x0 as int;
    let ghost f0 = cells(from@, d);
    let ghost t0 = cells(to@, d);
    proof {
        lemma_cells_len(from@, s, w, w, dlen, d);
    }
    loop
        invariant
            x0 < x1 <= w <= ARG_MAX,
            x0 <= cur < x1,
            st <= cur,
            cur == x0 || st == cur,
            s <= x0,
            d.len() == dlen,
            f0.len() == w - s,
            f0 == cells(old(from)@, d),
            t0 == cells(old(to)@, d),
            tiles(from@, st, w, w, dlen),
            tiles(to@, 0, cur, w, dlen),
            cells(to@, d) == t0 + f0.subrange(x0 - s, cur - s),
            cells(from@, d).subrange(cur - st, w - st) == f0.subrange(cur - s, w - s),
            cells(from@, d).len() == w - st,
            to@ + splice(from@, x0 as int, x1 as int).0 == old(to)@ + splice(old(from)@, x0 as int, x1 as int).0,
            splice(from@, x0 as int, x1 as int).1 == splice(old(from)@, x0 as int, x1 as int).1,
        decreases from@.len(),
    {
        proof {
            lemma_tiles_order(from@, st, w, w, dlen);
        }
        let ghost fs = from@;
        let ghost cf = cells(from@, d);
        match from.pop_front() {
            None => {
                assert(false);
                return;
            },
            Some(g0) => {
                let mut g = g0;
                let ghost rest = cells(from@, d);
                let ghost sp_before = splice(fs, x0 as int, x1 as int);
                let ghost tail = from@;
                assert(fs[0] == g0);
                assert(fs.subrange(1, fs.len() as int) == tail);
                proof {
                    lemma_tiles_pop_front(fs, st, w, w, dlen);
                    assert(glyph_ok(fs[0], w, dlen));
                    assert(cf == rep(g0, d, g0.sx as int) + rest);
                    lemma_cells_len(from@, g0.x + g0.sx, w, w, dlen, d);
                }
                if g.x + g.sx <= x0 {
                    proof {
                        assert(rest.subrange(cur - (g0.x + g0.sx), w - (g0.x + g0.sx)) =~= cf.subrange(cur - st, w - st));
                        st = g.x + g.sx;
                    }
                } else {
                    if g.x < x0 {
                        let adj = x0 - g.x;
                        g.x = g.x + adj;
                        g.sx = g.sx - adj;
                        if g.len != 0 {
                            g.shift = g.shift + adj;
                        }
                    }
                    assert(glyph_ok(g, w, dlen));
                    assert(g.x == cur);
                    proof {
                        lemma_cells_cut(cf, g0, g, rest, d, cur - st);
                    }
                    let ghost here = rep(g, d, g.sx as int) + rest;
                    assert(here == f0.subrange(cur - s, w - s));
                    if g.x + g.sx > x1 {
                        proof {
                            lemma_tiles_push_front(from@, g, g.x + g.sx, w, w, dlen);
                            assert((seq![g] + from@).subrange(1, from@.len() as int + 1) =~= from@);
                            assert(cells(seq![g] + from@, d) == rep(g, d, g.sx as int) + cells(from@, d));
                        }
                        from.push_front(g);
                        g.sx = x1 - g.x;
                        proof {
                            lemma_cells_push(to@, g, d);
                            assert(rep(g, d, g.sx as int) =~= here.subrange(0, x1 - cur));
                            assert(here.subrange(0, x1 - cur) =~= f0.subrange(cur - s, x1 - s));
                            lemma_cells_take(cells(to@, d), t0, f0, x0 - s, cur - s, x1 - s, rep(g, d, g.sx as int));
                            lemma_tiles_push(to@, g, 0, cur, w, dlen);
                            assert(cells(from@, d).subrange(x1 - cur, w - cur) =~= here.subrange(x1 - cur, w - cur));
                            assert(here.subrange(x1 - cur, w - cur) =~= f0.subrange(x1 - s, w - s));
                        }
                        let ghost to_before = to@;
                        to.push_back(g);
                        proof {
                            assert(to@ == to_before.push(g));
                            assert(cells(to@, d) == t0 + f0.subrange(x0 - s, x1 - s));
                            assert(tiles(from@, cur, w, w, dlen));
                            assert(cells(from@, d).subrange(x1 - cur, w - cur) == f0.subrange(x1 - s, w - s));
                        }
                        return;
                    }
                    proof {
                        lemma_tiles_push(to@, g, 0, cur, w, dlen);
                        lemma_cells_push(to@, g, d);
                        assert(rep(g, d, g.sx as int) =~= here.subrange(0, g.sx as int));
                        assert(here.subrange(0, g.sx as int) =~= f0.subrange(cur - s, g.x + g.sx - s));
                        lemma_cells_take(cells(to@, d), t0, f0, x0 - s, cur - s, g.x + g.sx - s, rep(g, d, g.sx as int));
                        assert(rest =~= here.subrange(g.sx as int, here.len() as int));
                        assert(here.subrange(g.sx as int, here.len() as int) =~= f0.subrange(g.x + g.sx - s, w - s));
                    }
                    let ghost to_before = to@;
                    to.push_back(g);
                    assert(to@ == to_before.push(g));
                    assert(cells(to@, d) == t0 + f0.subrange(x0 - s, g.x + g.sx - s));
                    if g.x + g.sx >= x1 {
                        proof {
                            assert(g.x + g.sx == x1);
                            assert(cells(from@, d).subrange(x1 - x1, w - x1) =~= cells(from@, d));
                            assert(cells(from@, d) == f0.subrange(x1 - s, w - s));
                            assert(tiles(from@, x1 as int, w, w, dlen));
                        }
                        return;
                    }
                    proof {
                        st = g.x + g.sx;
                        cur = g.x + g.sx;
                        assert(cells(from@, d).subrange(cur - st, w - st) =~= cells(from@, d));
                    }
                }
            },
        }
    }
}

/// Walks the glyphs of a row log in log order, span by span.
pub(crate) struct GlyphScan<'a> {
    pub(crate) p: Scan<'a>,
    pub(crate) sx: u16,
    pub(crate) x: u16,
    pub(crate) xend: u16,
    pub(crate) in_span: bool,
    pub(crate) hfb: u16,
    /// Units clipped off the left of the current span's first glyph,
    /// until that glyph is read
    pub(crate) shift: u16,
}

/// The state of a glyph scan apart from the data: read position, cell
/// position, end of the current span, whether inside a span, colour in
/// force, and pending shift.
pub struct ScanState {
    pub pos: int,
    pub x: int,
    pub xend: int,
    pub in_span: bool,
    pub hfb: u16,
    pub shift: int,
}

/// The glyph that ends a scan of a row of width `w`.
pub open spec fn end_glyph(w: int) -> Glyph {
    Glyph { x: w as u16, sx: 1, shift: 0, hfb: ERR_HFB, len: 0, wid: 0, off: 0 }
}

/// One step of scanning `d` for a row of width `w`: a glyph where the step
/// yields one (or the end glyph), and the state after it.
pub open spec fn gs_step(d: Seq<u8>, w: int, st: ScanState) -> (Option<Glyph>, ScanState) {
    if !st.in_span {
        match header_at(d, st.pos, st.x) {
            Some((h, j)) => (
                None,
                ScanState {
                    pos: j,
                    x: h.0,
                    xend: if h.0 + h.1 < w {
                        h.0 + h.1
                    } else {
                        w
                    },
                    in_span: true,
                    hfb: st.hfb,
                    shift: h.2,
                },
            ),
            None => (Some(end_glyph(w)), st),
        }
    } else {
        let (m, j) = step(d, st.pos);
        match m {
            Meas::Glyph(inc) => {
                if st.shift < inc && st.x < st.xend {
                    let vis = inc - st.shift;
                    let gsx = if vis < st.xend - st.x {
                        vis
                    } else {
                        st.xend - st.x
                    };
                    (
                        Some(
                            Glyph {
                                x: st.x as u16,
                                sx: gsx as u16,
                                shift: st.shift as u16,
                                hfb: st.hfb,
                                len: (j - st.pos) as u16,
                                wid: inc,
                                off: st.pos as usize,
                            },
                        ),
                        ScanState { pos: j, x: st.x + gsx, shift: 0, ..st },
                    )
                } else {
                    (None, ScanState { pos: j, shift: 0, ..st })
                }
            },
            Meas::Attr(v) => (None, ScanState { pos: j, hfb: v, ..st }),
            Meas::End => {
                if st.x < st.xend {
                    (
                        Some(
                            Glyph {
                                x: st.x as u16,
                                sx: (st.xend - st.x) as u16,
                                shift: 0,
                                hfb: st.hfb,
                                len: 0,
                                wid: 0,
                                off: 0,
                            },
                        ),
                        ScanState { in_span: false, x: st.xend, ..st },
                    )
                } else {
                    (None, ScanState { in_span: false, ..st })
                }
            },
        }
    }
}

/// How far a scan state is from the end of `d`.
pub open spec fn gs_rank(d: Seq<u8>, st: ScanState) -> int {
    2 * (d.len() - st.pos) + if st.in_span {
        1int
    } else {
        0int
    }
}

/// The next glyph of the scan of `d` from `st`, and the state after it.
pub open spec fn gs_next(d: Seq<u8>, w: int, st: ScanState) -> (Glyph, ScanState)
    decreases gs_rank(d, st),
{
    let (g, st1) = gs_step(d, w, st);
    match g {
        Some(g) => (g, st1),
        None => if 0 <= gs_rank(d, st1) < gs_rank(d, st) {
            gs_next(d, w, st1)
        } else {
            (end_glyph(w), st1)
        },
    }
}

/// The scan state at the start of a row log.
pub open spec fn scan_start() -> ScanState {
    ScanState { pos: 0, x: 0, xend: 0, in_span: false, hfb: ERR_HFB, shift: 0 }
}

/// The glyphs that scanning `d` from `st` for a row of width `w` yields,
/// in order, up to the end.
pub open spec fn trace(d: Seq<u8>, w: int, st: ScanState) -> Seq<Glyph>
    decreases gs_rank(d, st),
{
    let (g, st1) = gs_next(d, w, st);
    if g.x < w && 0 <= gs_rank(d, st1) < gs_rank(d, st) {
        seq![g] + trace(d, w, st1)
    } else {
        Seq::empty()
    }
}

impl<'a> GlyphScan<'a> {
    pub(crate) open spec fn view(&self) -> ScanState {
        ScanState {
            pos: self.p.pos as int,
            x: self.x as int,
            xend: self.xend as int,
            in_span: self.in_span,
            hfb: self.hfb,
            shift: self.shift as int,
        }
    }

    pub(crate) open spec fn wf(&self) -> bool {
        &&& self.p.pos <= self.p.data@.len()
        &&& self.sx <= ARG_MAX
        &&& self.x <= ARG_MAX
        &&& self.in_span ==> self.xend <= self.sx
        &&& self.shift <= ARG_MAX
    }

    pub(crate) open spec fn rank(&self) -> int {
        2 * (self.p.data@.len() - self.p.pos) + if self.in_span {
            1int
        } else {
            0int
        }
    }

    pub(crate) fn new(data: &'a [u8], sx: u16) -> (r: Self)
        requires
            sx <= ARG_MAX,
        ensures
            r.wf(),
            r.p.data == data,
            r.sx == sx,
            r.view() == scan_start(),
    {
        Self { p: Scan { data, pos: 0 }, sx, x: 0, xend: 0, in_span: false, hfb: ERR_HFB, shift: 0 }
    }

    /// The next glyph, or one at `x == sx` once the log is done.  Glyphs
    /// past the end of their span, or past `sx`, are dropped; a span whose
    /// text ends early is padded to its end.
    pub(crate) fn next(&mut self) -> (g: Glyph)
        requires
            old(self).wf(),
        ensures
            final(self).wf(),
            final(self).p.data == old(self).p.data,
            final(self).sx == old(self).sx,
            (g, final(self).view()) == gs_next(old(self).p.data@, old(self).sx as int, old(self).view()),
            final(self).rank() <= old(self).rank(),
            g.off + g.len <= old(self).p.data@.len(),
            g.x >= old(self).sx ==> g.x == old(self).sx,
            g.x < old(self).sx ==> glyph_ok(g, old(self).sx as int, old(self).p.data@.len() as int)
                && final(self).rank() < old(self).rank(),
    {
        let ghost d = self.p.data@;
        let ghost w = self.sx as int;
        loop
            invariant
                self.wf(),
                self.p.data == old(self).p.data,
                d == self.p.data@,
                w == self.sx,
                self.sx == old(self).sx,
                self.rank() <= old(self).rank(),
                gs_next(d, w, old(self).view()) == gs_next(d, w, self.view()),
                self.rank() == gs_rank(d, self.view()),
            decreases self.rank(),
        {
            let ghost prev = self.view();
            if !self.in_span {
                let save = self.p.pos;
                match self.p.get_span(self.x) {
                    Some(span) => {
                        self.shift = span.shift;
                        self.x = span.x;
                        self.xend = if span.x + span.sx < self.sx {
                            span.x + span.sx
                        } else {
                            self.sx
                        };
                        self.in_span = true;
                        assert(self.view() == gs_step(d, w, prev).1);
                    },
                    None => {
                        self.p.pos = save;
                        let g = Glyph { x: self.sx, sx: 1, shift: 0, hfb: ERR_HFB, len: 0, wid: 0, off: 0 };
                        assert(gs_step(d, w, prev) == (Some(g), self.view()));
                        return g;
                    },
                }
            } else {
                let start = self.p.pos;
                proof {
                    lemma_step_progress(self.p.data@, start as int);
                }
                match self.p.measure() {
                    Meas::Glyph(inc) => {
                        let shift0 = self.shift;
                        self.shift = 0;
                        if shift0 < inc && self.x < self.xend {
                            let x0 = self.x;
                            let vis = inc - shift0;
                            let gsx = if vis < self.xend - x0 {
                                vis
                            } else {
                                self.xend - x0
                            };
                            self.x = x0 + gsx;
                            let g = Glyph {
                                x: x0,
                                sx: gsx,
                                shift: shift0,
                                hfb: self.hfb,
                                len: (self.p.pos - start) as u16,
                                wid: inc,
                                off: start,
                            };
                            assert(gs_step(d, w, prev) == (Some(g), self.view()));
                            return g;
                        }
                        assert(self.view() == gs_step(d, w, prev).1);
                    },
                    Meas::Attr(v) => {
                        self.hfb = v;
                        assert(self.view() == gs_step(d, w, prev).1);
                    },
                    Meas::End => {
                        self.in_span = false;
                        if self.x < self.xend {
                            let x0 = self.x;
                            self.x = self.xend;
                            let g = Glyph {
                                x: x0,
                                sx: self.xend - x0,
                                shift: 0,
                                hfb: self.hfb,
                                len: 0,
                                wid: 0,
                                off: 0,
                            };
                            assert(gs_step(d, w, prev) == (Some(g), self.view()));
                            return g;
                        }
                        assert(self.view() == gs_step(d, w, prev).1);
                    },
                }
            }
        }
    }
}

impl Glyph {
    /// Whether two glyphs are the same in every field and in their bytes.
    pub(crate) fn equal(a: &Self, adata: &[u8], b: &Self, bdata: &[u8]) -> (r: bool)
        requires
            a.off + a.len <= adata@.len(),
            b.off + b.len <= bdata@.len(),
        ensures
            r == (a.hfb == b.hfb && a.x == b.x && a.sx == b.sx && a.shift == b.shift && a.len == b.len
                && a.wid == b.wid && adata@.subrange(a.off as int, a.off + a.len) == bdata@.subrange(
                b.off as int,
                b.off + b.len,
            )),
    {
        if !(a.hfb == b.hfb && a.x == b.x && a.sx == b.sx && a.shift == b.shift && a.len == b.len
            && a.wid == b.wid) {
            return false;
        }
        let n = a.len as usize;
        let al = adata.len();
        let bl = bdata.len();
        let mut i: usize = 0;
        while i < n
            invariant
                al == adata@.len(),
                bl == bdata@.len(),
                n == a.len,
                a.len == b.len,
                a.off + a.len <= adata@.len(),
                b.off + b.len <= bdata@.len(),
                i <= n,
                adata@.subrange(a.off as int, a.off + i) == bdata@.subrange(b.off as int, b.off + i),
            decreases n - i,
        {
            if adata[a.off + i] != bdata[b.off + i] {
                assert(adata@.subrange(a.off as int, a.off + a.len)[i as int] != bdata@.subrange(
                    b.off as int,
                    b.off + b.len,
                )[i as int]);
                return false;
            }
            assert(adata@.subrange(a.off as int, a.off + i + 1) =~= adata@.subrange(a.off as int, a.off + i).push(adata@[a.off + i]));
            assert(bdata@.subrange(b.off as int, b.off + i + 1) =~= bdata@.subrange(b.off as int, b.off + i).push(bdata@[b.off + i]));
            i += 1;
        }
        assert(adata@.subrange(a.off as int, a.off + a.len) =~= bdata@.subrange(
            b.off as int,
            b.off + b.len,
        ));
        true
    }
}

} // verus!
