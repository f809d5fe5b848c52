use crate::glyph::Glyph;
use crate::row::{
    add_payload, change_ok, covers, normal_form, row_changes, encode, end_pos, marker_bytes, Change, Row, SpanRec, ARG_MAX,
};
use crate::scan::{advance, lemma_step_progress, lemma_width_bound, step, width, width_from, Meas, Scan};
use std::collections::VecDeque;
use vstd::math::{max, min};
use vstd::prelude::*;
use vstd::string::StringSliceAdditionalSpecFns;

verus! {

/// The span record that writing `s` at page column `x` in colour `h`
/// appends to a row clipped to `[cx0, cx1)`, or None where nothing of it
/// is visible.
pub open spec fn write_span(s: Seq<u8>, x: int, h: u16, cx0: int, cx1: int) -> Option<SpanRec> {
    let n0: int = if x < cx0 {
        cx0 - x
    } else {
        0
    };
    let (i1, r1, h1) = advance(s, 0, n0 as nat, h);
    let x0 = x + n0;
    if r1 > 0 || x0 >= cx1 {
        None
    } else {
        let (i2, r2, h2) = advance(s, i1, (cx1 - x0) as nat, h1);
        let n = cx1 - x0 - r2;
        if n <= 0 {
            None
        } else {
            Some(
                SpanRec { x: x0, sx: n, shift: 0, payload: marker_bytes(h1) + s.subrange(i1, i2) },
            )
        }
    }
}

/// A rectangular image of `sy` rows by `sx` units, each row a span log.
///
/// Drawing goes through regions, which clip; updates are appended to the
/// rows and folded back into a single left-to-right form by `normalize`.
/// Private-use codepoints U+E000..U+F8FF in text are zero-width colour
/// changes, giving 6400 colour codes.
pub struct Page {
    sy: i32,
    sx: i32,
    csx: i32,
    rows: Vec<Row>,
}

impl Page {
    pub closed spec fn wf(&self) -> bool {
        &&& 0 <= self.sy <= ARG_MAX
        &&& 0 <= self.sx <= ARG_MAX
        &&& self.csx == 1
        &&& self.rows@.len() == self.sy
        &&& forall|y: int| 0 <= y < self.rows@.len() ==> (#[trigger] self.rows@[y]).wf()
        &&& forall|y: int|
            0 <= y < self.rows@.len() && (#[trigger] self.rows@[y]).normal ==> covers(
                self.rows@[y].spans@,
                self.sx as int,
            )
    }

    /// Number of rows.
    pub closed spec fn height(&self) -> int {
        self.sy as int
    }

    /// Width of each row.
    pub closed spec fn width(&self) -> int {
        self.sx as int
    }

    /// The span records of row `y`.
    pub closed spec fn spans(&self, y: int) -> Seq<SpanRec> {
        self.rows@[y].spans@
    }

    /// Whether row `y` is in normal form.
    pub closed spec fn is_normal(&self, y: int) -> bool {
        self.rows@[y].normal
    }

    /// The bytes of row `y`'s log.
    pub closed spec fn line(&self, y: int) -> Seq<u8> {
        self.rows@[y].data@
    }

    /// Every row's log holds exactly its span records.
    pub proof fn lemma_lines(&self)
        requires
            self.wf(),
        ensures
            forall|y: int| 0 <= y < self.height() ==> #[trigger] self.line(y) == encode(self.spans(y)),
    {
        assert forall|y: int| 0 <= y < self.height() implies #[trigger] self.line(y) == encode(
            self.spans(y),
        ) by {
            assert(self.rows@[y].wf());
        }
    }

    /// Rows `y` of `self` and `other` hold the same records and flag.
    pub open spec fn same_row(&self, other: Page, y: int) -> bool {
        &&& self.spans(y) == other.spans(y)
        &&& self.is_normal(y) == other.is_normal(y)
        &&& self.line(y) == other.line(y)
    }

    /// Create a page of `sy` rows of width `sx` (negative sizes count as
    /// zero), filled with spaces in colour `hfb`.
    pub fn new(sy: i32, sx: i32, hfb: u16) -> (r: Self)
        requires
            sy <= ARG_MAX,
            sx <= ARG_MAX,
        ensures
            r.wf(),
            r.height() == (if sy > 0 { sy as int } else { 0 }),
            r.width() == (if sx > 0 { sx as int } else { 0 }),
            forall|y: int|
                0 <= y < r.height() ==> #[trigger] r.spans(y) == seq![
                    SpanRec { x: 0, sx: r.width(), shift: 0, payload: marker_bytes(hfb) },
                ] && r.is_normal(y),
    {
        let sy = if sy > 0 {
            sy
        } else {
            0
        };
        let sx = if sx > 0 {
            sx
        } else {
            0
        };
        let eight: [u8; 1] = [56u8];
        let mut sc = Scan { data: eight.as_slice(), pos: 0 };
        proof {
            reveal_with_fuel(width_from, 2);
        }
        let csx = sc.measure_rest() as i32;
        let mut rows: Vec<Row> = Vec::new();
        let mut y: i32 = 0;
        while y < sy
            invariant
                0 <= y <= sy <= ARG_MAX,
                0 <= sx <= ARG_MAX,
                rows@.len() == y,
                forall|i: int|
                    0 <= i < y ==> (#[trigger] rows@[i]).wf() && rows@[i].normal && rows@[i].spans@
                        == seq![SpanRec { x: 0, sx: sx as int, shift: 0, payload: marker_bytes(hfb) }],
            decreases sy - y,
        {
            rows.push(Row::new(sx as u16, hfb));
            y += 1;
        }
        Self { sy, sx, csx, rows }
    }

    /// The standard cell width: the width of an average character, which
    /// is 1 on a monospaced terminal.
    pub fn cell_sx(&self) -> (r: i32)
        requires
            self.wf(),
        ensures
            r == 1,
    {
        self.csx
    }

    /// A region covering the whole page.
    pub fn full(&mut self) -> (r: Region<'_>)
        requires
            old(self).wf(),
        ensures
            *r.page == *old(self),
            *final(self) == *final(r.page),
            r.wf(),
            r.oy == 0 && r.ox == 0,
            r.sy == old(self).height() && r.sx == old(self).width(),
            r.cy0 == 0 && r.cx0 == 0,
            r.cy1 == old(self).height() && r.cx1 == old(self).width(),
    {
        let sy = self.sy;
        let sx = self.sx;
        Region { page: self, oy: 0, ox: 0, sy, sx, cy0: 0, cx0: 0, cy1: sy, cx1: sx }
    }

    /// A region of any size at `(y, x)`, inside or outside the page.  Only
    /// the part that overlaps the page is drawn to.
    pub fn region(&mut self, y: i32, x: i32, sy: i32, sx: i32) -> (r: Region<'_>)
        requires
            old(self).wf(),
            i32::MIN <= y + sy <= i32::MAX,
            i32::MIN <= x + sx <= i32::MAX,
        ensures
            *r.page == *old(self),
            *final(self) == *final(r.page),
            r.wf(),
            r.oy == y && r.ox == x && r.sy == sy && r.sx == sx,
            r.cy0 == max(y as int, 0) && r.cx0 == max(x as int, 0),
            r.cy1 == min(y + sy, old(self).height()),
            r.cx1 == min(x + sx, old(self).width()),
    {
        let page_sy = self.sy;
        let page_sx = self.sx;
        let cy0 = if y > 0 {
            y
        } else {
            0
        };
        let cx0 = if x > 0 {
            x
        } else {
            0
        };
        let cy1 = if y + sy < page_sy {
            y + sy
        } else {
            page_sy
        };
        let cx1 = if x + sx < page_sx {
            x + sx
        } else {
            page_sx
        };
        Region { page: self, oy: y, ox: x, sy, sx, cy0, cx0, cy1, cx1 }
    }

    /// Width that `text` takes up: one unit per codepoint, attribute
    /// changes counting for nothing.
    pub fn measure(&mut self, text: &str) -> (r: i32)
        requires
            width(text.spec_bytes()) <= i32::MAX,
        ensures
            r == width(text.spec_bytes()),
            *final(self) == *old(self),
    {
        let mut sc = Scan { data: text.as_bytes(), pos: 0 };
        sc.measure_rest() as i32
    }

    /// Normalise every row that is not in normal form: apply all the
    /// updates made and store the row as side-by-side spans covering the
    /// page width.  Rows already in normal form are left as they are.
    pub fn normalize(&mut self)
        requires
            old(self).wf(),
        ensures
            final(self).wf(),
            normalized(*old(self), *final(self)),
    {
        let mut glyphs1: VecDeque<Glyph> = VecDeque::new();
        let mut glyphs2: VecDeque<Glyph> = VecDeque::new();
        let mut spare: Vec<u8> = Vec::new();
        let sx = self.sx as u16;
        let mut y: i32 = 0;
        while y < self.sy
            invariant
                self.wf(),
                0 <= y <= self.sy,
                sx == self.sx,
                self.sy == old(self).sy,
                self.sx == old(self).sx,
                forall|i: int|
                    0 <= i < old(self).height() ==> #[trigger] normalized_row(*old(self), *self, i)
                        || (i >= y && self.same_row(*old(self), i)),
            decreases self.sy - y,
        {
            let ghost before = *self;
            assert(self.rows@[y as int].wf());
            assert(normalized_row(*old(self), *self, y as int) || self.same_row(*old(self), y as int));
            let mut row = self.take_row(y as usize);
            row.normalize(sx, &mut glyphs1, &mut glyphs2, &mut spare);
            self.put_row(y as usize, row);
            assert(normalized_row(*old(self), *self, y as int));
            assert forall|i: int|
                0 <= i < old(self).height() implies #[trigger] normalized_row(*old(self), *self, i)
                    || (i >= y + 1 && self.same_row(*old(self), i)) by {
                if i != y {
                    assert(self.rows@[i] == before.rows@[i]);
                    assert(normalized_row(*old(self), before, i) || (i >= y && before.same_row(*old(self), i)));
                }
            }
            y += 1;
        }
    }

    /// The changes that take row `y` as it is in `self` (the page on
    /// display) to row `y` of `new`, for both normalised.
    pub fn difference(&self, new: &Page, y: i32) -> (r: Vec<Change>)
        requires
            self.wf(),
            new.wf(),
            0 <= y < self.height(),
            y < new.height(),
        ensures
            self.line(y as int) == new.line(y as int) ==> r@.len() == 0,
            forall|i: int| 0 <= i < r@.len() ==> #[trigger] change_ok(r@[i], new.width()),
            r@.len() == row_changes(self.line(y as int), new.line(y as int), new.width()).len(),
            forall|i: int|
                0 <= i < r@.len() ==> #[trigger] r@[i].parts() == row_changes(
                    self.line(y as int),
                    new.line(y as int),
                    new.width(),
                )[i],
    {
        self.rows[y as usize].difference(&new.rows[y as usize], new.sx as u16)
    }

    /// The bytes of row `y`'s span log.
    pub fn line_bytes(&self, y: usize) -> (r: &[u8])
        requires
            self.wf(),
            y < self.height(),
        ensures
            r@ == self.line(y as int),
    {
        self.rows[y].data.as_slice()
    }

    /// Take row `y` out, leaving an empty one in its place.
    fn take_row(&mut self, y: usize) -> (r: Row)
        requires
            y < old(self).rows@.len(),
        ensures
            r == old(self).rows@[y as int],
            final(self).rows@.len() == old(self).rows@.len(),
            forall|i: int|
                0 <= i < old(self).rows@.len() && i != y ==> final(self).rows@[i] == old(
                    self,
                ).rows@[i],
            final(self).sy == old(self).sy,
            final(self).sx == old(self).sx,
            final(self).csx == old(self).csx,
    {
        let blank = Row { normal: true, pos: 0, data: Vec::new(), spans: Ghost(Seq::empty()) };
        self.rows.push(blank);
        self.rows.swap_remove(y)
    }

    /// Put row `y` back.
    fn put_row(&mut self, y: usize, row: Row)
        requires
            y < old(self).rows@.len(),
        ensures
            final(self).rows@ == old(self).rows@.update(y as int, row),
            final(self).sy == old(self).sy,
            final(self).sx == old(self).sx,
            final(self).csx == old(self).csx,
    {
        self.rows.set(y, row);
    }
}

/// A temporary view of a page for drawing into a clipped region.
///
/// `(oy, ox)` is added to region coordinates to give page coordinates;
/// `(sy, sx)` is the nominal size; `[cy0, cy1) x [cx0, cx1)` is the clip
/// in page coordinates, already intersected with all parent regions and
/// the page.  Regions come from `Page::full`, `Page::region` and
/// `Region::region`, which keep the clip within the page (`wf`).
pub struct Region<'a> {
    pub page: &'a mut Page,
    pub oy: i32,
    pub ox: i32,
    pub sy: i32,
    pub sx: i32,
    pub cy0: i32,
    pub cx0: i32,
    pub cy1: i32,
    pub cx1: i32,
}

/// Row `y` of `q` is row `y` of `p` normalised: in normal form, unchanged
/// where it already was, and else covering the width with side-by-side
/// spans.
pub open spec fn normalized_row(p: Page, q: Page, y: int) -> bool {
    &&& q.is_normal(y)
    &&& p.is_normal(y) ==> q.same_row(p, y)
    &&& !p.is_normal(y) ==> covers(q.spans(y), q.width())
    &&& !p.is_normal(y) ==> normal_form(q.spans(y), p.line(y), q.width())
}

/// `q` is `p` normalised.
pub open spec fn normalized(p: Page, q: Page) -> bool {
    &&& q.height() == p.height()
    &&& q.width() == p.width()
    &&& forall|y: int| 0 <= y < p.height() ==> #[trigger] normalized_row(p, q, y)
}

/// What clearing row `y` of `p` to `hfb` under the clip `[cx0, cx1)` gives.
pub open spec fn cleared(p: Page, q: Page, y: int, cx0: int, cx1: int, hfb: u16) -> bool {
    if cx0 <= 0 && cx1 >= p.width() {
        &&& q.spans(y) == seq![SpanRec { x: 0, sx: p.width(), shift: 0, payload: marker_bytes(hfb) }]
        &&& q.is_normal(y)
    } else {
        &&& q.spans(y) == p.spans(y).push(
            SpanRec { x: cx0, sx: cx1 - cx0, shift: 0, payload: marker_bytes(hfb) },
        )
        &&& !q.is_normal(y)
    }
}

/// Row `y` of `q` is row `y` of `p` cleared where `cy0 <= y < cy1` and the
/// clip `[cx0, cx1)` is not empty, and unchanged elsewhere.
pub open spec fn cleared_within(
    p: Page,
    q: Page,
    y: int,
    cy0: int,
    cy1: int,
    cx0: int,
    cx1: int,
    hfb: u16,
) -> bool {
    if cy0 <= y < cy1 && cx0 < cx1 {
        cleared(p, q, y, cx0, cx1, hfb)
    } else {
        q.same_row(p, y)
    }
}

/// Row `i` of `q` is row `i` of `p` with `ws` appended where `i == y` and
/// `ws` is a record, and unchanged elsewhere.
pub open spec fn written_row(p: Page, q: Page, i: int, y: int, ws: Option<SpanRec>) -> bool {
    match ws {
        Some(r) if i == y => {
            &&& q.spans(i) == p.spans(i).push(r)
            &&& !q.is_normal(i)
        },
        _ => q.same_row(p, i),
    }
}

/// The coordinates of a write at `(y, x)` in a region offset by
/// `(oy, ox)`, and the end position it returns, fit in an `i32`.
pub open spec fn write_fits(oy: int, ox: int, y: int, x: int, s: Seq<u8>) -> bool {
    &&& i32::MIN <= oy + y <= i32::MAX
    &&& i32::MIN <= ox + x
    &&& ox + x + width(s) <= i32::MAX
    &&& i32::MIN <= x
    &&& x + width(s) <= i32::MAX
}

pub proof fn lemma_push_payloads(sp: Seq<SpanRec>, r: SpanRec, a: Seq<u8>, b: Seq<u8>)
    ensures
        add_payload(add_payload(sp.push(r), a), b) == sp.push(
            SpanRec { x: r.x, sx: r.sx, shift: r.shift, payload: r.payload + a + b },
        ),
{
    assert(add_payload(add_payload(sp.push(r), a), b) =~= sp.push(
        SpanRec { x: r.x, sx: r.sx, shift: r.shift, payload: r.payload + a + b },
    ));
}

/// Row `y` of `q` is row `y` of `p` with at most records within the
/// columns `[cx0, cx1)` appended, or replaced outright where those columns
/// span the whole width.
pub open spec fn row_drawn(p: Page, q: Page, y: int, cx0: int, cx1: int) -> bool {
    ||| q.same_row(p, y)
    ||| (cx0 <= 0 && cx1 >= p.width())
    ||| {
        &&& p.spans(y).len() <= q.spans(y).len()
        &&& q.spans(y).subrange(0, p.spans(y).len() as int) == p.spans(y)
        &&& forall|k: int|
            p.spans(y).len() <= k < q.spans(y).len() ==> cx0 <= (#[trigger] q.spans(y)[k]).x && q.spans(
                y,
            )[k].x + q.spans(y)[k].sx <= cx1
    }
}

/// Row `y` was drawn on within the clip `[cy0, cy1) x [cx0, cx1)`: left
/// as it was outside it.
pub open spec fn row_drawn_in(
    p: Page,
    q: Page,
    y: int,
    cy0: int,
    cy1: int,
    cx0: int,
    cx1: int,
) -> bool {
    if cy0 <= y < cy1 {
        row_drawn(p, q, y, cx0, cx1)
    } else {
        q.same_row(p, y)
    }
}

/// `q` is `p` drawn on within the clip `[cy0, cy1) x [cx0, cx1)`.
pub open spec fn drawn_within(p: Page, q: Page, cy0: int, cy1: int, cx0: int, cx1: int) -> bool {
    &&& q.height() == p.height()
    &&& q.width() == p.width()
    &&& forall|y: int| 0 <= y < p.height() ==> #[trigger] row_drawn_in(p, q, y, cy0, cy1, cx0, cx1)
}

pub proof fn lemma_drawn_refl(p: Page, cy0: int, cy1: int, cx0: int, cx1: int)
    ensures
        drawn_within(p, p, cy0, cy1, cx0, cx1),
{
    assert forall|y: int| 0 <= y < p.height() implies #[trigger] row_drawn_in(p, p, y, cy0, cy1, cx0, cx1) by {}
}

pub proof fn lemma_drawn_trans(p: Page, q: Page, r: Page, cy0: int, cy1: int, cx0: int, cx1: int)
    requires
        drawn_within(p, q, cy0, cy1, cx0, cx1),
        drawn_within(q, r, cy0, cy1, cx0, cx1),
    ensures
        drawn_within(p, r, cy0, cy1, cx0, cx1),
{
    assert forall|y: int| 0 <= y < p.height() implies #[trigger] row_drawn_in(p, r, y, cy0, cy1, cx0, cx1) by {
        assert(row_drawn_in(p, q, y, cy0, cy1, cx0, cx1));
        assert(row_drawn_in(q, r, y, cy0, cy1, cx0, cx1));
        if cy0 <= y < cy1 && !(cx0 <= 0 && cx1 >= p.width()) && !r.same_row(p, y) {
            let a = p.spans(y);
            let b = q.spans(y);
            let c = r.spans(y);
            assert(a.len() <= b.len() && b.subrange(0, a.len() as int) == a);
            assert(b.len() <= c.len() && c.subrange(0, b.len() as int) == b);
            assert(c.subrange(0, a.len() as int) =~= a) by {
                assert forall|k: int| 0 <= k < a.len() implies c.subrange(0, a.len() as int)[k] == a[k] by {
                    assert(c.subrange(0, b.len() as int)[k] == b[k]);
                    assert(b.subrange(0, a.len() as int)[k] == a[k]);
                }
            }
            assert forall|k: int| a.len() <= k < c.len() implies cx0 <= (#[trigger] c[k]).x && c[k].x + c[k].sx <= cx1 by {
                if k < b.len() {
                    assert(c.subrange(0, b.len() as int)[k] == b[k]);
                }
            }
        }
    }
}

pub proof fn lemma_drawn_widen(
    p: Page,
    q: Page,
    cy0: int,
    cy1: int,
    cx0: int,
    cx1: int,
    dy0: int,
    dy1: int,
    dx0: int,
    dx1: int,
)
    requires
        drawn_within(p, q, cy0, cy1, cx0, cx1),
        dy0 <= cy0,
        cy1 <= dy1,
        dx0 <= cx0,
        cx1 <= dx1,
    ensures
        drawn_within(p, q, dy0, dy1, dx0, dx1),
{
    assert forall|y: int| 0 <= y < p.height() implies #[trigger] row_drawn_in(p, q, y, dy0, dy1, dx0, dx1) by {
        assert(row_drawn_in(p, q, y, cy0, cy1, cx0, cx1));
        if cy0 <= y < cy1 && !(cx0 <= 0 && cx1 >= p.width()) && !q.same_row(p, y) {
            let a = p.spans(y);
            let b = q.spans(y);
            assert forall|k: int| a.len() <= k < b.len() implies dx0 <= (#[trigger] b[k]).x && b[k].x + b[k].sx <= dx1 by {}
        }
    }
}

pub proof fn lemma_write_span_within(s: Seq<u8>, x: int, h: u16, cx0: int, cx1: int)
    ensures
        write_span(s, x, h, cx0, cx1) matches Some(r) ==> cx0 <= r.x && r.x + r.sx <= cx1 && r.sx >= 1 && r.shift == 0,
{
}

pub proof fn lemma_written_within(
    p: Page,
    q: Page,
    y: int,
    ws: Option<SpanRec>,
    cy0: int,
    cy1: int,
    cx0: int,
    cx1: int,
)
    requires
        q.height() == p.height(),
        q.width() == p.width(),
        forall|i: int| 0 <= i < p.height() ==> #[trigger] written_row(p, q, i, y, ws),
        ws matches Some(r) ==> cy0 <= y < cy1 && cx0 <= r.x && r.x + r.sx <= cx1,
    ensures
        drawn_within(p, q, cy0, cy1, cx0, cx1),
{
    assert forall|i: int| 0 <= i < p.height() implies #[trigger] row_drawn_in(p, q, i, cy0, cy1, cx0, cx1) by {
        assert(written_row(p, q, i, y, ws));
        if let Some(r) = ws {
            if i == y {
                let a = p.spans(i);
                assert(q.spans(i).subrange(0, a.len() as int) =~= a);
                assert(q.spans(i)[a.len() as int] == r);
            }
        }
    }
}

pub proof fn lemma_cleared_within(
    p: Page,
    q: Page,
    cy0: int,
    cy1: int,
    cx0: int,
    cx1: int,
    hfb: u16,
)
    requires
        q.height() == p.height(),
        q.width() == p.width(),
        forall|i: int| 0 <= i < p.height() ==> #[trigger] cleared_within(p, q, i, cy0, cy1, cx0, cx1, hfb),
    ensures
        drawn_within(p, q, cy0, cy1, cx0, cx1),
{
    assert forall|i: int| 0 <= i < p.height() implies #[trigger] row_drawn_in(p, q, i, cy0, cy1, cx0, cx1) by {
        assert(cleared_within(p, q, i, cy0, cy1, cx0, cx1, hfb));
        if cy0 <= i < cy1 && cx0 < cx1 && !(cx0 <= 0 && cx1 >= p.width()) {
            let a = p.spans(i);
            assert(q.spans(i).subrange(0, a.len() as int) =~= a);
        }
    }
}

/// Where skipping `left` units of the glyphs of `s` from byte `i` stops,
/// and the colour then in force (starting from `h`); a glyph wider than
/// what is left to skip is kept.
pub open spec fn shift_skip(s: Seq<u8>, i: int, left: int, h: u16) -> (int, u16)
    decreases s.len() - i,
{
    if left <= 0 || !(0 <= i <= s.len()) {
        (i, h)
    } else {
        let (m, j) = step(s, i);
        if i < j <= s.len() {
            match m {
                Meas::End => (i, h),
                Meas::Attr(v) => shift_skip(s, j, left, v),
                Meas::Glyph(inc) => if inc > left {
                    (i, h)
                } else {
                    shift_skip(s, j, left - inc, h)
                },
            }
        } else {
            (i, h)
        }
    }
}

/// The column that the text of `s` from byte `i`, starting at column
/// `x`, reaches before it ends or gets to `sx`.
pub open spec fn reach(s: Seq<u8>, i: int, x: int, sx: int) -> int
    decreases s.len() - i,
{
    if x >= sx || !(0 <= i <= s.len()) {
        x
    } else {
        let (m, j) = step(s, i);
        if i < j <= s.len() {
            match m {
                Meas::End => x,
                Meas::Attr(_) => reach(s, j, x, sx),
                Meas::Glyph(inc) => reach(s, j, x + inc, sx),
            }
        } else {
            x
        }
    }
}

/// Laying out one line `y` of a field from byte `i` of `s` at column `x`,
/// with room up to column `cap` and colour `h` in force: the byte and
/// column where the line stops, whether the cursor (the first glyph ending
/// less than `cl` bytes before the end) is still to come, the cursor found
/// so far, whether the line stopped at a glyph that did not fit, and the
/// colour then in force.
pub open spec fn line_run(
    s: Seq<u8>,
    i: int,
    x: int,
    cap: int,
    y: int,
    before: bool,
    curs: Option<(i32, i32)>,
    cl: int,
    h: u16,
) -> (int, int, bool, Option<(i32, i32)>, bool, u16)
    decreases s.len() - i,
{
    if !(0 <= i <= s.len()) {
        (i, x, before, curs, false, h)
    } else {
        let (m, j) = step(s, i);
        if i < j <= s.len() {
            match m {
                Meas::End => (i, x, before, curs, false, h),
                Meas::Attr(v) => line_run(s, j, x, cap, y, before, curs, cl, v),
                Meas::Glyph(inc) => if x + inc > cap {
                    (i, x, before, curs, true, h)
                } else if before && s.len() - j < cl {
                    line_run(s, j, x + inc, cap, y, false, Some((y as i32, x as i32)), cl, h)
                } else {
                    line_run(s, j, x + inc, cap, y, before, curs, cl, h)
                },
            }
        } else {
            (i, x, before, curs, false, h)
        }
    }
}

/// A drawing operation of a field, in region coordinates: text written at
/// `(y, x)` in colour `h`, or `w` cells from `(y, x)` filled with spaces
/// in colour `h`.
pub enum Draw {
    Text { y: int, x: int, h: u16, text: Seq<u8> },
    Fill { y: int, x: int, w: int, h: u16 },
}

/// The cursor position and the drawing operations of a field laid out
/// from line `y` on.  Each line writes the glyphs that fit from its start
/// column and fills the rest of it with `bg`; on the last line one column
/// is kept for a `>` marker in `ov` where the rest does not fit.  At the
/// end of a line the cursor stands after its last glyph where exactly `cl`
/// bytes remain, unless it was already placed.
pub open spec fn lines(
    s: Seq<u8>,
    i: int,
    x: int,
    y: int,
    sy: int,
    sx: int,
    before: bool,
    curs: Option<(i32, i32)>,
    cl: int,
    h: u16,
    bg: u16,
    ov: u16,
) -> (Option<(i32, i32)>, Seq<Draw>)
    decreases sy - y,
{
    if y >= sy {
        (curs, Seq::empty())
    } else {
        let over = y == sy - 1 && reach(s, i, x, sx) >= sx;
        let cap = if over {
            sx - 1
        } else {
            sx
        };
        let (i2, x2, b2, c2, wr, h2) = line_run(s, i, x, cap, y, before, curs, cl, h);
        let ops = seq![Draw::Text { y, x, h, text: s.subrange(i, i2) }] + (if x2 < cap {
            seq![Draw::Fill { y, x: x2, w: cap - x2, h: bg }]
        } else {
            Seq::empty()
        }) + (if over {
            seq![Draw::Text { y, x: cap, h: ov, text: seq![62u8] }]
        } else {
            Seq::empty()
        });
        let (b3, c3) = if s.len() - i2 == cl && x2 < cap && (wr || b2) {
            (false, Some((y as i32, x2 as i32)))
        } else {
            (b2, c2)
        };
        let rest = lines(s, i2, 0, y + 1, sy, sx, b3, c3, cl, h2, bg, ov);
        (rest.0, ops + rest.1)
    }
}

/// The cursor position and the drawing operations of a field of `sy`
/// lines of `sx` columns for the text `s` in colour `h`, shifted by
/// `shift`, with the cursor at byte `cursor`: where shifted, a `<` marker
/// in `ov` at (0,0), then the lines from column 1.
pub open spec fn field_layout(
    s: Seq<u8>,
    shift: int,
    cursor: int,
    h: u16,
    bg: u16,
    ov: u16,
    sy: int,
    sx: int,
) -> (Option<(i32, i32)>, Seq<Draw>) {
    let n = s.len() as int;
    let cl = if n > cursor {
        n - cursor
    } else {
        0
    };
    let (i0, h0) = if shift > 0 {
        shift_skip(s, 0, shift, h)
    } else {
        (0, h)
    };
    let x0 = if shift > 0 {
        1int
    } else {
        0
    };
    let first = if shift > 0 {
        seq![Draw::Text { y: 0, x: 0, h: ov, text: seq![60u8] }]
    } else {
        Seq::empty()
    };
    let rest = lines(s, i0, x0, 0, sy, sx, n - i0 >= cl, None, cl, h0, bg, ov);
    (rest.0, first + rest.1)
}

/// The clip and offsets of a region, as plain integers.
pub struct Frame {
    pub oy: int,
    pub ox: int,
    pub cy0: int,
    pub cy1: int,
    pub cx0: int,
    pub cx1: int,
}

/// Row `yy` (records and normal flag) after one drawing operation of a
/// region with frame `fr` on a page of width `wdt`: text appends the
/// record that `write` appends; a fill clears as `clear` does on the
/// sub-region `(y, x, 1, w)`.
pub open spec fn draw_row(sp: Seq<SpanRec>, normal: bool, op: Draw, fr: Frame, wdt: int, yy: int) -> (
    Seq<SpanRec>,
    bool,
) {
    match op {
        Draw::Text { y, x, h, text } => if yy == fr.oy + y && fr.cy0 <= yy < fr.cy1 {
            match write_span(text, fr.ox + x, h, fr.cx0, fr.cx1) {
                Some(r) => (sp.push(r), false),
                None => (sp, normal),
            }
        } else {
            (sp, normal)
        },
        Draw::Fill { y, x, w, h } => {
            let a0 = max(fr.cy0, fr.oy + y);
            let a1 = min(fr.cy1, fr.oy + y + 1);
            let b0 = max(fr.cx0, fr.ox + x);
            let b1 = min(fr.cx1, fr.ox + x + w);
            if a0 <= yy < a1 && b0 < b1 {
                if b0 <= 0 && b1 >= wdt {
                    (seq![SpanRec { x: 0, sx: wdt, shift: 0, payload: marker_bytes(h) }], true)
                } else {
                    (sp.push(SpanRec { x: b0, sx: b1 - b0, shift: 0, payload: marker_bytes(h) }), false)
                }
            } else {
                (sp, normal)
            }
        },
    }
}

/// Row `yy` after the drawing operations `ops` in order.
pub open spec fn draws_row(sp: Seq<SpanRec>, normal: bool, ops: Seq<Draw>, fr: Frame, wdt: int, yy: int) -> (
    Seq<SpanRec>,
    bool,
)
    decreases ops.len(),
{
    if ops.len() == 0 {
        (sp, normal)
    } else {
        let r = draws_row(sp, normal, ops.drop_last(), fr, wdt, yy);
        draw_row(r.0, r.1, ops.last(), fr, wdt, yy)
    }
}

/// `q` is `p` with the drawing operations `ops` of a region with frame
/// `fr` applied in order.
pub open spec fn drawn_by(p: Page, q: Page, ops: Seq<Draw>, fr: Frame) -> bool {
    &&& q.height() == p.height()
    &&& q.width() == p.width()
    &&& forall|yy: int|
        0 <= yy < p.height() ==> (q.spans(yy), q.is_normal(yy)) == #[trigger] draws_row(
            p.spans(yy),
            p.is_normal(yy),
            ops,
            fr,
            p.width(),
            yy,
        )
}

/// The record that text `t` written at `(y, x)` in colour `h` appends in a
/// region with frame `fr`, if any.
pub open spec fn text_effect(fr: Frame, y: int, x: int, h: u16, t: Seq<u8>) -> Option<SpanRec> {
    if fr.cy0 <= fr.oy + y < fr.cy1 {
        write_span(t, fr.ox + x, h, fr.cx0, fr.cx1)
    } else {
        None
    }
}

pub proof fn lemma_drawn_by_empty(p: Page, fr: Frame)
    ensures
        drawn_by(p, p, Seq::empty(), fr),
{
}

/// One more text operation, carried out as `write` does.
pub proof fn lemma_drawn_by_text(
    p: Page,
    q: Page,
    q2: Page,
    ops: Seq<Draw>,
    fr: Frame,
    y: int,
    x: int,
    h: u16,
    t: Seq<u8>,
)
    requires
        drawn_by(p, q, ops, fr),
        q2.height() == q.height(),
        q2.width() == q.width(),
        forall|i: int|
            0 <= i < q.height() ==> #[trigger] written_row(
                q,
                q2,
                i,
                fr.oy + y,
                text_effect(fr, y, x, h, t),
            ),
    ensures
        drawn_by(p, q2, ops.push(Draw::Text { y, x, h, text: t }), fr),
{
    let op = Draw::Text { y, x, h, text: t };
    assert forall|yy: int| 0 <= yy < p.height() implies (q2.spans(yy), q2.is_normal(yy)) == #[trigger] draws_row(
        p.spans(yy),
        p.is_normal(yy),
        ops.push(op),
        fr,
        p.width(),
        yy,
    ) by {
        assert(ops.push(op).drop_last() =~= ops);
        assert(draws_row(p.spans(yy), p.is_normal(yy), ops, fr, p.width(), yy) == (q.spans(yy), q.is_normal(yy)));
        assert(written_row(
            q,
            q2,
            yy,
            fr.oy + y,
            text_effect(fr, y, x, h, t),
        ));
    }
}

/// One more fill operation, carried out as `clear` does on the sub-region.
pub proof fn lemma_drawn_by_fill(
    p: Page,
    q: Page,
    q2: Page,
    ops: Seq<Draw>,
    fr: Frame,
    y: int,
    x: int,
    w: int,
    h: u16,
)
    requires
        drawn_by(p, q, ops, fr),
        q2.height() == q.height(),
        q2.width() == q.width(),
        forall|i: int|
            0 <= i < q.height() ==> #[trigger] cleared_within(
                q,
                q2,
                i,
                max(fr.cy0, fr.oy + y),
                min(fr.cy1, fr.oy + y + 1),
                max(fr.cx0, fr.ox + x),
                min(fr.cx1, fr.ox + x + w),
                h,
            ),
    ensures
        drawn_by(p, q2, ops.push(Draw::Fill { y, x, w, h }), fr),
{
    let op = Draw::Fill { y, x, w, h };
    assert forall|yy: int| 0 <= yy < p.height() implies (q2.spans(yy), q2.is_normal(yy)) == #[trigger] draws_row(
        p.spans(yy),
        p.is_normal(yy),
        ops.push(op),
        fr,
        p.width(),
        yy,
    ) by {
        assert(ops.push(op).drop_last() =~= ops);
        assert(draws_row(p.spans(yy), p.is_normal(yy), ops, fr, p.width(), yy) == (q.spans(yy), q.is_normal(yy)));
        assert(cleared_within(
            q,
            q2,
            yy,
            max(fr.cy0, fr.oy + y),
            min(fr.cy1, fr.oy + y + 1),
            max(fr.cx0, fr.ox + x),
            min(fr.cx1, fr.ox + x + w),
            h,
        ));
    }
}

/// Every position a field over a region at `(oy, ox)` of `sy` lines and
/// `sx` columns computes for a text of `n` bytes fits an `i32`: the page
/// rows of its lines, its columns up to `sx` (one past the last), and the
/// end of a line's text, which is at most one column plus a column per
/// byte.
pub open spec fn field_fits(oy: int, ox: int, sy: int, sx: int, n: int) -> bool {
    &&& i32::MIN <= oy
    &&& oy + sy <= i32::MAX
    &&& i32::MIN <= ox
    &&& i32::MIN < ox + sx <= i32::MAX
    &&& ox + n + 1 <= i32::MAX
    &&& n + 1 <= i32::MAX
    &&& i32::MIN < sx < i32::MAX
}

impl<'a> Region<'a> {
    /// The record that a write of `s` at `(y, x)` in colour `h` appends, if
    /// any, and the page row it goes to.
    pub open spec fn write_effect(&self, y: int, x: int, h: u16, s: Seq<u8>) -> Option<SpanRec> {
        if self.cy0 <= self.oy + y < self.cy1 {
            write_span(s, self.ox + x, h, self.cx0 as int, self.cx1 as int)
        } else {
            None
        }
    }

    /// The region's offsets and clip.
    pub open spec fn frame(&self) -> Frame {
        Frame {
            oy: self.oy as int,
            ox: self.ox as int,
            cy0: self.cy0 as int,
            cy1: self.cy1 as int,
            cx0: self.cx0 as int,
            cx1: self.cx1 as int,
        }
    }

    pub open spec fn wf(&self) -> bool {
        &&& self.page.wf()
        &&& 0 <= self.cy0
        &&& self.cy1 <= self.page.height()
        &&& 0 <= self.cx0
        &&& self.cx1 <= self.page.width()
    }

    /// Same offsets, size and clip.
    pub open spec fn same_frame(&self, other: &Region) -> bool {
        &&& self.oy == other.oy
        &&& self.ox == other.ox
        &&& self.sy == other.sy
        &&& self.sx == other.sx
        &&& self.cy0 == other.cy0
        &&& self.cx0 == other.cx0
        &&& self.cy1 == other.cy1
        &&& self.cx1 == other.cx1
    }

    /// A sub-region of any size at `(y, x)` of this region.  Only the part
    /// that overlaps this region (and all its parents) is drawn to.
    pub fn region(&mut self, y: i32, x: i32, sy: i32, sx: i32) -> (r: Region<'_>)
        requires
            old(self).wf(),
            i32::MIN <= old(self).oy + y <= i32::MAX,
            i32::MIN <= old(self).ox + x <= i32::MAX,
            i32::MIN <= old(self).oy + y + sy <= i32::MAX,
            i32::MIN <= old(self).ox + x + sx <= i32::MAX,
        ensures
            *r.page == *old(self).page,
            *final(self).page == *final(r.page),
            *final(final(self).page) == *final(old(self).page),
            final(self).same_frame(&*old(self)),
            r.wf(),
            r.oy == old(self).oy + y && r.ox == old(self).ox + x,
            r.sy == sy && r.sx == sx,
            r.cy0 == max(old(self).cy0 as int, old(self).oy + y),
            r.cx0 == max(old(self).cx0 as int, old(self).ox + x),
            r.cy1 == min(old(self).cy1 as int, old(self).oy + y + sy),
            r.cx1 == min(old(self).cx1 as int, old(self).ox + x + sx),
    {
        let oy = self.oy + y;
        let ox = self.ox + x;
        let cy0 = if self.cy0 > oy {
            self.cy0
        } else {
            oy
        };
        let cx0 = if self.cx0 > ox {
            self.cx0
        } else {
            ox
        };
        let cy1 = if self.cy1 < oy + sy {
            self.cy1
        } else {
            oy + sy
        };
        let cx1 = if self.cx1 < ox + sx {
            self.cx1
        } else {
            ox + sx
        };
        Region { page: self.page, oy, ox, sy, sx, cy0, cx0, cy1, cx1 }
    }

    /// Clear the region to spaces of colour `hfb`, clipped by this region
    /// and its parents.  A clip that spans the whole page width replaces
    /// the rows outright.
    pub fn clear(&mut self, hfb: u16)
        requires
            old(self).wf(),
        ensures
            final(self).wf(),
            final(self).same_frame(&*old(self)),
            *final(final(self).page) == *final(old(self).page),
            final(self).page.height() == old(self).page.height(),
            final(self).page.width() == old(self).page.width(),
            forall|y: int|
                0 <= y < old(self).page.height() ==> #[trigger] cleared_within(
                    *old(self).page,
                    *final(self).page,
                    y,
                    old(self).cy0 as int,
                    old(self).cy1 as int,
                    old(self).cx0 as int,
                    old(self).cx1 as int,
                    hfb,
                ),
            drawn_within(
                *old(self).page,
                *final(self).page,
                old(self).cy0 as int,
                old(self).cy1 as int,
                old(self).cx0 as int,
                old(self).cx1 as int,
            ),
    {
        if self.cx0 >= self.cx1 {
            assert forall|y: int| 0 <= y < old(self).page.height() implies #[trigger] cleared_within(
                *old(self).page, *self.page, y, old(self).cy0 as int, old(self).cy1 as int,
                old(self).cx0 as int, old(self).cx1 as int, hfb) by {}
            proof {
                lemma_cleared_within(*old(self).page, *self.page, old(self).cy0 as int, old(self).cy1 as int,
                    old(self).cx0 as int, old(self).cx1 as int, hfb);
            }
            return;
        }
        let full = self.cx0 <= 0 && self.cx1 >= self.page.sx;
        let mut y = self.cy0;
        while y < self.cy1
            invariant
                self.wf(),
                self.same_frame(&*old(self)),
                *final(self.page) == *final(old(self).page),
                old(self).cx0 < old(self).cx1,
                full == (old(self).cx0 <= 0 && old(self).cx1 >= old(self).page.width()),
                old(self).cy0 <= y,
                y <= old(self).cy1 || y == old(self).cy0,
                self.page.height() == old(self).page.height(),
                self.page.width() == old(self).page.width(),
                forall|i: int|
                    0 <= i < old(self).page.height() ==> #[trigger] cleared_within(
                        *old(self).page,
                        *self.page,
                        i,
                        old(self).cy0 as int,
                        y as int,
                        old(self).cx0 as int,
                        old(self).cx1 as int,
                        hfb,
                    ),
            decreases self.cy1 - y,
        {
            let yi = y as usize;
            assert(cleared_within(*old(self).page, *self.page, y as int, old(self).cy0 as int, y as int,
                old(self).cx0 as int, old(self).cx1 as int, hfb));
            let ghost before = *self.page;
            let mut row = self.page.take_row(yi);
            assert(before.rows@[y as int].wf());
            if full {
                row.replace_all();
                row.span(0, self.page.sx as u16, 0);
                row.hfb(hfb);
                row.normal = true;
                assert(Seq::<u8>::empty() + marker_bytes(hfb) =~= marker_bytes(hfb));
                assert(row.spans@ =~= seq![SpanRec { x: 0, sx: old(self).page.width(), shift: 0, payload: marker_bytes(hfb) }]);
            } else {
                row.span(self.cx0 as u16, (self.cx1 - self.cx0) as u16, 0);
                row.hfb(hfb);
                assert(Seq::<u8>::empty() + marker_bytes(hfb) =~= marker_bytes(hfb));
                assert(row.spans@ =~= old(self).page.spans(y as int).push(
                    SpanRec { x: old(self).cx0 as int, sx: old(self).cx1 - old(self).cx0, shift: 0, payload: marker_bytes(hfb) }));
            }
            self.page.put_row(yi, row);
            assert forall|i: int| 0 <= i < old(self).page.height() implies #[trigger] cleared_within(
                *old(self).page, *self.page, i, old(self).cy0 as int, y + 1,
                old(self).cx0 as int, old(self).cx1 as int, hfb) by {
                if i != y {
                    assert(cleared_within(*old(self).page, before, i, old(self).cy0 as int, y as int,
                        old(self).cx0 as int, old(self).cx1 as int, hfb));
                }
            }
            y += 1;
        }
        assert forall|i: int| 0 <= i < old(self).page.height() implies #[trigger] cleared_within(
            *old(self).page, *self.page, i, old(self).cy0 as int, old(self).cy1 as int,
            old(self).cx0 as int, old(self).cx1 as int, hfb) by {
            assert(cleared_within(*old(self).page, *self.page, i, old(self).cy0 as int, y as int,
                old(self).cx0 as int, old(self).cx1 as int, hfb));
        }
        proof {
            lemma_cleared_within(*old(self).page, *self.page, old(self).cy0 as int, old(self).cy1 as int,
                old(self).cx0 as int, old(self).cx1 as int, hfb);
        }
    }

    /// Write `text` rightwards from `(y, x)` in colour `hfb`, clipped by
    /// this region and its parents.  Embedded colour changes (U+E000 to
    /// U+F8FF) are permitted.  Returns the X-position after the text, which
    /// is right even where the text is partly or wholly clipped, so that
    /// further drawing can be placed after it.
    pub fn write(&mut self, y: i32, x: i32, hfb: u16, text: &str) -> (r: i32)
        requires
            old(self).wf(),
            write_fits(old(self).oy as int, old(self).ox as int, y as int, x as int, text.spec_bytes()),
        ensures
            r == x + width(text.spec_bytes()),
            final(self).wf(),
            final(self).same_frame(&*old(self)),
            *final(final(self).page) == *final(old(self).page),
            final(self).page.height() == old(self).page.height(),
            final(self).page.width() == old(self).page.width(),
            forall|i: int|
                0 <= i < old(self).page.height() ==> #[trigger] written_row(
                    *old(self).page,
                    *final(self).page,
                    i,
                    old(self).oy + y,
                    old(self).write_effect(y as int, x as int, hfb, text.spec_bytes()),
                ),
            drawn_within(
                *old(self).page,
                *final(self).page,
                old(self).cy0 as int,
                old(self).cy1 as int,
                old(self).cx0 as int,
                old(self).cx1 as int,
            ),
    {
        let r = self.writeb(y, x, hfb, text.as_bytes());
        proof {
            lemma_write_span_within(text.spec_bytes(), old(self).ox + x, hfb, old(self).cx0 as int, old(self).cx1 as int);
            lemma_written_within(*old(self).page, *self.page, old(self).oy + y,
                old(self).write_effect(y as int, x as int, hfb, text.spec_bytes()),
                old(self).cy0 as int, old(self).cy1 as int, old(self).cx0 as int, old(self).cx1 as int);
        }
        r
    }


    fn writeb(&mut self, y: i32, x: i32, hfb: u16, text: &[u8]) -> (r: i32)
        requires
            old(self).wf(),
            write_fits(old(self).oy as int, old(self).ox as int, y as int, x as int, text@),
        ensures
            r == x + width(text@),
            final(self).wf(),
            final(self).same_frame(&*old(self)),
            *final(final(self).page) == *final(old(self).page),
            final(self).page.height() == old(self).page.height(),
            final(self).page.width() == old(self).page.width(),
            forall|i: int|
                0 <= i < old(self).page.height() ==> #[trigger] written_row(
                    *old(self).page,
                    *final(self).page,
                    i,
                    old(self).oy + y,
                    old(self).write_effect(y as int, x as int, hfb, text@),
                ),
    {
        let ghost s = text@;
        let ghost cx0 = self.cx0 as int;
        let ghost cx1 = self.cx1 as int;
        let ghost xs = self.ox + x;
        let ghost n0: int = if xs < cx0 {
            cx0 - xs
        } else {
            0
        };
        let mut p = Scan { data: text, pos: 0 };
        let n = text.len();
        assert(p.data@ == s);
        proof {
            lemma_width_bound(s, 0);
        }
        let yy = y + self.oy;
        let mut xx = x + self.ox;
        if yy < self.cy0 || yy >= self.cy1 {
            let w = p.measure_rest();
            return (x as i64 + w as i64) as i32;
        }
        let mut h = hfb;
        // Skip what lies left of the clip
        while xx < self.cx0
            invariant
                p.data == text,
                p.data@ == s,
                n == s.len(),
                p.pos <= s.len(),
                *self == *old(self),
                self.cx0 == cx0,
                self.cx1 == cx1,
                xs == self.ox + x,
                xs <= xx,
                xx <= cx0 || xx == xs,
                advance(s, 0, n0 as nat, hfb) == advance(
                    s,
                    p.pos as int,
                    (if xx < cx0 {
                        cx0 - xx
                    } else {
                        0
                    }) as nat,
                    h,
                ),
                old(self).wf(),
                i32::MIN <= x,
                x + width(s) <= i32::MAX,
                xx - xs == n0 - (cx0 - xx) || xs >= cx0,
                xx + width_from(s, p.pos as int) == xs + width(s),
                xs + width(s) <= i32::MAX,
            decreases s.len() - p.pos,
        {
            proof {
                lemma_step_progress(s, p.pos as int);
            }
            let ghost p0 = p.pos as int;
            match p.measure() {
                Meas::End => {
                    assert(write_span(s, xs, hfb, cx0, cx1) is None);
                    assert forall|i: int| 0 <= i < old(self).page.height() implies #[trigger] written_row(
                        *old(self).page, *self.page, i, old(self).oy + y,
                        old(self).write_effect(y as int, x as int, hfb, s)) by {}
                    return xx - self.ox;
                },
                Meas::Attr(v) => {
                    assert(advance(s, p0, (cx0 - xx) as nat, h) == advance(s, p.pos as int, (cx0 - xx) as nat, v));
                    h = v;
                },
                Meas::Glyph(inc) => {
                    assert(width_from(s, p0) == 1 + width_from(s, p.pos as int));
                    assert(advance(s, p0, (cx0 - xx) as nat, h) == advance(s, p.pos as int, (cx0 - xx - 1) as nat, h));
                    xx += inc as i32;
                },
            }
        }
        let ghost h1 = h;
        let ghost i1 = p.pos as int;
        assert(advance(s, 0, n0 as nat, hfb) == (i1, 0nat, h1));
        if xx >= self.cx1 {
            let w = p.measure_rest();
            assert forall|i: int| 0 <= i < old(self).page.height() implies #[trigger] written_row(
                *old(self).page, *self.page, i, old(self).oy + y,
                old(self).write_effect(y as int, x as int, hfb, s)) by {}
            return (xx as i64 + w as i64 - self.ox as i64) as i32;
        }
        // Write what can be shown
        let x0 = xx;
        let start = p.pos;
        let ghost mut hc = h;
        loop
            invariant
                p.data == text,
                p.data@ == s,
                n == s.len(),
                start <= p.pos <= s.len(),
                start == i1,
                h == h1,
                advance(s, 0, n0 as nat, hfb) == (i1, 0nat, h1),
                n0 == (if xs < cx0 {
                    cx0 - xs
                } else {
                    0
                }),
                self.wf(),
                old(self).wf(),
                i32::MIN <= x,
                x + width(s) <= i32::MAX,
                *self == *old(self),
                self.cx0 == cx0,
                self.cx1 == cx1,
                xs == self.ox + x,
                cx0 <= x0 <= xx < cx1,
                x0 == xs + n0,
                advance(s, i1, (cx1 - x0) as nat, h1) == advance(s, p.pos as int, (cx1 - xx) as nat, hc),
                xx + width_from(s, p.pos as int) == xs + width(s),
                xs + width(s) <= i32::MAX,
                0 <= yy < self.page.height(),
                yy == old(self).oy + y,
                self.cy0 <= yy < self.cy1,
            decreases s.len() - p.pos,
        {
            proof {
                lemma_step_progress(s, p.pos as int);
            }
            let ghost p0 = p.pos as int;
            match p.measure() {
                Meas::Glyph(inc) => {
                    assert(width_from(s, p0) == 1 + width_from(s, p.pos as int));
                    assert(advance(s, p0, (cx1 - xx) as nat, hc) == advance(s, p.pos as int, (cx1 - xx - 1) as nat, hc));
                    xx += inc as i32;
                    if xx >= self.cx1 {
                        let ghost rec = SpanRec { x: x0 as int, sx: cx1 - x0, shift: 0, payload: marker_bytes(h1) + s.subrange(i1, p.pos as int) };
                        assert(advance(s, i1, (cx1 - x0) as nat, h1) == (p.pos as int, 0nat, hc));
                        assert(write_span(s, xs, hfb, cx0, cx1) == Some(rec));
                        self.put_span(yy as usize, x0 as u16, (self.cx1 - x0) as u16, h, text, start, p.pos);
                        let w = p.measure_rest();
                        return (xx as i64 + w as i64 - self.ox as i64) as i32;
                    }
                },
                Meas::Attr(v) => {
                    assert(advance(s, p0, (cx1 - xx) as nat, hc) == advance(s, p.pos as int, (cx1 - xx) as nat, v));
                    proof {
                        hc = v;
                    }
                },
                Meas::End => {
                    assert(advance(s, i1, (cx1 - x0) as nat, h1) == (p.pos as int, (cx1 - xx) as nat, hc));
                    if xx > x0 {
                        let ghost rec = SpanRec { x: x0 as int, sx: xx - x0, shift: 0, payload: marker_bytes(h1) + s.subrange(i1, p.pos as int) };
                        assert(write_span(s, xs, hfb, cx0, cx1) == Some(rec));
                        self.put_span(yy as usize, x0 as u16, (xx - x0) as u16, h, text, start, p.pos);
                    } else {
                        assert(write_span(s, xs, hfb, cx0, cx1) is None);
                        assert forall|i: int| 0 <= i < old(self).page.height() implies #[trigger] written_row(
                            *old(self).page, *self.page, i, old(self).oy + y,
                            old(self).write_effect(y as int, x as int, hfb, s)) by {}
                    }
                    return xx - self.ox;
                },
            }
        }
    }

    /// Write `text` at `(y, x)`, as `write` does, for bytes.
    fn put_text(&mut self, y: i32, x: i32, hfb: u16, text: &[u8]) -> (r: i32)
        requires
            old(self).wf(),
            write_fits(old(self).oy as int, old(self).ox as int, y as int, x as int, text@),
        ensures
            r == x + width(text@),
            final(self).wf(),
            final(self).same_frame(&*old(self)),
            *final(final(self).page) == *final(old(self).page),
            final(self).page.height() == old(self).page.height(),
            final(self).page.width() == old(self).page.width(),
            forall|i: int|
                0 <= i < old(self).page.height() ==> #[trigger] written_row(
                    *old(self).page,
                    *final(self).page,
                    i,
                    old(self).oy + y,
                    old(self).write_effect(y as int, x as int, hfb, text@),
                ),
            drawn_within(
                *old(self).page,
                *final(self).page,
                old(self).cy0 as int,
                old(self).cy1 as int,
                old(self).cx0 as int,
                old(self).cx1 as int,
            ),
    {
        let r = self.writeb(y, x, hfb, text);
        proof {
            lemma_write_span_within(text@, old(self).ox + x, hfb, old(self).cx0 as int, old(self).cx1 as int);
            lemma_written_within(*old(self).page, *self.page, old(self).oy + y,
                old(self).write_effect(y as int, x as int, hfb, text@),
                old(self).cy0 as int, old(self).cy1 as int, old(self).cx0 as int, old(self).cx1 as int);
        }
        r
    }

    /// Clear the cells `[x, x + w)` of line `y` to `hfb`.
    fn clear_from(&mut self, y: i32, x: i32, w: i32, hfb: u16)
        requires
            old(self).wf(),
            i32::MIN <= old(self).oy + y <= i32::MAX - 1,
            i32::MIN <= old(self).ox + x <= i32::MAX,
            i32::MIN <= old(self).ox + x + w <= i32::MAX,
        ensures
            final(self).wf(),
            final(self).same_frame(&*old(self)),
            *final(final(self).page) == *final(old(self).page),
            final(self).page.height() == old(self).page.height(),
            final(self).page.width() == old(self).page.width(),
            forall|i: int|
                0 <= i < old(self).page.height() ==> #[trigger] cleared_within(
                    *old(self).page,
                    *final(self).page,
                    i,
                    max(old(self).cy0 as int, old(self).oy + y),
                    min(old(self).cy1 as int, old(self).oy + y + 1),
                    max(old(self).cx0 as int, old(self).ox + x),
                    min(old(self).cx1 as int, old(self).ox + x + w),
                    hfb,
                ),
            drawn_within(
                *old(self).page,
                *final(self).page,
                old(self).cy0 as int,
                old(self).cy1 as int,
                old(self).cx0 as int,
                old(self).cx1 as int,
            ),
    {
        let ghost p0 = *self.page;
        let mut sub = self.region(y, x, 1, w);
        let ghost (a0, a1, b0, b1) = (sub.cy0 as int, sub.cy1 as int, sub.cx0 as int, sub.cx1 as int);
        sub.clear(hfb);
        proof {
            lemma_drawn_widen(p0, *sub.page, a0, a1, b0, b1, old(self).cy0 as int, old(self).cy1 as int,
                old(self).cx0 as int, old(self).cx1 as int);
        }
    }

    /// Write a text field over the whole region, wrapping line by line,
    /// and return the cursor position if the cursor is visible.
    ///
    /// `shift` is the number of units to shift the text leftwards: where
    /// it is positive a `<` marker in `ov_hfb` stands at (0,0) and that
    /// much of the text is skipped.  Where the text does not fit, the last
    /// cell of the last line holds a `>` marker in `ov_hfb`.  `cursor` is
    /// the byte offset of the cursor in the text, `hfb` the colour before
    /// the first colour change in the text, and `bg_hfb` the colour of the
    /// cells that no text covers.
    #[verifier::rlimit(100)]
    #[verifier::spinoff_prover]
    pub fn field(
        &mut self,
        shift: i32,
        cursor: usize,
        hfb: u16,
        bg_hfb: u16,
        ov_hfb: u16,
        text: &str,
    ) -> (r: Option<(i32, i32)>)
        requires
            old(self).wf(),
            field_fits(
                old(self).oy as int,
                old(self).ox as int,
                old(self).sy as int,
                old(self).sx as int,
                text.spec_bytes().len() as int,
            ),
        ensures
            final(self).wf(),
            final(self).same_frame(&*old(self)),
            *final(final(self).page) == *final(old(self).page),
            drawn_within(
                *old(self).page,
                *final(self).page,
                old(self).cy0 as int,
                old(self).cy1 as int,
                old(self).cx0 as int,
                old(self).cx1 as int,
            ),
            r matches Some(c) ==> 0 <= c.0 < old(self).sy && 0 <= c.1 < old(self).sx,
            r == field_layout(
                text.spec_bytes(),
                shift as int,
                cursor as int,
                hfb,
                bg_hfb,
                ov_hfb,
                old(self).sy as int,
                old(self).sx as int,
            ).0,
            drawn_by(
                *old(self).page,
                *final(self).page,
                field_layout(
                    text.spec_bytes(),
                    shift as int,
                    cursor as int,
                    hfb,
                    bg_hfb,
                    ov_hfb,
                    old(self).sy as int,
                    old(self).sx as int,
                ).1,
                old(self).frame(),
            ),
    {
        let bytes = text.as_bytes();
        let ghost sb = bytes@;
        let n = bytes.len();
        let curs_len: usize = if n > cursor {
            n - cursor
        } else {
            0
        };
        let ghost p0 = *self.page;
        let ghost fr = self.frame();
        let ghost lay = field_layout(sb, shift as int, cursor as int, hfb, bg_hfb, ov_hfb, self.sy as int, self.sx as int);
        let ghost mut done: Seq<Draw> = Seq::empty();
        let ghost (cy0, cy1, cx0, cx1) = (self.cy0 as int, self.cy1 as int, self.cx0 as int, self.cx1 as int);
        let lt: [u8; 1] = [60u8];
        let gt: [u8; 1] = [62u8];
        let lts = lt.as_slice();
        let gts = gt.as_slice();
        proof {
            reveal_with_fuel(width_from, 2);
            assert(lts@ =~= seq![60u8]);
            assert(gts@ =~= seq![62u8]);
            assert(width(lts@) == 1);
            assert(width(gts@) == 1);
            lemma_drawn_refl(p0, cy0, cy1, cx0, cx1);
            lemma_drawn_by_empty(p0, fr);
        }
        let mut p = Scan { data: bytes, pos: 0 };
        let mut x: i32 = 0;
        let ghost h_start = hfb;
        let mut hfb = hfb;
        // Skip the part shifted out of view
        if shift > 0 {
            let ghost q0 = *self.page;
            x = self.put_text(0, 0, ov_hfb, lts);
            proof {
                lemma_drawn_trans(p0, q0, *self.page, cy0, cy1, cx0, cx1);
                lemma_drawn_by_text(p0, q0, *self.page, done, fr, 0, 0, ov_hfb, lts@);
                done = done.push(Draw::Text { y: 0, x: 0, h: ov_hfb, text: lts@ });
            }
            let mut left: i32 = shift;
            loop
                invariant_except_break
                    left > 0,
                    shift_skip(sb, 0, shift as int, h_start) == shift_skip(sb, p.pos as int, left as int, hfb),
                invariant
                    p.data@ == bytes@,
                    sb == bytes@,
                    p.pos <= n,
                    n == bytes@.len(),
                    left >= 0,
                ensures
                    p.data@ == bytes@,
                    p.pos <= n,
                    shift_skip(sb, 0, shift as int, h_start) == (p.pos as int, hfb),
                decreases n - p.pos,
            {
                let rewind = p.pos;
                proof {
                    lemma_step_progress(p.data@, p.pos as int);
                }
                match p.measure() {
                    Meas::End => break,
                    Meas::Attr(v) => {
                        hfb = v;
                    },
                    Meas::Glyph(inc) => {
                        if inc as i32 > left {
                            p.pos = rewind;
                            break;
                        }
                        assert(shift_skip(sb, rewind as int, left as int, hfb) == shift_skip(
                            sb,
                            p.pos as int,
                            left - inc,
                            hfb,
                        ));
                        left = left - inc as i32;
                        if left == 0 {
                            assert(shift_skip(sb, p.pos as int, 0, hfb) == (p.pos as int, hfb));
                            break;
                        }
                    },
                }
            }
        }
        // Write all the glyphs that fit on each line
        let mut curs: Option<(i32, i32)> = None;
        let mut before_curs = n - p.pos >= curs_len;
        let mut sx = self.sx;
        let sy = self.sy;
        let mut overflow = false;
        let mut y: i32 = 0;
        let ghost cl = curs_len as int;
        proof {
            let rest = lines(sb, p.pos as int, x as int, 0, sy as int, sx as int, before_curs, curs, cl, hfb, bg_hfb, ov_hfb);
            assert(lay.0 == rest.0);
            assert(lay.1 =~= done + rest.1);
        }
        while y < sy
            invariant
                sb == bytes@,
                cl == curs_len,
                fr == old(self).frame(),
                lay.0 == lines(sb, p.pos as int, x as int, y as int, sy as int, old(self).sx as int, before_curs, curs, cl, hfb, bg_hfb, ov_hfb).0,
                lay.1 == done + lines(sb, p.pos as int, x as int, y as int, sy as int, old(self).sx as int, before_curs, curs, cl, hfb, bg_hfb, ov_hfb).1,
                drawn_by(p0, *self.page, done, fr),
                p0 == *old(self).page,
                gts@ == seq![62u8],
                width(gts@) == 1,
                y < sy ==> sx == old(self).sx,
                self.wf(),
                self.same_frame(&*old(self)),
                *final(self.page) == *final(old(self).page),
                drawn_within(p0, *self.page, cy0, cy1, cx0, cx1),
                cy0 == old(self).cy0 && cy1 == old(self).cy1 && cx0 == old(self).cx0 && cx1 == old(self).cx1,
                field_fits(old(self).oy as int, old(self).ox as int, old(self).sy as int, old(self).sx as int, n as int),
                p.data@ == bytes@,
                p.pos <= n,
                n == bytes@.len(),
                sy == old(self).sy,
                0 <= y,
                y <= sy || y == 0,
                0 <= x <= 1,
                curs matches Some(c) ==> 0 <= c.0 < old(self).sy && 0 <= c.1 < old(self).sx,
            decreases sy - y,
        {
            let ghost i_line = p.pos as int;
            let ghost x_line = x as int;
            let ghost b_line = before_curs;
            let ghost c_line = curs;
            let ghost h_line = hfb;
            let ghost whole = lines(sb, i_line, x_line, y as int, sy as int, old(self).sx as int, b_line, c_line, cl, h_line, bg_hfb, ov_hfb);
            let ghost done_before = done;
            overflow = false;
            if y == sy - 1 {
                // Final line: check whether the text overflows, and if so
                // leave room for the overflow marker
                let mut scan = p;
                let mut scan_x = x;
                while scan_x < sx
                    invariant_except_break
                        reach(sb, p.pos as int, x as int, sx as int) == reach(sb, scan.pos as int, scan_x as int, sx as int),
                    invariant
                        scan.data@ == bytes@,
                        sb == bytes@,
                        scan.pos <= n,
                        n == bytes@.len(),
                        x <= scan_x,
                        scan_x <= sx || scan_x == x,
                    ensures
                        reach(sb, p.pos as int, x as int, sx as int) == scan_x,
                    decreases n - scan.pos,
                {
                    proof {
                        lemma_step_progress(scan.data@, scan.pos as int);
                    }
                    match scan.measure() {
                        Meas::Glyph(inc) => {
                            scan_x = scan_x + inc as i32;
                        },
                        Meas::Attr(_) => {},
                        Meas::End => break,
                    }
                }
                overflow = scan_x >= sx;
                if overflow {
                    sx = sx - 1;
                }
            }
            let start = p.pos;
            let x0 = x;
            let line_hfb = hfb;
            let mut wraps = false;
            let ghost lr = line_run(sb, start as int, x0 as int, sx as int, y as int, before_curs, curs, cl, hfb);
            loop
                invariant_except_break
                    lr == line_run(sb, p.pos as int, x as int, sx as int, y as int, before_curs, curs, cl, hfb),
                    !wraps,
                invariant
                    sb == bytes@,
                    cl == curs_len,
                    p.data@ == bytes@,
                    start <= p.pos <= n,
                    n == bytes@.len(),
                    0 <= y < sy,
                    sy == old(self).sy,
                    0 <= x0 <= 1,
                    x0 <= x,
                    x <= sx || x == x0,
                    sx <= old(self).sx,
                    sx < i32::MAX,
                    overflow ==> sx == old(self).sx - 1,
                    !overflow ==> sx == old(self).sx,
                    field_fits(old(self).oy as int, old(self).ox as int, old(self).sy as int, old(self).sx as int, n as int),
                    old(self).ox == self.ox,
                    curs matches Some(c) ==> 0 <= c.0 < old(self).sy && 0 <= c.1 < old(self).sx,
                ensures
                    lr == (p.pos as int, x as int, before_curs, curs, wraps, hfb),
                    p.data@ == bytes@,
                    start <= p.pos <= n,
                    x0 <= x,
                    x <= sx || x == x0,
                    curs matches Some(c) ==> 0 <= c.0 < old(self).sy && 0 <= c.1 < old(self).sx,
                decreases n - p.pos,
            {
                let rewind = p.pos;
                proof {
                    lemma_step_progress(p.data@, p.pos as int);
                }
                match p.measure() {
                    Meas::End => break,
                    Meas::Attr(v) => {
                        hfb = v;
                    },
                    Meas::Glyph(inc) => {
                        if x + inc as i32 > sx {
                            p.pos = rewind;
                            wraps = true;
                            break;
                        }
                        if before_curs && n - p.pos < curs_len {
                            before_curs = false;
                            curs = Some((y, x));
                        }
                        x = x + inc as i32;
                    },
                }
            }
            let part = vstd::slice::slice_subrange(bytes, start, p.pos);
            proof {
                lemma_width_bound(part@, 0);
            }
            let ghost q0 = *self.page;
            self.put_text(y, x0, line_hfb, part);
            proof {
                lemma_drawn_trans(p0, q0, *self.page, cy0, cy1, cx0, cx1);
                lemma_drawn_by_text(p0, q0, *self.page, done, fr, y as int, x0 as int, line_hfb, part@);
                done = done.push(Draw::Text { y: y as int, x: x0 as int, h: line_hfb, text: part@ });
            }
            if n - p.pos == curs_len && x < sx && (wraps || before_curs) {
                before_curs = false;
                curs = Some((y, x));
            }
            if x < sx {
                let ghost q1 = *self.page;
                self.clear_from(y, x, sx - x, bg_hfb);
                proof {
                    lemma_drawn_trans(p0, q1, *self.page, cy0, cy1, cx0, cx1);
                    lemma_drawn_by_fill(p0, q1, *self.page, done, fr, y as int, x as int, sx - x, bg_hfb);
                    done = done.push(Draw::Fill { y: y as int, x: x as int, w: sx - x, h: bg_hfb });
                }
            }
            if overflow {
                let ghost q2 = *self.page;
                self.put_text(y, sx, ov_hfb, gts);
                proof {
                    lemma_drawn_trans(p0, q2, *self.page, cy0, cy1, cx0, cx1);
                    lemma_drawn_by_text(p0, q2, *self.page, done, fr, y as int, sx as int, ov_hfb, gts@);
                    done = done.push(Draw::Text { y: y as int, x: sx as int, h: ov_hfb, text: gts@ });
                }
            }
            proof {
                let ops = seq![Draw::Text { y: y as int, x: x_line, h: h_line, text: sb.subrange(i_line, p.pos as int) }] + (if x < sx {
                    seq![Draw::Fill { y: y as int, x: x as int, w: sx - x, h: bg_hfb }]
                } else {
                    Seq::empty()
                }) + (if overflow {
                    seq![Draw::Text { y: y as int, x: sx as int, h: ov_hfb, text: seq![62u8] }]
                } else {
                    Seq::empty()
                });
                let rest = lines(sb, p.pos as int, 0, y + 1, sy as int, old(self).sx as int, before_curs, curs, cl, hfb, bg_hfb, ov_hfb);
                assert(whole == (rest.0, ops + rest.1));
                assert(done =~= done_before + ops);
                assert(lay.1 =~= done + rest.1);
            }
            x = 0;
            y += 1;
        }
        curs
    }

    /// Append to row `y` a span at `x` of width `sx` in colour `hfb` holding
    /// `text[from..to]`.
    fn put_span(&mut self, y: usize, x: u16, sx: u16, hfb: u16, text: &[u8], from: usize, to: usize)
        requires
            old(self).wf(),
            y < old(self).page.height(),
            x <= ARG_MAX,
            sx <= ARG_MAX,
            from <= to <= text@.len(),
        ensures
            final(self).wf(),
            final(self).same_frame(&*old(self)),
            *final(final(self).page) == *final(old(self).page),
            final(self).page.height() == old(self).page.height(),
            final(self).page.width() == old(self).page.width(),
            forall|i: int|
                0 <= i < old(self).page.height() ==> #[trigger] written_row(
                    *old(self).page,
                    *final(self).page,
                    i,
                    y as int,
                    Some(SpanRec { x: x as int, sx: sx as int, shift: 0, payload: marker_bytes(hfb) + text@.subrange(from as int, to as int) }),
                ),
    {
        let ghost before = *self.page;
        let mut row = self.page.take_row(y);
        assert(before.rows@[y as int].wf());
        row.span(x, sx, 0);
        row.hfb(hfb);
        row.add_slice(text, from, to);
        proof {
            lemma_push_payloads(before.spans(y as int), SpanRec { x: x as int, sx: sx as int, shift: 0, payload: Seq::empty() }, marker_bytes(hfb), text@.subrange(from as int, to as int));
            assert(Seq::<u8>::empty() + marker_bytes(hfb) + text@.subrange(from as int, to as int) =~= marker_bytes(hfb) + text@.subrange(from as int, to as int));
        }
        self.page.put_row(y, row);
    }
}

/// Normalising is idempotent: normalising a normalised page changes no
/// row, byte for byte.
pub proof fn lemma_normalize_idempotent(p: Page, q: Page, r: Page)
    requires
        normalized(p, q),
        normalized(q, r),
    ensures
        r.height() == q.height(),
        forall|y: int| 0 <= y < q.height() ==> #[trigger] r.line(y) == q.line(y) && r.spans(y) == q.spans(y),
{
    assert forall|y: int| 0 <= y < q.height() implies #[trigger] r.line(y) == q.line(y) && r.spans(y) == q.spans(y) by {
        assert(normalized_row(p, q, y));
        assert(normalized_row(q, r, y));
    }
}

/// After normalising, the span records of every row lie side by side,
/// none empty, and cover exactly `[0, width)`; the row's bytes are exactly
/// those records.
pub proof fn lemma_normalized_rows_cover(p: Page, q: Page)
    requires
        q.wf(),
        normalized(p, q),
    ensures
        forall|y: int|
            0 <= y < q.height() ==> #[trigger] covers(q.spans(y), q.width()) && q.line(y) == encode(
                q.spans(y),
            ),
{
    q.lemma_lines();
    assert forall|y: int| 0 <= y < q.height() implies #[trigger] covers(q.spans(y), q.width()) && q.line(y)
        == encode(q.spans(y)) by {
        assert(normalized_row(p, q, y));
        assert(q.rows@[y].normal);
    }
}

/// Clearing a clip that spans the whole width to colour `c`, then
/// normalising, leaves each row of the clip as one record over the whole
/// width that holds only the marker for `c`: spaces in colour `c`.
pub proof fn lemma_clear_full_width(p: Page, q: Page, r: Page, cy0: int, cy1: int, cx0: int, cx1: int, c: u16)
    requires
        q.height() == p.height(),
        q.width() == p.width(),
        forall|i: int| 0 <= i < p.height() ==> #[trigger] cleared_within(p, q, i, cy0, cy1, cx0, cx1, c),
        cx0 <= 0,
        cx1 >= p.width(),
        cx0 < cx1,
        normalized(q, r),
    ensures
        forall|y: int|
            0 <= y < p.height() && cy0 <= y < cy1 ==> #[trigger] r.spans(y) == seq![
                SpanRec { x: 0, sx: p.width(), shift: 0, payload: marker_bytes(c) },
            ],
{
    assert forall|y: int| 0 <= y < p.height() && cy0 <= y < cy1 implies #[trigger] r.spans(y) == seq![
        SpanRec { x: 0, sx: p.width(), shift: 0, payload: marker_bytes(c) },
    ] by {
        assert(cleared_within(p, q, y, cy0, cy1, cx0, cx1, c));
        assert(normalized_row(q, r, y));
    }
}

/// Drawing within a clip leaves every row outside it byte for byte as it
/// was.  A row inside it keeps its records and gains only records that lie
/// within the clip's columns, unless the clip spans the whole width.
pub proof fn lemma_clip_keeps_outside(p: Page, q: Page, cy0: int, cy1: int, cx0: int, cx1: int)
    requires
        drawn_within(p, q, cy0, cy1, cx0, cx1),
    ensures
        forall|y: int| 0 <= y < p.height() && !(cy0 <= y < cy1) ==> #[trigger] q.line(y) == p.line(y),
        forall|y: int|
            0 <= y < p.height() && cy0 <= y < cy1 && !(cx0 <= 0 && cx1 >= p.width()) ==> {
                &&& p.spans(y).len() <= (#[trigger] q.spans(y)).len()
                &&& q.spans(y).subrange(0, p.spans(y).len() as int) == p.spans(y)
                &&& forall|k: int|
                    p.spans(y).len() <= k < q.spans(y).len() ==> cx0 <= #[trigger] q.spans(y)[k].x
                        && q.spans(y)[k].x + q.spans(y)[k].sx <= cx1
            },
{
    assert forall|y: int| 0 <= y < p.height() && !(cy0 <= y < cy1) implies #[trigger] q.line(y) == p.line(y) by {
        assert(row_drawn_in(p, q, y, cy0, cy1, cx0, cx1));
    }
    assert forall|y: int|
        0 <= y < p.height() && cy0 <= y < cy1 && !(cx0 <= 0 && cx1 >= p.width()) implies {
        &&& p.spans(y).len() <= (#[trigger] q.spans(y)).len()
        &&& q.spans(y).subrange(0, p.spans(y).len() as int) == p.spans(y)
        &&& forall|k: int|
            p.spans(y).len() <= k < q.spans(y).len() ==> cx0 <= #[trigger] q.spans(y)[k].x && q.spans(
                y,
            )[k].x + q.spans(y)[k].sx <= cx1
    } by {
        assert(row_drawn_in(p, q, y, cy0, cy1, cx0, cx1));
        if q.same_row(p, y) {
            assert(q.spans(y).subrange(0, p.spans(y).len() as int) =~= p.spans(y));
        }
    }
}

/// Normalising keeps what a row shows: each row that was not in normal
/// form is rewritten as the records of side-by-side glyphs over the whole
/// width that show exactly what painting the glyphs of its old log, in
/// log order, showed.
pub proof fn lemma_normalize_keeps_picture(p: Page, q: Page)
    requires
        normalized(p, q),
    ensures
        forall|y: int|
            0 <= y < p.height() && !p.is_normal(y) ==> #[trigger] normal_form(
                q.spans(y),
                p.line(y),
                q.width(),
            ),
{
    assert forall|y: int| 0 <= y < p.height() && !p.is_normal(y) implies #[trigger] normal_form(
        q.spans(y),
        p.line(y),
        q.width(),
    ) by {
        assert(normalized_row(p, q, y));
    }
}

} // verus!
