use vstd::prelude::*;
use crate::row::ARG_MAX;

verus! {

/// An item measured while scanning a display string.
pub enum Meas {
    /// A visible glyph with its width.
    Glyph(u16),
    /// An attribute change (U+E000..U+F8FF) with the new code.
    Attr(u16),
    /// End of the text (end of data, or a span-header byte).
    End,
}

pub open spec fn is_cont(b: u8) -> bool {
    0x80 <= b < 0xC0
}

/// One measuring step over `s` at byte `i`: the item found and the index
/// after it.  Every codepoint is one cell wide; an invalid byte counts as
/// one replacement character; U+E000..U+F8FF are attribute changes.
pub open spec fn step(s: Seq<u8>, i: int) -> (Meas, int) {
    if i < 0 || i >= s.len() || s[i] >= 0xF8 {
        (Meas::End, i)
    } else if s[i] < 0xC0 {
        (Meas::Glyph(1), i + 1)
    } else if s[i] < 0xE0 {
        if i + 2 <= s.len() && is_cont(s[i + 1]) {
            (Meas::Glyph(1), i + 2)
        } else {
            (Meas::Glyph(1), i + 1)
        }
    } else if s[i] < 0xF0 {
        if i + 3 <= s.len() && is_cont(s[i + 1]) && is_cont(s[i + 2]) {
            let v = (s[i] - 0xE0) * 4096 + (s[i + 1] - 0x80) * 64 + (s[i + 2] - 0x80);
            if 0xE000 <= v < 0xF900 {
                (Meas::Attr((v - 0xE000) as u16), i + 3)
            } else {
                (Meas::Glyph(1), i + 3)
            }
        } else {
            (Meas::Glyph(1), i + 1)
        }
    } else {
        if i + 4 <= s.len() && is_cont(s[i + 1]) && is_cont(s[i + 2]) && is_cont(s[i + 3]) {
            (Meas::Glyph(1), i + 4)
        } else {
            (Meas::Glyph(1), i + 1)
        }
    }
}

pub proof fn lemma_step_progress(s: Seq<u8>, i: int)
    requires
        0 <= i <= s.len(),
    ensures
        step(s, i).0 is End ==> step(s, i).1 == i,
        !(step(s, i).0 is End) ==> i < step(s, i).1 <= s.len(),
        step(s, i).0 is Glyph ==> step(s, i).0->Glyph_0 == 1,
{
}

/// Width of the text of `s` from byte `i` up to its end item, with
/// attribute changes counting for nothing.
pub open spec fn width_from(s: Seq<u8>, i: int) -> nat
    decreases s.len() - i,
{
    if 0 <= i <= s.len() {
        let (m, j) = step(s, i);
        if i < j <= s.len() {
            match m {
                Meas::Glyph(w) => w as nat + width_from(s, j),
                Meas::Attr(_) => width_from(s, j),
                Meas::End => 0,
            }
        } else {
            0
        }
    } else {
        0
    }
}

/// Width of a whole display string.
pub open spec fn width(s: Seq<u8>) -> nat {
    width_from(s, 0)
}

pub proof fn lemma_width_bound(s: Seq<u8>, i: int)
    requires
        0 <= i <= s.len(),
    ensures
        width_from(s, i) <= s.len() - i,
    decreases s.len() - i,
{
    lemma_step_progress(s, i);
    let (m, j) = step(s, i);
    if i < j <= s.len() {
        lemma_width_bound(s, j);
    }
}

/// Used to scan across a display string, measuring items.
#[derive(Clone, Copy)]
pub(crate) struct Scan<'a> {
    pub(crate) data: &'a [u8],
    pub(crate) pos: usize,
}

impl<'a> Scan<'a> {
    /// Take enough bytes to form one visible character, or one attribute
    /// change, and say which.  Stops at any span-header byte (>= F8).
    /// Invalid UTF-8 bytes count as the replacement character.
    pub(crate) fn measure(&mut self) -> (r: Meas)
        requires
            old(self).pos <= old(self).data@.len(),
        ensures
            (r, final(self).pos as int) == step(old(self).data@, old(self).pos as int),
            final(self).data == old(self).data,
            final(self).pos <= final(self).data@.len(),
    {
        let s = self.data;
        let i = self.pos;
        let n = s.len();
        if i >= n || s[i] >= 0xF8 {
            return Meas::End;
        }
        let b = s[i];
        if b < 0xC0 {
        } else if b < 0xE0 {
            if n - i >= 2 && s[i + 1] >= 0x80 && s[i + 1] < 0xC0 {
                self.pos = i + 2;
                return Meas::Glyph(1);
            }
        } else if b < 0xF0 {
            if n - i >= 3 && s[i + 1] >= 0x80 && s[i + 1] < 0xC0 && s[i + 2] >= 0x80 && s[i + 2]
                < 0xC0 {
                let v: u32 = (b - 0xE0) as u32 * 4096 + (s[i + 1] - 0x80) as u32 * 64 + (s[i + 2]
                    - 0x80) as u32;
                self.pos = i + 3;
                if v >= 0xE000 && v < 0xF900 {
                    return Meas::Attr((v - 0xE000) as u16);
                }
                return Meas::Glyph(1);
            }
        } else {
            if n - i >= 4 && s[i + 1] >= 0x80 && s[i + 1] < 0xC0 && s[i + 2] >= 0x80 && s[i + 2]
                < 0xC0 && s[i + 3] >= 0x80 && s[i + 3] < 0xC0 {
                self.pos = i + 4;
                return Meas::Glyph(1);
            }
        }
        self.pos = i + 1;
        Meas::Glyph(1)
    }

    /// Measure the rest of the string
    pub(crate) fn measure_rest(&mut self) -> (r: usize)
        requires
            old(self).pos <= old(self).data@.len(),
        ensures
            r == width_from(old(self).data@, old(self).pos as int),
            final(self).data == old(self).data,
            final(self).pos <= final(self).data@.len(),
    {
        let mut x: usize = 0;
        let n = self.data.len();
        proof {
            lemma_width_bound(self.data@, self.pos as int);
        }
        loop
            invariant
                n == self.data@.len(),
                self.data == old(self).data,
                self.pos <= self.data@.len(),
                x + width_from(self.data@, self.pos as int) == width_from(
                    old(self).data@,
                    old(self).pos as int,
                ),
                width_from(old(self).data@, old(self).pos as int) <= self.data@.len(),
            decreases self.data@.len() - self.pos,
        {
            proof {
                lemma_step_progress(self.data@, self.pos as int);
            }
            let ghost p0 = self.pos as int;
            match self.measure() {
                Meas::Glyph(inc) => {
                    assert(width_from(self.data@, p0) == inc + width_from(self.data@, self.pos as int));
                    x += inc as usize;
                },
                Meas::Attr(_) => {},
                Meas::End => return x,
            }
        }
    }

    /// Get the next byte and advance, or return None at the end.
    pub(crate) fn get(&mut self) -> (r: Option<u8>)
        requires
            old(self).pos <= old(self).data@.len(),
        ensures
            final(self).data == old(self).data,
            old(self).pos < old(self).data@.len() ==> r == Some(old(self).data@[old(self).pos as int])
                && final(self).pos == old(self).pos + 1,
            old(self).pos >= old(self).data@.len() ==> r is None && final(self).pos == old(self).pos,
    {
        if self.pos < self.data.len() {
            let v = self.data[self.pos];
            self.pos += 1;
            Some(v)
        } else {
            None
        }
    }
}

/// Index after the next `n` glyphs of `s` from byte `i` (taking the
/// attribute changes before each of them), how many of the `n` were not
/// found because the text ended, and the attribute then in force.
pub open spec fn advance(s: Seq<u8>, i: int, n: nat, h: u16) -> (int, nat, u16)
    decreases s.len() - i,
{
    if n == 0 || i < 0 || i > s.len() {
        (i, n, h)
    } else {
        let (m, j) = step(s, i);
        if i < j <= s.len() {
            match m {
                Meas::Glyph(_) => advance(s, j, (n - 1) as nat, h),
                Meas::Attr(v) => advance(s, j, n, v),
                Meas::End => (i, n, h),
            }
        } else {
            (i, n, h)
        }
    }
}

/// The header argument at byte `i` of `s` and the index after it, if
/// the bytes are there.
pub open spec fn arg_at(s: Seq<u8>, i: int) -> Option<(int, int)> {
    if 0 <= i < s.len() {
        if s[i] < 128 {
            Some((s[i] as int, i + 1))
        } else if i + 1 < s.len() {
            Some(((s[i] - 128) * 256 + s[i + 1], i + 2))
        } else {
            None
        }
    } else {
        None
    }
}

/// The span header at byte `i` of `s`, where the previous span ended at
/// `pos`: `(x, sx, shift)` and the index after it, if there is one.
pub open spec fn header_at(s: Seq<u8>, i: int, pos: int) -> Option<((int, int, int), int)> {
    if 0 <= i < s.len() {
        let op = s[i];
        if op == 0xFC {
            match arg_at(s, i + 1) {
                Some((sx, j)) => Some(((pos, sx, 0), j)),
                None => None,
            }
        } else if op == 0xFD {
            match arg_at(s, i + 1) {
                Some((shift, j)) => match arg_at(s, j) {
                    Some((sx, k)) => Some(((pos, sx, shift), k)),
                    None => None,
                },
                None => None,
            }
        } else if op == 0xFE {
            match arg_at(s, i + 1) {
                Some((x, j)) => match arg_at(s, j) {
                    Some((sx, k)) => Some(((x, sx, 0), k)),
                    None => None,
                },
                None => None,
            }
        } else if op == 0xFF {
            match arg_at(s, i + 1) {
                Some((shift, j)) => match arg_at(s, j) {
                    Some((x, k)) => match arg_at(s, k) {
                        Some((sx, l)) => Some(((x, sx, shift), l)),
                        None => None,
                    },
                    None => None,
                },
                None => None,
            }
        } else {
            None
        }
    } else {
        None
    }
}

/// Header of a span record, as read back from a row log.
pub(crate) struct Span {
    pub(crate) shift: u16,
    pub(crate) x: u16,
    pub(crate) sx: u16,
}

impl<'a> Scan<'a> {
    /// Read a header argument; None where the data ends first.
    pub(crate) fn get_arg(&mut self) -> (r: Option<u16>)
        requires
            old(self).pos <= old(self).data@.len(),
        ensures
            final(self).data == old(self).data,
            final(self).pos <= final(self).data@.len(),
            old(self).pos <= final(self).pos,
            match arg_at(old(self).data@, old(self).pos as int) {
                Some((v, j)) => r == Some(v as u16) && final(self).pos == j,
                None => r is None,
            },
            r matches Some(v) ==> v <= ARG_MAX && final(self).pos > old(self).pos,
    {
        match self.get() {
            Some(v) => {
                if v < 128 {
                    return Some(v as u16);
                }
                match self.get() {
                    Some(lo) => Some((v - 128) as u16 * 256 + lo as u16),
                    None => None,
                }
            },
            None => None,
        }
    }

    /// Read a span header at the current position, where the previous
    /// span ended at `x`.  None at the end of the data, or where the bytes
    /// there are no span header.
    pub(crate) fn get_span(&mut self, x: u16) -> (r: Option<Span>)
        requires
            old(self).pos <= old(self).data@.len(),
            x <= ARG_MAX,
        ensures
            final(self).data == old(self).data,
            final(self).pos <= final(self).data@.len(),
            old(self).pos <= final(self).pos,
            r matches Some(sp) ==> sp.x <= ARG_MAX && sp.sx <= ARG_MAX && sp.shift <= ARG_MAX
                && final(self).pos > old(self).pos,
            match header_at(old(self).data@, old(self).pos as int, x as int) {
                Some((h, j)) => r matches Some(sp) && (sp.x as int, sp.sx as int, sp.shift as int) == h
                    && final(self).pos == j,
                None => r is None,
            },
    {
        match self.get() {
            Some(0xFC) => match self.get_arg() {
                Some(sx) => Some(Span { x, shift: 0, sx }),
                None => None,
            },
            Some(0xFD) => match (self.get_arg(), self.get_arg()) {
                (Some(shift), Some(sx)) => Some(Span { shift, x, sx }),
                _ => None,
            },
            Some(0xFE) => match (self.get_arg(), self.get_arg()) {
                (Some(x), Some(sx)) => Some(Span { shift: 0, x, sx }),
                _ => None,
            },
            Some(0xFF) => match (self.get_arg(), self.get_arg(), self.get_arg()) {
                (Some(shift), Some(x), Some(sx)) => Some(Span { shift, x, sx }),
                _ => None,
            },
            _ => None,
        }
    }
}

} // verus!
