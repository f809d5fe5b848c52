use vstd::prelude::*;
use vstd::string::StringSliceAdditionalSpecFns;

verus! {

/// Features supported by the terminal
pub struct Features {
    /// Supports 256 colours?
    pub colour_256: bool,
}

/// Decimal text of `v` clamped to `0..=999`, without leading zeros.
pub open spec fn num_bytes(v: int) -> Seq<u8> {
    if v <= 0 {
        seq![48u8]
    } else if v <= 9 {
        seq![(v + 48) as u8]
    } else if v <= 99 {
        seq![(v / 10 + 48) as u8, (v % 10 + 48) as u8]
    } else if v <= 999 {
        seq![(v / 100 + 48) as u8, (v / 10 % 10 + 48) as u8, (v % 10 + 48) as u8]
    } else {
        seq![57u8, 57u8, 57u8]
    }
}

/// `ESC [`
pub open spec fn csi_bytes() -> Seq<u8> {
    seq![27u8, 91u8]
}

/// ANSI foreground code of colour digit `d` (0-9, colour-intensity order).
pub open spec fn fg_code(d: int) -> int {
    if d == 0 {
        30
    } else if d == 1 {
        34
    } else if d == 2 {
        31
    } else if d == 3 {
        35
    } else if d == 4 {
        32
    } else if d == 5 {
        36
    } else if d == 6 {
        33
    } else if d == 7 {
        37
    } else {
        39
    }
}

/// Attribute sequence selecting the compact `HFB` colour code.
pub open spec fn hfb_bytes(hfb: u8) -> Seq<u8> {
    seq![27u8, 91u8, 48u8, 59u8] + (if hfb >= 100 {
        seq![49u8, 59u8]
    } else {
        Seq::<u8>::empty()
    }) + num_bytes(fg_code((hfb / 10 % 10) as int)) + seq![59u8] + num_bytes(
        10 + fg_code((hfb % 10) as int),
    ) + seq![109u8]
}

/// Cursor-positioning sequence for 0-based row `y` and column `x`.
pub open spec fn at_bytes(y: int, x: int) -> Seq<u8> {
    csi_bytes() + num_bytes(y + 1) + seq![59u8] + num_bytes(x + 1) + seq![72u8]
}

/// `n` space bytes.
pub open spec fn spaces_bytes(n: int) -> Seq<u8> {
    Seq::new(if n > 0 { n as nat } else { 0 }, |i: int| 32u8)
}

/// Output buffer for the terminal.
///
/// This buffers byte data on the way to the terminal, so that a whole
/// screen update can go out in a single write.  Coordinates and sizes
/// are `i32`, so that positions taken modulo the screen size can be
/// negative (measured from the bottom or right edge).
///
/// Calls that add to the buffer return `self`, so that they chain.
pub struct TermOut {
    buf: Vec<u8>,
    flush_to: usize,
    features: Features,
    size: (i32, i32),
    new_cleanup: Option<Vec<u8>>,
}

impl TermOut {
    /// Everything buffered, committed or not.
    pub closed spec fn data(&self) -> Seq<u8> {
        self.buf@
    }

    /// Length of the committed prefix.
    pub closed spec fn mark(&self) -> int {
        self.flush_to as int
    }

    pub closed spec fn size_spec(&self) -> (i32, i32) {
        self.size
    }

    pub closed spec fn colour_256(&self) -> bool {
        self.features.colour_256
    }

    /// The cleanup string waiting to be taken over, if any.
    pub closed spec fn pending_cleanup(&self) -> Option<Seq<u8>> {
        match self.new_cleanup {
            Some(v) => Some(v@),
            None => None,
        }
    }

    /// The committed prefix never runs past the end of the buffer.
    pub open spec fn wf(&self) -> bool {
        0 <= self.mark() <= self.data().len()
    }

    /// `self` is `before` with `bytes` appended and nothing else changed.
    pub open spec fn appended(&self, before: TermOut, bytes: Seq<u8>) -> bool {
        &&& self.data() =~= before.data() + bytes
        &&& self.mark() == before.mark()
        &&& self.size_spec() == before.size_spec()
        &&& self.colour_256() == before.colour_256()
        &&& self.pending_cleanup() == before.pending_cleanup()
        &&& (before.wf() ==> self.wf())
    }

    /// Create an empty buffer with size (0, 0).
    pub fn new(features: Features) -> (r: Self)
        ensures
            r.wf(),
            r.data() == Seq::<u8>::empty(),
            r.mark() == 0,
            r.size_spec() == (0i32, 0i32),
            r.colour_256() == features.colour_256,
            r.pending_cleanup() == None::<Seq<u8>>,
    {
        Self { buf: Vec::new(), flush_to: 0, features, new_cleanup: None, size: (0, 0) }
    }

    /// Get the features supported by the terminal
    pub fn features(&self) -> (r: &Features)
        ensures
            r.colour_256 == self.colour_256(),
    {
        &self.features
    }

    /// Get current terminal size: (rows, columns)
    pub fn size(&self) -> (r: (i32, i32))
        ensures
            r == self.size_spec(),
    {
        self.size
    }

    /// Get current terminal size-Y, i.e. rows
    pub fn sy(&self) -> (r: i32)
        ensures
            r == self.size_spec().0,
    {
        self.size.0
    }

    /// Get current terminal size-X, i.e. columns
    pub fn sx(&self) -> (r: i32)
        ensures
            r == self.size_spec().1,
    {
        self.size.1
    }

    /// Mark everything buffered so far as ready for flushing.  Data
    /// added afterwards is not flushed until the next call.
    pub fn flush(&mut self)
        ensures
            final(self).wf(),
            final(self).mark() == old(self).data().len(),
            final(self).data() == old(self).data(),
            final(self).size_spec() == old(self).size_spec(),
            final(self).colour_256() == old(self).colour_256(),
            final(self).pending_cleanup() == old(self).pending_cleanup(),
    {
        self.flush_to = self.buf.len();
    }

    /// Add a chunk of UTF-8 string data to the output buffer.
    pub fn out(&mut self, data: &str) -> (r: &mut Self)
        ensures
            r.appended(*old(self), data.spec_bytes()),
            *final(self) == *final(r),
    {
        self.bytes(data.as_bytes())
    }

    /// Add a chunk of byte data to the output buffer.
    pub fn bytes(&mut self, data: &[u8]) -> (r: &mut Self)
        ensures
            r.appended(*old(self), data@),
            *final(self) == *final(r),
    {
        let n = data.len();
        let mut i: usize = 0;
        while i < n
            invariant
                n == data@.len(),
                i <= n,
                self.appended(*old(self), data@.subrange(0, i as int)),
            decreases n - i,
        {
            self.buf.push(data[i]);
            i += 1;
            assert(data@.subrange(0, i as int) =~= data@.subrange(0, i - 1) + seq![data@[i - 1]]);
        }
        assert(data@.subrange(0, n as int) =~= data@);
        self
    }

    /// Add a single byte to the output buffer.
    pub fn byt(&mut self, v1: u8) -> (r: &mut Self)
        ensures
            r.appended(*old(self), seq![v1]),
            *final(self) == *final(r),
    {
        self.buf.push(v1);
        self
    }

    /// Add a single ASCII byte to the output buffer.
    pub fn asc(&mut self, c: char) -> (r: &mut Self)
        requires
            (c as u32) < 128,
        ensures
            r.appended(*old(self), seq![c as u8]),
            *final(self) == *final(r),
    {
        self.byt(c as u8)
    }

    /// Add an ESC byte (27) + ASCII byte to the output buffer.
    pub fn esc(&mut self, c: char) -> (r: &mut Self)
        requires
            (c as u32) < 128,
        ensures
            r.appended(*old(self), seq![27u8, c as u8]),
            *final(self) == *final(r),
    {
        self.byt(27).byt(c as u8)
    }

    /// Add `ESC [`, which is the CSI sequence
    pub fn csi(&mut self) -> (r: &mut Self)
        ensures
            r.appended(*old(self), csi_bytes()),
            *final(self) == *final(r),
    {
        self.esc('[')
    }

    /// Add a 1-3 digit decimal number (0..=999) to the output buffer,
    /// as used in control sequences.  Out-of-range numbers are
    /// replaced by the nearest valid one.
    pub fn num(&mut self, v: i32) -> (r: &mut Self)
        ensures
            r.appended(*old(self), num_bytes(v as int)),
            *final(self) == *final(r),
    {
        if v <= 0 {
            self.byt(48)
        } else if v <= 9 {
            self.byt(v as u8 + 48)
        } else if v <= 99 {
            let u = v as u32;
            self.byt((u / 10) as u8 + 48).byt((u % 10) as u8 + 48)
        } else if v <= 999 {
            let u = v as u32;
            self.byt((u / 100) as u8 + 48).byt((u / 10 % 10) as u8 + 48).byt((u % 10) as u8 + 48)
        } else {
            self.byt(57).byt(57).byt(57)
        }
    }

    /// Add the ANSI sequence that moves the cursor to row `y`, column
    /// `x`, with (0,0) top-left.  Coordinates are taken modulo the
    /// screen size, so (-1,-1) is bottom-right.
    pub fn at(&mut self, y: i32, x: i32) -> (r: &mut Self)
        requires
            old(self).size_spec().0 > 0,
            old(self).size_spec().1 > 0,
        ensures
            r.appended(
                *old(self),
                at_bytes(y as int % old(self).size_spec().0 as int, x as int % old(self).size_spec().1 as int),
            ),
            *final(self) == *final(r),
    {
        let (sy, sx) = self.size;
        let ry = match y.checked_rem_euclid(sy) {
            Some(v) => v,
            None => 0,
        };
        let rx = match x.checked_rem_euclid(sx) {
            Some(v) => v,
            None => 0,
        };
        self.csi().num(ry + 1).asc(';').num(rx + 1).asc('H')
    }

    /// Add an attribute string.  `codes` is a semicolon-separated list
    /// of numeric codes, for example "1;31;46".
    pub fn attr(&mut self, codes: &str) -> (r: &mut Self)
        ensures
            r.appended(*old(self), csi_bytes() + codes.spec_bytes() + seq![109u8]),
            *final(self) == *final(r),
    {
        self.csi().out(codes).asc('m')
    }

    /// Add the attribute sequence for the colour written as the decimal
    /// digits `HFB`: `H` 1 for bold, `F` and `B` the foreground and
    /// background in colour-intensity order (0 black, 1 blue, 2 red,
    /// 3 magenta, 4 green, 5 cyan, 6 yellow, 7 white, 8/9 default).
    pub fn hfb(&mut self, hfb: u8) -> (r: &mut Self)
        ensures
            r.appended(*old(self), hfb_bytes(hfb)),
            *final(self) == *final(r),
    {
        self.csi().byt(48).byt(59);
        if hfb >= 100 {
            self.byt(49).byt(59);
        }
        let f = fg(hfb / 10 % 10);
        let b = fg(hfb % 10);
        self.num(f).asc(';').num(10 + b).asc('m')
    }

    /// Add ANSI sequence to switch to underline cursor
    pub fn underline_cursor(&mut self) -> (r: &mut Self)
        ensures
            r.appended(*old(self), csi_bytes() + seq![51u8, 52u8, 104u8]),
            *final(self) == *final(r),
    {
        self.csi().byt(51).byt(52).byt(104)
    }

    /// Add ANSI sequence to switch to block cursor
    pub fn block_cursor(&mut self) -> (r: &mut Self)
        ensures
            r.appended(*old(self), csi_bytes() + seq![51u8, 52u8, 108u8]),
            *final(self) == *final(r),
    {
        self.csi().byt(51).byt(52).byt(108)
    }

    /// Add ANSI sequences to show cursor
    pub fn show_cursor(&mut self) -> (r: &mut Self)
        ensures
            r.appended(
                *old(self),
                csi_bytes() + seq![63u8, 50u8, 53u8, 104u8] + csi_bytes() + seq![63u8, 48u8, 99u8],
            ),
            *final(self) == *final(r),
    {
        self.csi().byt(63).byt(50).byt(53).byt(104).csi().byt(63).byt(48).byt(99)
    }

    /// Add ANSI sequences to hide cursor
    pub fn hide_cursor(&mut self) -> (r: &mut Self)
        ensures
            r.appended(
                *old(self),
                csi_bytes() + seq![63u8, 50u8, 53u8, 108u8] + csi_bytes() + seq![63u8, 49u8, 99u8],
            ),
            *final(self) == *final(r),
    {
        self.csi().byt(63).byt(50).byt(53).byt(108).csi().byt(63).byt(49).byt(99)
    }

    /// Add ANSI sequence to move to origin (top-left)
    pub fn origin(&mut self) -> (r: &mut Self)
        ensures
            r.appended(*old(self), csi_bytes() + seq![72u8]),
            *final(self) == *final(r),
    {
        self.csi().byt(72)
    }

    /// Add ANSI sequence to erase to end-of-line
    pub fn erase_eol(&mut self) -> (r: &mut Self)
        ensures
            r.appended(*old(self), csi_bytes() + seq![75u8]),
            *final(self) == *final(r),
    {
        self.csi().byt(75)
    }

    /// Add ANSI sequence to erase whole display
    pub fn clear(&mut self) -> (r: &mut Self)
        ensures
            r.appended(*old(self), csi_bytes() + seq![50u8, 74u8]),
            *final(self) == *final(r),
    {
        self.csi().byt(50).byt(74)
    }

    /// Add `n` spaces (none where `n` is not positive)
    pub fn spaces(&mut self, n: i32) -> (r: &mut Self)
        ensures
            r.appended(*old(self), spaces_bytes(n as int)),
            *final(self) == *final(r),
    {
        let mut i: i32 = 0;
        while i < n
            invariant
                0 <= i,
                i <= (if n > 0 { n } else { 0 }),
                self.appended(*old(self), spaces_bytes(i as int)),
            decreases n - i,
        {
            self.buf.push(32);
            i += 1;
            assert(spaces_bytes(i as int) =~= spaces_bytes(i - 1) + seq![32u8]);
        }
        assert(spaces_bytes(i as int) =~= spaces_bytes(n as int));
        self
    }

    /// Add ANSI sequence to reset attributes to the default
    pub fn attr_reset(&mut self) -> (r: &mut Self)
        ensures
            r.appended(*old(self), csi_bytes() + seq![48u8, 109u8]),
            *final(self) == *final(r),
    {
        self.csi().byt(48).byt(109)
    }

    /// Add ANSI sequence to do a full reset of the terminal
    pub fn full_reset(&mut self) -> (r: &mut Self)
        ensures
            r.appended(*old(self), seq![27u8, 99u8]),
            *final(self) == *final(r),
    {
        self.esc('c')
    }

    /// Switch to UTF-8 mode, for terminals that do not default to it.
    pub fn utf8_mode(&mut self) -> (r: &mut Self)
        ensures
            r.appended(*old(self), seq![27u8, 37u8, 71u8]),
            *final(self) == *final(r),
    {
        self.esc('%').byt(71)
    }

    /// Move the cursor to the bottom line and do a linefeed, which
    /// scrolls the screen by one line and leaves the cursor at the
    /// bottom-left corner.
    pub fn scroll_up(&mut self) -> (r: &mut Self)
        requires
            old(self).size_spec().0 > 0,
            old(self).size_spec().1 > 0,
        ensures
            r.appended(*old(self), at_bytes(old(self).size_spec().0 - 1, 0) + seq![10u8]),
            *final(self) == *final(r),
    {
        let ghost sy = self.size.0 as int;
        let ghost sx = self.size.1 as int;
        assert((-1int) % sy == sy - 1) by (nonlinear_arith)
            requires
                sy > 0,
        {
            assert(-1 == (-1) * sy + (sy - 1));
        }
        assert(0int % sx == 0) by (nonlinear_arith)
            requires
                sx > 0,
        ;
        self.at(-1, 0).asc('\n')
    }

    /// Move the whole buffer into the pending cleanup string, and leave
    /// the buffer empty.  The cleanup string is sent to the terminal on
    /// error or when the terminal is paused, and takes effect on the
    /// next flush.
    pub fn save_cleanup(&mut self)
        ensures
            final(self).wf(),
            final(self).pending_cleanup() == Some(old(self).data()),
            final(self).data() == Seq::<u8>::empty(),
            final(self).mark() == 0,
            final(self).size_spec() == old(self).size_spec(),
            final(self).colour_256() == old(self).colour_256(),
    {
        let all = self.buf.split_off(0);
        self.new_cleanup = Some(all);
        self.flush_to = 0;
    }

    /// Take the pending cleanup string, if any, leaving none.
    pub fn take_cleanup(&mut self) -> (r: Option<Vec<u8>>)
        ensures
            match r {
                Some(v) => old(self).pending_cleanup() == Some(v@),
                None => old(self).pending_cleanup() == None::<Seq<u8>>,
            },
            final(self).pending_cleanup() == None::<Seq<u8>>,
            final(self).data() == old(self).data(),
            final(self).mark() == old(self).mark(),
            final(self).wf() == old(self).wf(),
            final(self).size_spec() == old(self).size_spec(),
            final(self).colour_256() == old(self).colour_256(),
    {
        let mut r = None;
        core::mem::swap(&mut r, &mut self.new_cleanup);
        r
    }

    /// The committed prefix, ready to be written to the terminal.
    pub fn data_to_flush(&self) -> (r: &[u8])
        requires
            self.wf(),
        ensures
            r@ == self.data().subrange(0, self.mark()),
    {
        vstd::slice::slice_subrange(self.buf.as_slice(), 0, self.flush_to)
    }

    /// Remove the committed prefix and reset the watermark.
    pub fn drain_flush(&mut self)
        requires
            old(self).wf(),
        ensures
            final(self).wf(),
            final(self).data() == old(self).data().subrange(old(self).mark(), old(self).data().len() as int),
            final(self).mark() == 0,
            final(self).size_spec() == old(self).size_spec(),
            final(self).colour_256() == old(self).colour_256(),
            final(self).pending_cleanup() == old(self).pending_cleanup(),
    {
        let rest = self.buf.split_off(self.flush_to);
        self.buf = rest;
        self.flush_to = 0;
    }

    /// Discard all buffered contents.
    pub fn discard(&mut self)
        ensures
            final(self).wf(),
            final(self).data() == Seq::<u8>::empty(),
            final(self).mark() == 0,
            final(self).size_spec() == old(self).size_spec(),
            final(self).colour_256() == old(self).colour_256(),
            final(self).pending_cleanup() == old(self).pending_cleanup(),
    {
        self.buf.clear();
        self.flush_to = 0;
    }

    /// Record the terminal size: (rows, columns).
    pub fn set_size(&mut self, sy: i32, sx: i32)
        ensures
            final(self).size_spec() == (sy, sx),
            final(self).data() == old(self).data(),
            final(self).mark() == old(self).mark(),
            final(self).wf() == old(self).wf(),
            final(self).colour_256() == old(self).colour_256(),
            final(self).pending_cleanup() == old(self).pending_cleanup(),
    {
        self.size = (sy, sx);
    }
}

/// std's I/O error type, carried opaquely: the writes below never fail.
#[verifier::external_type_specification]
#[verifier::external_body]
pub struct ExIoError(std::io::Error);

/// The buffer is the final destination of writes: `flush` here does
/// nothing, as a whole update goes to the terminal in one flush.
impl std::io::Write for TermOut {
    fn write(&mut self, buf: &[u8]) -> std::io::Result<usize> {
        self.bytes(buf);
        Ok(buf.len())
    }

    fn flush(&mut self) -> std::io::Result<()> {
        Ok(())
    }
}

/// ANSI foreground code of colour digit `d`.
fn fg(d: u8) -> (r: i32)
    requires
        d < 10,
    ensures
        r == fg_code(d as int),
{
    match d {
        0 => 30,
        1 => 34,
        2 => 31,
        3 => 35,
        4 => 32,
        5 => 36,
        6 => 33,
        7 => 37,
        _ => 39,
    }
}

} // verus!
