use crate::termout::TermOut;
use vstd::prelude::*;

verus! {

/// Cleanup string used until the application saves its own: `ESC c`,
/// a full terminal reset.
pub open spec fn default_cleanup() -> Seq<u8> {
    seq![27u8, 99u8]
}

/// What a flush asks of the terminal: whether the cleanup string changed
/// (so that the panic hook must be renewed), and the bytes to write, if any.
pub struct Flush {
    pub cleanup_changed: bool,
    pub write: Option<Vec<u8>>,
}

/// Whether input that is still pending (`pending` bytes) calls for the
/// force-decode timer: yes unless this pass is the forced one.
pub fn arm_force_timer(pending: usize, force: bool) -> (r: bool)
    ensures
        r == (pending > 0 && !force),
{
    pending > 0 && !force
}

/// One decision of the input framing: where decoding goes on, whether a
/// key was decoded to forward, whether to re-arm the idle-check timer, and
/// whether to stop for now.
pub struct InputStep {
    pub next: usize,
    pub forward: bool,
    pub arm_check: bool,
    pub stop: bool,
}

/// Drop the first `pos` bytes of the input buffer, which were decoded.
pub fn consume_input(buf: &mut Vec<u8>, pos: usize)
    requires
        pos <= old(buf)@.len(),
    ensures
        final(buf)@ == old(buf)@.subrange(pos as int, old(buf)@.len() as int),
{
    let rest = buf.split_off(pos);
    *buf = rest;
}

/// `w` holds exactly `bytes`.
pub open spec fn writes(w: Option<Vec<u8>>, bytes: Seq<u8>) -> bool {
    match w {
        Some(v) => v@ == bytes,
        None => false,
    }
}

/// The decisions of the terminal controller, apart from the OS resources
/// it owns.
///
/// The controller is active (raw mode, input registered) or paused
/// (cooked mode, output dropped), and output is disabled for good once a
/// write to the terminal has failed.  The event loop performs what each
/// method returns and reports back.
pub struct Session {
    disable_output: bool,
    paused: bool,
    check_enable: bool,
    cleanup: Vec<u8>,
}

impl Session {
    pub closed spec fn output_off(&self) -> bool {
        self.disable_output
    }

    pub closed spec fn is_paused(&self) -> bool {
        self.paused
    }

    pub closed spec fn checking(&self) -> bool {
        self.check_enable
    }

    pub closed spec fn cleanup_bytes(&self) -> Seq<u8> {
        self.cleanup@
    }

    /// An active session with output enabled, the idle check off and the
    /// default cleanup string.
    pub fn new() -> (r: Self)
        ensures
            !r.output_off(),
            !r.is_paused(),
            !r.checking(),
            r.cleanup_bytes() == default_cleanup(),
    {
        let mut cleanup: Vec<u8> = Vec::new();
        cleanup.push(27);
        cleanup.push(99);
        assert(cleanup@ =~= default_cleanup());
        Self { disable_output: false, paused: false, check_enable: false, cleanup }
    }

    /// Whether the session is paused.
    pub fn paused(&self) -> (r: bool)
        ensures
            r == self.is_paused(),
    {
        self.paused
    }

    /// Whether output has been disabled for good.
    pub fn output_disabled(&self) -> (r: bool)
        ensures
            r == self.output_off(),
    {
        self.disable_output
    }

    /// The bytes to send on teardown, pause or panic.
    pub fn cleanup(&self) -> (r: &[u8])
        ensures
            r@ == self.cleanup_bytes(),
    {
        self.cleanup.as_slice()
    }

    /// Turn the idle-check keystroke on or off.
    pub fn check(&mut self, enable: bool)
        ensures
            final(self).checking() == enable,
            final(self).output_off() == old(self).output_off(),
            final(self).is_paused() == old(self).is_paused(),
            final(self).cleanup_bytes() == old(self).cleanup_bytes(),
    {
        self.check_enable = enable;
    }

    /// Whether the idle-check keystroke is on.
    pub fn check_enabled(&self) -> (r: bool)
        ensures
            r == self.checking(),
    {
        self.check_enable
    }

    /// The next step of decoding input: at byte `pos` of `len` pending, the
    /// decoder reported `decoded` (bytes used by one key, or None where the
    /// input is still ambiguous).  Stop at the end of the input, at an
    /// ambiguous decode, or at a count that does not fit; else pass over the
    /// key's bytes, forward the key, and re-arm the idle check where it is on.
    pub fn input_step(&self, pos: usize, len: usize, decoded: Option<usize>) -> (r: InputStep)
        requires
            pos <= len,
        ensures
            (decoded is None || pos == len) ==> r.stop && r.next == pos && !r.forward && !r.arm_check,
            match decoded {
                Some(n) => pos < len && 0 < n <= len - pos ==> !r.stop && r.next == pos + n && r.forward
                    && r.arm_check == self.checking(),
                None => true,
            },
            match decoded {
                Some(n) => pos < len && !(0 < n <= len - pos) ==> r.stop && r.next == pos && !r.forward
                    && !r.arm_check,
                None => true,
            },
    {
        match decoded {
            Some(n) => {
                if pos < len && 0 < n && n <= len - pos {
                    InputStep { next: pos + n, forward: true, arm_check: self.check_enable, stop: false }
                } else {
                    InputStep { next: pos, forward: false, arm_check: false, stop: true }
                }
            },
            None => InputStep { next: pos, forward: false, arm_check: false, stop: true },
        }
    }

    /// Whether the bell may be written: always, paused or not, unless
    /// output is disabled.
    pub fn bell_allowed(&self) -> (r: bool)
        ensures
            r == !self.output_off(),
    {
        !self.disable_output
    }

    /// Record that a write to the terminal failed: output stays off.
    pub fn output_failed(&mut self)
        ensures
            final(self).output_off(),
            final(self).is_paused() == old(self).is_paused(),
            final(self).checking() == old(self).checking(),
            final(self).cleanup_bytes() == old(self).cleanup_bytes(),
    {
        self.disable_output = true;
    }

    /// Flush: take over a newly saved cleanup string, then hand out the
    /// committed bytes of `out` to be written, unless paused (they are
    /// dropped) or output is disabled (they stay).
    pub fn flush(&mut self, out: &mut TermOut) -> (r: Flush)
        requires
            old(out).wf(),
        ensures
            final(out).wf(),
            final(out).pending_cleanup() == None::<Seq<u8>>,
            r.cleanup_changed == (old(out).pending_cleanup() is Some),
            final(self).cleanup_bytes() == match old(out).pending_cleanup() {
                Some(c) => c,
                None => old(self).cleanup_bytes(),
            },
            final(self).output_off() == old(self).output_off(),
            final(self).is_paused() == old(self).is_paused(),
            final(self).checking() == old(self).checking(),
            final(out).size_spec() == old(out).size_spec(),
            final(out).colour_256() == old(out).colour_256(),
            old(self).output_off() ==> r.write is None,
            old(self).output_off() && !old(self).is_paused() ==> final(out).data() == old(out).data()
                && final(out).mark() == old(out).mark(),
            old(self).is_paused() || !old(self).output_off() ==> final(out).mark() == 0
                && final(out).data() == old(out).data().subrange(old(out).mark(), old(out).data().len() as int),
            old(self).is_paused() ==> r.write is None,
            !old(self).output_off() && !old(self).is_paused() ==> writes(
                r.write,
                old(out).data().subrange(0, old(out).mark()),
            ),
    {
        let changed = match out.take_cleanup() {
            Some(c) => {
                self.cleanup = c;
                true
            },
            None => false,
        };
        if self.paused {
            out.drain_flush();
            Flush { cleanup_changed: changed, write: None }
        } else if self.disable_output {
            Flush { cleanup_changed: changed, write: None }
        } else {
            let w = vstd::slice::slice_to_vec(out.data_to_flush());
            out.drain_flush();
            Flush { cleanup_changed: changed, write: Some(w) }
        }
    }

    /// Pause: drop what is buffered, queue the cleanup string and commit
    /// it, and hand it out to be written (unless output is disabled).
    /// None where the session was paused already, and nothing changes.
    pub fn pause(&mut self, out: &mut TermOut) -> (r: Option<Flush>)
        requires
            old(out).wf(),
        ensures
            final(out).wf(),
            old(self).is_paused() ==> r is None && *final(out) == *old(out) && final(self).cleanup_bytes()
                == old(self).cleanup_bytes() && final(self).is_paused(),
            !old(self).is_paused() ==> final(self).is_paused() && match r {
                Some(f) => {
                    &&& f.cleanup_changed == (old(out).pending_cleanup() is Some)
                    &&& old(self).output_off() ==> f.write is None
                    &&& !old(self).output_off() ==> writes(f.write, old(self).cleanup_bytes())
                },
                None => false,
            },
            final(self).output_off() == old(self).output_off(),
            final(self).checking() == old(self).checking(),
            final(out).size_spec() == old(out).size_spec(),
    {
        if self.paused {
            return None;
        }
        out.discard();
        out.bytes(self.cleanup.as_slice());
        out.flush();
        assert(out.data().subrange(0, out.mark()) =~= self.cleanup@);
        let f = self.flush(out);
        self.paused = true;
        Some(f)
    }

    /// Resume: leave the paused state and drop what is buffered, so that
    /// the application redraws in full.  False where the session was not
    /// paused, and nothing changes.
    pub fn resume(&mut self, out: &mut TermOut) -> (r: bool)
        requires
            old(out).wf(),
        ensures
            final(out).wf(),
            r == old(self).is_paused(),
            !final(self).is_paused(),
            r ==> final(out).data() == Seq::<u8>::empty() && final(out).mark() == 0,
            !r ==> *final(out) == *old(out),
            final(self).output_off() == old(self).output_off(),
            final(self).checking() == old(self).checking(),
            final(self).cleanup_bytes() == old(self).cleanup_bytes(),
            final(out).size_spec() == old(out).size_spec(),
    {
        if !self.paused {
            return false;
        }
        self.paused = false;
        out.discard();
        true
    }
}

} // verus!
