//! Per-window capture worker logic: canonical frames, raw-buffer conversion
//! and frame-rate throttling.
//!
//! The platform capture facility delivers row-padded raw buffers on a worker
//! thread owned by the application. The worker calls into this module for
//! every decision: whether a delivery is rate-limited, whether the buffer's
//! row pitch matches the platform contract, how the padding is stripped, and
//! when the next emission is due.

use vstd::prelude::*;

verus! {

/// Row alignment of raw platform buffers, in pixels: the platform rounds the
/// row pitch up to the next multiple of this.
pub const ROW_ALIGN_PX: u64 = 64;

/// Canonical, padding-free frame: exactly `width * height * 4` bytes in
/// row-major, 4-bytes-per-pixel order, tagged with the owning window handle.
pub struct CapturedFrame {
    pub hwnd: isize,
    pub width: u32,
    pub height: u32,
    pub bytes: Vec<u8>,
}

impl CapturedFrame {
    /// The frame is tightly packed: no padding byte ever leaves the worker.
    pub open spec fn wf(self) -> bool {
        self.bytes@.len() == self.width * self.height * 4
    }
}

/// Commands a supervisor can send into a running capture worker. Reserved
/// extension point: no meaningful variant is defined yet, and none is ever
/// sent; the verifier requires at least one variant, so a placeholder stands
/// here.
pub enum WindowCaptureCommand {
    Reserved,
}

/// Status messages a capture worker reports back to the supervisor.
pub enum WindowCaptureMessage {
    /// Diagnostic output; capture continues.
    Output { message: String },
    /// The worker terminated; always the last message of a session.
    Closed { hwnd: isize },
}

/// `x` rounded up to the next multiple of `n`.
pub open spec fn round_up_to(x: nat, n: nat) -> nat
    recommends
        n > 0,
{
    (((x + n - 1) as int / n as int) * n as int) as nat
}

/// Row pitch in pixels of a raw buffer of `raw_len` bytes with `height` rows:
/// the number of whole 4-byte pixels per row.
pub open spec fn row_pitch_px(raw_len: nat, height: nat) -> nat
    recommends
        height > 0,
{
    (raw_len / 4) / height
}

/// The tightly packed bytes of a row-padded raw buffer: output byte `k` lies
/// in row `k / (width * 4)` at in-row offset `k % (width * 4)`, and comes
/// from the same row and offset of the raw buffer, whose rows are
/// `pitch_px * 4` bytes long.
pub open spec fn packed_bytes(raw: Seq<u8>, width: nat, height: nat, pitch_px: nat) -> Seq<u8>
    recommends
        width > 0,
{
    Seq::new(
        width * height * 4,
        |k: int| raw[(k / (width * 4) as int) * (pitch_px * 4) as int + k % (width * 4) as int],
    )
}

/// Rounding up never shrinks: `x <= round_up_to(x, n)`.
proof fn lemma_round_up_to_ge(x: nat, n: nat)
    requires
        n > 0,
    ensures
        round_up_to(x, n) >= x,
{
    let q = (x + n - 1) as int / n as int;
    vstd::arithmetic::div_mod::lemma_fundamental_div_mod((x + n - 1) as int, n as int);
    vstd::arithmetic::div_mod::lemma_mod_division_less_than_divisor((x + n - 1) as int, n as int);
    assert(n as int * q == (x + n - 1) - (x + n - 1) as int % n as int);
    vstd::arithmetic::mul::lemma_mul_is_commutative(n as int, q);
}

/// Strips the row padding from one raw platform buffer.
///
/// The raw buffer holds `height` rows of `pitch` whole 4-byte pixels, where
/// `pitch` is recovered from the buffer length as the platform facility
/// defines it. When `pitch` equals `width` rounded up to the platform row
/// alignment, the result is the canonical frame: the first `width * 4` bytes
/// of every row, in order, with the pad columns dropped. Any other pitch
/// breaks the assumed platform buffer contract and yields `None`; the worker
/// must treat that as fatal.
pub fn convert_raw_buffer(hwnd: isize, width: u32, height: u32, raw: &Vec<u8>) -> (r: Option<
    CapturedFrame,
>)
    requires
        height > 0,
    ensures
        r is Some <==> row_pitch_px(raw@.len(), height as nat) == round_up_to(
            width as nat,
            ROW_ALIGN_PX as nat,
        ),
        r matches Some(f) ==> {
            &&& f.hwnd == hwnd
            &&& f.width == width
            &&& f.height == height
            &&& f.wf()
            &&& f.bytes@ == packed_bytes(
                raw@,
                width as nat,
                height as nat,
                row_pitch_px(raw@.len(), height as nat),
            )
        },
{
    let px_count: usize = raw.len() / 4;
    let pitch_px: usize = px_count / (height as usize);
    let expected: u64 = ((width as u64) + ROW_ALIGN_PX - 1) / ROW_ALIGN_PX * ROW_ALIGN_PX;
    if (pitch_px as u64) != expected {
        return None;
    }
    proof {
        assert(pitch_px as nat == row_pitch_px(raw@.len(), height as nat));
        assert(pitch_px as nat == round_up_to(width as nat, ROW_ALIGN_PX as nat));
        lemma_round_up_to_ge(width as nat, ROW_ALIGN_PX as nat);
        assert(width as nat <= pitch_px as nat);
        vstd::arithmetic::div_mod::lemma_fundamental_div_mod(px_count as int, height as int);
        vstd::arithmetic::div_mod::lemma_mod_division_less_than_divisor(
            px_count as int,
            height as int,
        );
        assert(height as int * (pitch_px as int) <= px_count as int);
        vstd::arithmetic::div_mod::lemma_fundamental_div_mod(raw@.len() as int, 4);
        vstd::arithmetic::div_mod::lemma_mod_division_less_than_divisor(raw@.len() as int, 4);
        assert(4 * (px_count as int) <= raw@.len() as int);
    }
    let pitch4: usize = pitch_px * 4;
    let w4: usize = (width as usize) * 4;
    proof {
        assert(height as int * (pitch4 as int) <= raw@.len() as int) by (nonlinear_arith)
            requires
                height as int * (pitch_px as int) <= px_count as int,
                4 * (px_count as int) <= raw@.len() as int,
                pitch4 == pitch_px as int * 4,
        ;
        assert(height as int * (w4 as int) <= height as int * (pitch4 as int)) by (nonlinear_arith)
            requires
                w4 == width as int * 4,
                pitch4 == pitch_px as int * 4,
                width as int <= pitch_px as int,
                height as int >= 0,
        ;
        assert(w4 as int * (height as int) <= raw@.len() as int) by (nonlinear_arith)
            requires
                height as int * (w4 as int) <= raw@.len() as int,
        ;
    }
    let capacity: usize = w4 * (height as usize);
    let mut bytes: Vec<u8> = Vec::with_capacity(capacity);
    let mut r: usize = 0;
    while r < height as usize
        invariant
            height > 0,
            width as int <= pitch_px as int,
            w4 == width as int * 4,
            pitch4 == pitch_px as int * 4,
            raw@.len() <= usize::MAX,
            height as int * (pitch4 as int) <= raw@.len() as int,
            height as int * (w4 as int) <= raw@.len() as int,
            0 <= r <= height as int,
            bytes@.len() == r as int * (w4 as int),
            forall|k: int|
                0 <= k < bytes@.len() ==> bytes@[k] == raw@[(k / w4 as int) * (pitch4 as int) + k
                    % (w4 as int)],
        decreases height as int - r as int,
    {
        proof {
            assert((r as int + 1) * (pitch4 as int) <= height as int * (pitch4 as int)
                && r as int * (pitch4 as int) + pitch4 as int == (r as int + 1) * (pitch4 as int)
                && r as int * (pitch4 as int) >= 0) by (nonlinear_arith)
                requires
                    0 <= r as int,
                    r as int + 1 <= height as int,
                    pitch4 as int >= 0,
            ;
            assert((r as int + 1) * (w4 as int) <= height as int * (w4 as int)
                && r as int * (w4 as int) + w4 as int == (r as int + 1) * (w4 as int)
                && r as int * (w4 as int) >= 0) by (nonlinear_arith)
                requires
                    0 <= r as int,
                    r as int + 1 <= height as int,
                    w4 as int >= 0,
            ;
        }
        let row_start: usize = r * pitch4;
        let mut j: usize = 0;
        while j < w4
            invariant
                height > 0,
                width as int <= pitch_px as int,
                w4 == width as int * 4,
                pitch4 == pitch_px as int * 4,
                raw@.len() <= usize::MAX,
                height as int * (pitch4 as int) <= raw@.len() as int,
                height as int * (w4 as int) <= raw@.len() as int,
                0 <= r < height as int,
                r as int * (pitch4 as int) + pitch4 as int <= raw@.len() as int,
                r as int * (w4 as int) + w4 as int <= raw@.len() as int,
                row_start == r as int * (pitch4 as int),
                0 <= j <= w4 as int,
                bytes@.len() == r as int * (w4 as int) + j as int,
                forall|k: int|
                    0 <= k < bytes@.len() ==> bytes@[k] == raw@[(k / w4 as int) * (pitch4 as int)
                        + k % (w4 as int)],
            decreases w4 as int - j as int,
        {
            let b = raw[row_start + j];
            bytes.push(b);
            proof {
                vstd::arithmetic::div_mod::lemma_fundamental_div_mod_converse(
                    r as int * (w4 as int) + j as int,
                    w4 as int,
                    r as int,
                    j as int,
                );
            }
            j += 1;
        }
        r += 1;
    }
    proof {
        assert(bytes@.len() == height as int * (w4 as int));
        assert(height as int * (w4 as int) == (width as nat * height as nat * 4) as int)
            by (nonlinear_arith)
            requires
                w4 == width as int * 4,
        ;
        assert(bytes@ =~= packed_bytes(
            raw@,
            width as nat,
            height as nat,
            row_pitch_px(raw@.len(), height as nat),
        ));
    }
    Some(CapturedFrame { hwnd, width, height, bytes })
}

/// Target frame rate shared by all capture sessions, in frames per second.
pub const TARGET_FPS: u64 = 60;

/// The emission instant scheduled after a frame is emitted at `now`:
/// nominally one period (`1000 / fps` milliseconds) after the previously
/// scheduled instant; if the wall clock has already passed that, one period
/// after `now` instead, so a burst of late deliveries does not cause a
/// catch-up flood.
pub open spec fn next_update_after(next_update: nat, now: nat, fps: nat) -> nat
    recommends
        fps > 0,
{
    let period = 1000nat / fps;
    if now < next_update + period {
        next_update + period
    } else {
        now + period
    }
}

/// What a capture worker must do with one raw-buffer delivery.
pub enum FrameAction {
    /// Rate limited: discard the buffer and do nothing else.
    Skip,
    /// The buffer's row pitch breaks the assumed platform contract: the
    /// worker must abort rather than emit a corrupt frame.
    StrideMismatch,
    /// Push this frame into the session's frame channel.
    Emit(CapturedFrame),
}

/// Per-session frame handler state: the owning window, the target rate and
/// the next scheduled emission instant. Instants are milliseconds of a
/// monotonic clock, read by the application and passed in as plain values.
pub struct Handler {
    pub hwnd: isize,
    pub fps: u64,
    pub next_update: u64,
}

impl Handler {
    /// The target rate is positive, so a period can be computed.
    pub open spec fn wf(self) -> bool {
        self.fps >= 1
    }

    pub fn new(hwnd: isize, fps: u64, now: u64) -> (h: Handler)
        requires
            fps >= 1,
        ensures
            h.hwnd == hwnd,
            h.fps == fps,
            h.next_update == now,
            h.wf(),
    {
        Handler { hwnd, fps, next_update: now }
    }

    /// Reschedules after an emission at `now`; drift-corrects as
    /// `next_update_after` states.
    pub fn compute_next_update(&mut self, now: u64)
        requires
            old(self).wf(),
            old(self).next_update + 1000u64 / old(self).fps <= u64::MAX,
            now + 1000u64 / old(self).fps <= u64::MAX,
        ensures
            final(self).hwnd == old(self).hwnd,
            final(self).fps == old(self).fps,
            final(self).wf(),
            final(self).next_update == next_update_after(
                old(self).next_update as nat,
                now as nat,
                old(self).fps as nat,
            ),
    {
        let period: u64 = 1000 / self.fps;
        let mut next_update: u64 = self.next_update + period;
        if now >= next_update {
            next_update = now + period;
        }
        self.next_update = next_update;
    }

    /// One raw-buffer delivery: discard it while the scheduled instant lies
    /// ahead; otherwise convert it, and on success reschedule. A pitch
    /// mismatch is fatal for the worker and leaves the schedule unchanged.
    pub fn on_frame_arrived(&mut self, now: u64, width: u32, height: u32, raw: &Vec<u8>) -> (action:
        FrameAction)
        requires
            old(self).wf(),
            height > 0,
            old(self).next_update + 1000u64 / old(self).fps <= u64::MAX,
            now + 1000u64 / old(self).fps <= u64::MAX,
        ensures
            final(self).hwnd == old(self).hwnd,
            final(self).fps == old(self).fps,
            final(self).wf(),
            now < old(self).next_update ==> action is Skip && final(self).next_update == old(
                self,
            ).next_update,
            now >= old(self).next_update ==> {
                if row_pitch_px(raw@.len(), height as nat) == round_up_to(
                    width as nat,
                    ROW_ALIGN_PX as nat,
                ) {
                    &&& action matches FrameAction::Emit(f)
                    &&& f.hwnd == old(self).hwnd
                    &&& f.width == width
                    &&& f.height == height
                    &&& f.wf()
                    &&& f.bytes@ == packed_bytes(
                        raw@,
                        width as nat,
                        height as nat,
                        row_pitch_px(raw@.len(), height as nat),
                    )
                    &&& final(self).next_update == next_update_after(
                        old(self).next_update as nat,
                        now as nat,
                        old(self).fps as nat,
                    )
                } else {
                    &&& action is StrideMismatch
                    &&& final(self).next_update == old(self).next_update
                }
            },
    {
        if now < self.next_update {
            return FrameAction::Skip;
        }
        match convert_raw_buffer(self.hwnd, width, height, raw) {
            None => FrameAction::StrideMismatch,
            Some(f) => {
                self.compute_next_update(now);
                FrameAction::Emit(f)
            },
        }
    }
}

/// The schedule always advances by at least one period past the previously
/// scheduled instant, and never lands before the emission it follows.
pub proof fn lemma_schedule_advances(next_update: nat, now: nat, fps: nat)
    requires
        fps >= 1,
    ensures
        next_update_after(next_update, now, fps) >= next_update + 1000nat / fps,
        next_update_after(next_update, now, fps) >= now,
{
}

/// Emission spacing: when a frame is emitted exactly at its scheduled
/// instant `t1` — as a sustained delivery stream faster than the target rate
/// makes it — any delivery the new schedule accepts comes at least one
/// period after `t1`.
pub proof fn lemma_emission_spacing(next_update: nat, t1: nat, t2: nat, fps: nat)
    requires
        fps >= 1,
        1000nat / fps >= 1,
        t1 == next_update,
        t2 >= next_update_after(next_update, t1, fps),
    ensures
        t2 >= t1 + 1000nat / fps,
{
}

/// Drift correction: after a delivery delayed past a full period, the next
/// scheduled instant is one period after `now` — relative to the delay, not
/// stacked on the stale schedule.
pub proof fn lemma_drift_correction(next_update: nat, now: nat, fps: nat)
    requires
        fps >= 1,
        now >= next_update + 1000nat / fps,
    ensures
        next_update_after(next_update, now, fps) == now + 1000nat / fps,
{
}

} // verus!
