//! The host's send path: slices in, paced packets out, and what the client says back.
//!
//! Everything that shapes traffic converges here: packetisation, forward error correction, send
//! pacing, congestion control and loss injection. The socket and the clock belong to the caller.
//! It asks how a slice is cut, what parity protects a piece, and of each packet how long to wait
//! and whether to send it; and it hands over every packet that comes back with the time it
//! arrived.

use vstd::prelude::*;

use crate::net::ack::{a_gap_is_a_bit_that_is_not_set, gaps, is_newer, missing_in_history};
use crate::net::cc::{
    defaults, held_between, CongestionConfig, CongestionController, CongestionModel, DelaySample,
    LossReading,
};
use crate::net::clocksync::{as_signed, signed_from};
use crate::net::fec::{
    a_block_fits_where_its_share_does, banded, count_set, data_shards_of, fits_one_block, lemma_count_set_bound, lemma_cut,
    max_data_shards_for, parity_is_the_least_that_makes_up_the_loss, parity_of, parity_ratio,
    parity_shards_for, FecCodec, ParityBlock, MAX_DATA_SHARDS,
};
use crate::net::loss::{LossInjector, LossModel};
use crate::net::packet::{
    channel_of, channel_parse, video_fields_read_back, video_wire, Channel, ClockPing, FecPacket,
    FeedbackPacket, InputEvent, InputPacket, VideoPacket, FLAG_IDR, FLAG_LAST_OF_FRAME,
    MAX_VIDEO_PAYLOAD, VIDEO_FLAGS_RESERVED_MASK,
};
use crate::net::packetize::{
    fragment, lemma_packet_count, packets_for, slice_error, SlicePacketizer, MAX_SLICE_LEN,
};
use crate::net::reassemble::{newer, packet_of, protects, whole};
use crate::net::sendpace::{
    later, saturated, PacerConfig, PacerModel, SendPacer, DEFAULT_BURST_BYTES, DEFAULT_MIN_SLEEP,
    MIN_BITRATE_BPS,
};
use crate::stats::{summary_of, LatencyRecorder, LatencySummary};

verus! {

/// How many recent frames the host remembers the capture time of.
///
/// Comfortably more than the thirty-two a feedback report can describe, so a report about the
/// oldest frame in its own window still finds its timestamp.
pub const CAPTURE_HISTORY: usize = 64;

/// The shortest gap between two keyframes the host will produce because it was asked to.
///
/// Two frames at sixty a second, four at a hundred and twenty. Short, because the encoder runs
/// at a constant bitrate, so a keyframe is not a larger frame, it is a worse-looking one of the
/// same size. What this bounds is a peer that asks on every report: without a limit it could
/// make the host encode every single frame intra and watch the picture fall apart, from one bit
/// on the return path.
pub const KEYFRAME_REQUEST_INTERVAL_US: u64 = 33_000;

/// Frame identifier reserved to mean "this slot holds nothing usable".
///
/// A real frame with this identifier simply yields no delay sample, once every four billion
/// frames: over a year at a hundred and twenty a second.
const NO_FRAME: u32 = 0xffff_ffff;

/// When one recent frame was captured.
#[derive(Debug, Clone, Copy, PartialEq, Eq, Structural)]
pub struct CaptureSlot {
    /// Which frame.
    pub frame_id: u32,
    /// When.
    pub capture_ts_us: u64,
}

/// What the host has heard back from the client, and what it needs to interpret it.
#[derive(Debug)]
pub struct ReturnPath {
    /// How many reports have arrived.
    pub reports: u64,
    /// The newest frame the client has acknowledged.
    pub newest_acked: u32,
    /// How many of the frames before it were missing.
    pub missing_in_last: u32,
    /// Whether any report has arrived.
    pub ever: bool,
    /// Capture times of recent frames, so a report can be turned into a one-way delay.
    pub captures: Vec<CaptureSlot>,
    /// The bitrate the congestion controller currently wants, in bits per second.
    ///
    /// Zero until a controller is running, which is how the send loop knows to leave the pacer
    /// at whatever rate it was configured with.
    pub target_bps: u32,
    /// How many times the controller has changed its mind.
    pub rate_changes: u64,
    /// Whether the client has said it can no longer decode what it is being sent.
    pub keyframe_wanted: bool,
    /// When the last request was answered, so the answers can be spaced out.
    ///
    /// Zero means none has been, which is how the first request is answered immediately.
    pub keyframe_granted_us: u64,
    /// How many reports asked for a keyframe, including the ones the interval refused.
    pub keyframe_requests: u64,
    /// How many keyframes the host produced because it was asked to.
    pub keyframes_forced: u64,
}

impl Default for ReturnPath {
    /// Starts with an empty capture history and no rate opinion.
    fn default() -> (path: Self)
        ensures
            path.wf(),
            path == (ReturnPath {
                reports: 0,
                newest_acked: 0,
                missing_in_last: 0,
                ever: false,
                captures: path.captures,
                target_bps: 0,
                rate_changes: 0,
                keyframe_wanted: false,
                keyframe_granted_us: 0,
                keyframe_requests: 0,
                keyframes_forced: 0,
            }),
            forall|frame_id: u32| #[trigger] path.spec_capture_of(frame_id) is None,
    {
        let mut captures: Vec<CaptureSlot> = Vec::new();
        let mut i: usize = 0;
        while i < CAPTURE_HISTORY
            invariant
                i <= CAPTURE_HISTORY,
                captures@.len() == i,
                forall|j: int| 0 <= j < i ==> (#[trigger] captures@[j]).frame_id == NO_FRAME,
            decreases CAPTURE_HISTORY - i,
        {
            captures.push(CaptureSlot { frame_id: NO_FRAME, capture_ts_us: 0 });
            i = i + 1;
        }
        ReturnPath {
            reports: 0,
            newest_acked: 0,
            missing_in_last: 0,
            ever: false,
            captures,
            target_bps: 0,
            rate_changes: 0,
            keyframe_wanted: false,
            keyframe_granted_us: 0,
            keyframe_requests: 0,
            keyframes_forced: 0,
        }
    }
}

impl ReturnPath {
    /// Whether there is a slot for every frame of the history.
    pub open spec fn wf(&self) -> bool {
        self.captures@.len() == CAPTURE_HISTORY
    }

    /// When a frame was captured, if that is remembered.
    pub open spec fn spec_capture_of(&self, frame_id: u32) -> Option<u64> {
        let slot = self.captures@[frame_id as int % CAPTURE_HISTORY as int];
        if frame_id != 0xffff_ffff && slot.frame_id == frame_id {
            Some(slot.capture_ts_us)
        } else {
            None
        }
    }

    /// Records when a frame was captured, evicting whatever the slot held before.
    pub fn remember_capture(&mut self, frame_id: u32, capture_ts_us: u64)
        requires
            old(self).wf(),
        ensures
            final(self).wf(),
            *final(self) == (ReturnPath { captures: final(self).captures, ..*old(self) }),
            forall|other: u32| #[trigger]
                final(self).spec_capture_of(other) == (if other == frame_id && other
                    != 0xffff_ffff {
                    Some(capture_ts_us)
                } else if other as int % 64 == frame_id as int % 64 {
                    None
                } else {
                    old(self).spec_capture_of(other)
                }),
    {
        let at: usize = frame_id as usize % CAPTURE_HISTORY;
        self.captures.set(at, CaptureSlot { frame_id, capture_ts_us });
    }

    /// Returns when a frame was captured, if it is still remembered.
    #[must_use]
    pub fn capture_of(&self, frame_id: u32) -> (capture_ts_us: Option<u64>)
        requires
            self.wf(),
        ensures
            capture_ts_us == self.spec_capture_of(frame_id),
    {
        let slot: CaptureSlot = self.captures[frame_id as usize % CAPTURE_HISTORY];
        if frame_id != NO_FRAME && slot.frame_id == frame_id {
            Some(slot.capture_ts_us)
        } else {
            None
        }
    }

    /// Whether a request for a keyframe is answered at `now_us`: there is one, and the last
    /// answer is long enough ago.
    pub open spec fn grants(&self, now_us: u64) -> bool {
        self.keyframe_wanted && (self.keyframe_granted_us == 0 || now_us - self.keyframe_granted_us
            >= KEYFRAME_REQUEST_INTERVAL_US)
    }

    /// Takes the client's outstanding keyframe request, if the interval allows answering it.
    ///
    /// Consuming rather than reading: the request describes a moment, and answering it is what
    /// makes it stale. A client that still cannot decode says so again in a frame's time, which
    /// is how a lost keyframe turns into a second one rather than a stall.
    pub fn take_keyframe_request(&mut self, now_us: u64) -> (granted: bool)
        ensures
            granted == old(self).grants(now_us),
            granted ==> *final(self) == (ReturnPath {
                keyframe_wanted: false,
                keyframe_granted_us: now_us,
                keyframes_forced: counted(old(self).keyframes_forced),
                ..*old(self)
            }),
            !granted ==> *final(self) == *old(self),
    {
        if !self.keyframe_wanted {
            return false;
        }
        let granted: u64 = self.keyframe_granted_us;
        if granted != 0 && now_us.saturating_sub(granted) < KEYFRAME_REQUEST_INTERVAL_US {
            return false;
        }
        self.keyframe_wanted = false;
        self.keyframe_granted_us = now_us;
        self.keyframes_forced = count(self.keyframes_forced);
        true
    }

    /// Whether a report says something new: it is the first, or about a newer frame.
    pub open spec fn is_current(&self, report: FeedbackPacket) -> bool {
        !self.ever || newer(report.last_frame_id, self.newest_acked)
    }

    /// The state after a report.
    pub open spec fn hearing(self, report: FeedbackPacket, wants_keyframe: bool) -> ReturnPath {
        let asked = self.is_current(report) && wants_keyframe;
        ReturnPath {
            reports: counted(self.reports),
            ever: true,
            newest_acked: if self.is_current(report) {
                report.last_frame_id
            } else {
                self.newest_acked
            },
            missing_in_last: if self.is_current(report) {
                count_set(gaps(report.recv_bitmap, 32)) as u32
            } else {
                self.missing_in_last
            },
            keyframe_wanted: self.keyframe_wanted || asked,
            keyframe_requests: if asked {
                counted(self.keyframe_requests)
            } else {
                self.keyframe_requests
            },
            ..self
        }
    }

    /// Records what a feedback report says.
    ///
    /// Only the newest report matters. Each one repeats the whole recent history, so an older
    /// one arriving late says nothing new, and acting on it would undo what a newer one already
    /// established. A stale one asking for a keyframe describes a gap the client has since been
    /// carried past, and a client that still cannot decode asks again on the very next frame.
    pub fn hear(&mut self, report: &FeedbackPacket, wants_keyframe: bool)
        ensures
            *final(self) == old(self).hearing(*report, wants_keyframe),
    {
        let current: bool = !self.ever || is_newer(report.last_frame_id, self.newest_acked);
        self.ever = true;
        if current {
            self.newest_acked = report.last_frame_id;
            self.missing_in_last = missing_in_history(report.recv_bitmap);
            if wants_keyframe {
                self.keyframe_requests = count(self.keyframe_requests);
                self.keyframe_wanted = true;
            }
        }
        self.reports = count(self.reports);
    }
}

/// A counter one further on. It comes round after what a `u64` holds.
pub open spec fn counted(counter: u64) -> u64 {
    if counter == u64::MAX {
        0
    } else {
        (counter + 1) as u64
    }
}

/// Returns a counter one further on.
fn count(counter: u64) -> (next: u64)
    ensures
        next == counted(counter),
{
    counter.wrapping_add(1)
}

/// However often a client asks, keyframes are at least the interval apart: one answered after
/// another, with whatever the client says in between, is answered that much later.
///
/// `then_us` is when the first was answered, at any time but the very start of the clock.
pub proof fn keyframes_are_kept_apart(path: ReturnPath, then_us: u64, later: ReturnPath, now_us: u64)
    requires
        path.grants(then_us),
        then_us > 0,
        later.keyframe_granted_us == then_us,
        later.grants(now_us),
    ensures
        now_us >= then_us + KEYFRAME_REQUEST_INTERVAL_US,
{
}

/// Hearing reports asks for keyframes and never answers for one.
pub proof fn hearing_grants_nothing(path: ReturnPath, report: FeedbackPacket, wants_keyframe: bool)
    ensures
        path.hearing(report, wants_keyframe).keyframe_granted_us == path.keyframe_granted_us,
        path.hearing(report, wants_keyframe).keyframes_forced == path.keyframes_forced,
        path.hearing(report, false).keyframe_wanted == path.keyframe_wanted,
        path.hearing(report, wants_keyframe).wf() == path.wf(),
{
}

// ---------------------------------------------------------------------------
// What comes back.

/// How many input events are timed for one summary.
pub const INPUT_WINDOW: usize = 4096;

/// After how many injected events it is worth checking that they land.
pub const CONFIRM_AFTER: u64 = 20;

/// How often the input latency is summarised, in events.
pub const SUMMARY_EVERY: u64 = 500;

/// What the return path asks of the caller after a packet.
#[derive(Debug)]
pub enum ReturnAction {
    /// Nothing.
    Nothing,
    /// Answer a clock ping with these two stamps and the time of the answer.
    Pong {
        /// The stamp in the ping.
        t1_us: u64,
        /// When the ping arrived.
        t2_us: u64,
    },
    /// Inject an input event.
    Inject {
        /// What happened.
        event: InputEvent,
        /// How many events there have been.
        events: u64,
        /// Whether this is the time to check that events land.
        confirm: bool,
        /// How long events have been on the wire, where this is the time to say so.
        summary: Option<LatencySummary>,
    },
    /// A report was taken in.
    Heard {
        /// How many frames the report misses, where the controller was given a sample.
        sampled: Option<u32>,
        /// Whether that sample closed a window of the controller.
        closed: bool,
    },
}

/// What handles everything coming back from the client, as its contracts see it.
pub struct ReturnModel {
    /// The congestion controller, where the rate follows feedback.
    pub control: Option<CongestionModel>,
    /// The last frame a delay sample was taken of.
    pub last_sampled: Option<u32>,
    /// How long recent events were on the wire.
    pub latency: Seq<u32>,
    /// How many events there have been.
    pub injected: int,
}

impl ReturnModel {
    /// Whether the counters can take one more packet.
    pub open spec fn has_room(self) -> bool {
        &&& self.injected < u64::MAX
        &&& self.control matches Some(control) ==> control.has_room()
    }

    /// The latencies once one more has been recorded.
    pub open spec fn recording(self, latency_us: u32) -> Seq<u32> {
        if self.latency.len() < INPUT_WINDOW {
            self.latency.push(latency_us)
        } else {
            self.latency.drop_first().push(latency_us)
        }
    }

    /// When the frame of a report was captured, where the controller is to have a sample of it:
    /// there is a controller, the frame is newer than the last one sampled, and it is
    /// remembered.
    pub open spec fn sample(self, path: ReturnPath, report: FeedbackPacket) -> Option<u64> {
        if self.control is None || (self.last_sampled matches Some(last) && !newer(
            report.last_frame_id,
            last,
        )) {
            None
        } else {
            path.spec_capture_of(report.last_frame_id)
        }
    }
}

/// How long an event was on the wire, in microseconds.
pub open spec fn wire_time(arrived_us: u64, origin_ts_us: u64) -> u32 {
    if arrived_us <= origin_ts_us {
        0
    } else if arrived_us - origin_ts_us > u32::MAX {
        u32::MAX
    } else {
        (arrived_us - origin_ts_us) as u32
    }
}

/// Handles everything coming back from the client.
#[derive(Debug)]
pub struct ReturnHandler {
    control: Option<CongestionController>,
    last_sampled: Option<u32>,
    latency: LatencyRecorder,
    injected: u64,
}

impl View for ReturnHandler {
    type V = ReturnModel;

    closed spec fn view(&self) -> ReturnModel {
        ReturnModel {
            control: match self.control {
                Some(control) => Some(control@),
                None => None,
            },
            last_sampled: self.last_sampled,
            latency: self.latency@,
            injected: self.injected as int,
        }
    }
}

impl ReturnHandler {
    /// Whether what it holds is in order.
    pub closed spec fn wf(&self) -> bool {
        &&& self.control matches Some(control) ==> control.wf()
        &&& self.latency.wf()
        &&& self.latency.spec_capacity() == INPUT_WINDOW
    }


    /// Makes the handler of a session. The rate follows feedback where it is `adaptive`,
    /// starting from the rate packets are paced at, if they are.
    #[must_use]
    pub fn new(adaptive: bool, start_bps: u32) -> (handler: Self)
        ensures
            handler.wf(),
            handler@.has_room(),
            handler@.last_sampled is None,
            handler@.latency == Seq::<u32>::empty(),
            handler@.injected == 0,
            handler@.control is Some <==> adaptive,
            handler@.control matches Some(control) ==> {
                &&& control.target == if start_bps == 0 {
                    10_000_000
                } else {
                    held_between(start_bps as int, 1_000_000, 60_000_000)
                }
                &&& control.config == (CongestionConfig {
                    start_bps: control.target as u32,
                    ..defaults(20_000)
                })
                &&& control.window_start is None
            },
    {
        let control: Option<CongestionController> = if adaptive {
            let mut config: CongestionConfig = CongestionConfig::for_round_trip_us(20_000);
            if start_bps > 0 {
                config.start_bps = if start_bps < config.min_bps {
                    config.min_bps
                } else if start_bps > config.max_bps {
                    config.max_bps
                } else {
                    start_bps
                };
            }
            Some(CongestionController::new(config))
        } else {
            None
        };
        ReturnHandler {
            control,
            last_sampled: None,
            latency: LatencyRecorder::new(INPUT_WINDOW),
            injected: 0,
        }
    }

    /// Returns the rate a cut would be taken from, where there is a controller.
    #[must_use]
    pub fn target_bps(&self) -> (bps: Option<u32>)
        requires
            self.wf(),
        ensures
            match self@.control {
                Some(control) => bps == Some(control.target as u32) && control.target
                    == bps->0,
                None => bps is None,
            },
    {
        match &self.control {
            Some(control) => Some(control.target_bps()),
            None => None,
        }
    }

    /// Returns whether the counters can take one more packet.
    #[must_use]
    pub fn can_count(&self) -> (yes: bool)
        requires
            self.wf(),
        ensures
            yes == self@.has_room(),
    {
        let control: bool = match &self.control {
            Some(control) => control.can_count(),
            None => true,
        };
        control && self.injected < u64::MAX
    }

    /// Takes one packet that came back, and says what to do about it.
    ///
    /// `arrived_us` is when it arrived. `wants_keyframe` is whether a report came with a request
    /// for a keyframe. `loss` and `reduced_bps` are for the congestion controller, which looks
    /// at them where the packet is a report that closes one of its windows.
    pub fn handle(
        &mut self,
        path: &mut ReturnPath,
        bytes: &[u8],
        wants_keyframe: bool,
        arrived_us: u64,
        loss: LossReading,
        reduced_bps: u32,
    ) -> (action: ReturnAction)
        requires
            old(self).wf(),
            old(self)@.has_room(),
            old(path).wf(),
        ensures
            final(self).wf(),
            final(path).wf(),
            match channel_parse(bytes@) {
                Ok(Channel::Control) => {
                    &&& final(self)@ == old(self)@
                    &&& *final(path) == *old(path)
                    &&& action == match ClockPing::parse(bytes@) {
                        Ok(ping) => ReturnAction::Pong { t1_us: ping.t1_us, t2_us: arrived_us },
                        Err(_) => ReturnAction::Nothing,
                    }
                },
                Ok(Channel::Input) => {
                    &&& *final(path) == *old(path)
                    &&& match InputPacket::parse(bytes@) {
                        Ok(packet) => {
                            let events = old(self)@.injected + 1;
                            let latency = old(self)@.recording(
                                wire_time(arrived_us, packet.origin_ts_us),
                            );
                            &&& final(self)@ == (ReturnModel {
                                injected: events,
                                latency,
                                ..old(self)@
                            })
                            &&& action == ReturnAction::Inject {
                                event: packet.event,
                                events: events as u64,
                                confirm: events == CONFIRM_AFTER,
                                summary: if events % SUMMARY_EVERY as int == 0 {
                                    Some(summary_of(latency))
                                } else {
                                    None
                                },
                            }
                        },
                        Err(_) => final(self)@ == old(self)@ && action == ReturnAction::Nothing,
                    }
                },
                Ok(Channel::Feedback) => match FeedbackPacket::parse(bytes@) {
                    Ok(report) => {
                        let heard = old(path).hearing(report, wants_keyframe);
                        match old(self)@.sample(heard, report) {
                            None => {
                                &&& final(self)@ == old(self)@
                                &&& *final(path) == heard
                                &&& action == ReturnAction::Heard { sampled: None, closed: false }
                            },
                            Some(captured) => {
                                let before = old(self)@.control->0;
                                let after = before.observing(
                                    as_signed(report.client_ts_us - captured),
                                    arrived_us as int,
                                    loss,
                                    reduced_bps,
                                );
                                &&& final(self)@ == (ReturnModel {
                                    control: Some(after),
                                    last_sampled: Some(report.last_frame_id),
                                    ..old(self)@
                                })
                                &&& *final(path) == (ReturnPath {
                                    target_bps: after.target as u32,
                                    rate_changes: if after.target != before.target {
                                        counted(heard.rate_changes)
                                    } else {
                                        heard.rate_changes
                                    },
                                    ..heard
                                })
                                &&& action == ReturnAction::Heard {
                                    sampled: Some(
                                        count_set(gaps(report.recv_bitmap, 32)) as u32,
                                    ),
                                    closed: before.closes(arrived_us as int),
                                }
                            },
                        }
                    },
                    Err(_) => {
                        &&& final(self)@ == old(self)@
                        &&& *final(path) == *old(path)
                        &&& action == ReturnAction::Nothing
                    },
                },
                _ => {
                    &&& final(self)@ == old(self)@
                    &&& *final(path) == *old(path)
                    &&& action == ReturnAction::Nothing
                },
            },
    {
        match channel_of(bytes) {
            Ok(Channel::Control) => match ClockPing::decode(bytes) {
                Ok(ping) => ReturnAction::Pong { t1_us: ping.t1_us, t2_us: arrived_us },
                Err(_) => ReturnAction::Nothing,
            },
            Ok(Channel::Input) => match InputPacket::decode(bytes) {
                Ok(packet) => self.input(&packet, arrived_us),
                Err(_) => ReturnAction::Nothing,
            },
            Ok(Channel::Feedback) => match FeedbackPacket::decode(bytes) {
                Ok(report) => {
                    path.hear(&report, wants_keyframe);
                    self.feedback(path, &report, arrived_us, loss, reduced_bps)
                },
                Err(_) => ReturnAction::Nothing,
            },
            _ => ReturnAction::Nothing,
        }
    }

    /// Times an input event and hands it on.
    ///
    /// The client already converted its timestamp into this machine's clock, so the difference is
    /// the wire time and nothing else.
    fn input(&mut self, packet: &InputPacket, arrived_us: u64) -> (action: ReturnAction)
        requires
            old(self).wf(),
            old(self).injected < u64::MAX,
        ensures
            final(self).wf(),
            ({
                let events = old(self)@.injected + 1;
                let latency = old(self)@.recording(wire_time(arrived_us, packet.origin_ts_us));
                &&& final(self)@ == (ReturnModel { injected: events, latency, ..old(self)@ })
                &&& action == ReturnAction::Inject {
                    event: packet.event,
                    events: events as u64,
                    confirm: events == CONFIRM_AFTER,
                    summary: if events % SUMMARY_EVERY as int == 0 {
                        Some(summary_of(latency))
                    } else {
                        None
                    },
                }
            }),
    {
        let wire: u64 = arrived_us.saturating_sub(packet.origin_ts_us);
        let wire_us: u32 = if wire > u32::MAX as u64 {
            u32::MAX
        } else {
            wire as u32
        };
        self.latency.record(wire_us);
        self.injected = self.injected + 1;
        let summary: Option<LatencySummary> = if self.injected % SUMMARY_EVERY == 0 {
            self.latency.summarize()
        } else {
            None
        };
        ReturnAction::Inject {
            event: packet.event,
            events: self.injected,
            confirm: self.injected == CONFIRM_AFTER,
            summary,
        }
    }

    /// Gives the controller a delay sample of a report, where there is one to give.
    ///
    /// A sample is only taken when the report describes a frame newer than the last one sampled.
    /// A report repeating a frame already measured carries a newer client timestamp against the
    /// same capture time, which reads as delay climbing forever and would walk the rate to the
    /// floor.
    fn feedback(
        &mut self,
        path: &mut ReturnPath,
        report: &FeedbackPacket,
        arrived_us: u64,
        loss: LossReading,
        reduced_bps: u32,
    ) -> (action: ReturnAction)
        requires
            old(self).wf(),
            old(self)@.has_room(),
            old(path).wf(),
        ensures
            final(self).wf(),
            final(path).wf(),
            match old(self)@.sample(*old(path), *report) {
                None => {
                    &&& final(self)@ == old(self)@
                    &&& *final(path) == *old(path)
                    &&& action == ReturnAction::Heard { sampled: None, closed: false }
                },
                Some(captured) => {
                    let before = old(self)@.control->0;
                    let after = before.observing(
                        as_signed(report.client_ts_us - captured),
                        arrived_us as int,
                        loss,
                        reduced_bps,
                    );
                    &&& final(self)@ == (ReturnModel {
                        control: Some(after),
                        last_sampled: Some(report.last_frame_id),
                        ..old(self)@
                    })
                    &&& *final(path) == (ReturnPath {
                        target_bps: after.target as u32,
                        rate_changes: if after.target != before.target {
                            counted(old(path).rate_changes)
                        } else {
                            old(path).rate_changes
                        },
                        ..*old(path)
                    })
                    &&& action == ReturnAction::Heard {
                        sampled: Some(count_set(gaps(report.recv_bitmap, 32)) as u32),
                        closed: before.closes(arrived_us as int),
                    }
                },
            },
    {
        let repeated: bool = match self.last_sampled {
            Some(last) => !is_newer(report.last_frame_id, last),
            None => false,
        };
        let control: &mut CongestionController = match &mut self.control {
            Some(control) => control,
            None => return ReturnAction::Heard { sampled: None, closed: false },
        };
        if repeated {
            return ReturnAction::Heard { sampled: None, closed: false };
        }
        let captured: u64 = match path.capture_of(report.last_frame_id) {
            Some(captured) => captured,
            None => return ReturnAction::Heard { sampled: None, closed: false },
        };
        self.last_sampled = Some(report.last_frame_id);
        let before: u32 = control.target_bps();
        let closed: bool = control.closes_window(arrived_us);
        // Signed on purpose: the two clocks are unsynchronised here, so this is routinely
        // negative. The controller only ever takes differences, in which a constant offset
        // cancels exactly.
        let delay: i64 = signed_from(report.client_ts_us as i128 - captured as i128);
        let after: u32 = control.observe(
            &DelaySample { one_way_delay_us: delay, observed_at_us: arrived_us },
            loss,
            reduced_bps,
        );
        path.target_bps = after;
        if after != before {
            path.rate_changes = count(path.rate_changes);
        }
        ReturnAction::Heard { sampled: Some(missing_in_history(report.recv_bitmap)), closed }
    }
}

// ---------------------------------------------------------------------------
// What goes out.

/// The most data shards, no more than `from`, that get their whole share of parity in one block.
pub open spec fn largest_block(percent: nat, from: nat) -> nat
    decreases from,
{
    if from <= 1 || fits_one_block(from, percent) {
        from
    } else {
        largest_block(percent, (from - 1) as nat)
    }
}

/// The most bytes one wire slice may carry, for a given parity setting.
pub open spec fn spec_max_slice_bytes(parity_percent: Option<u32>) -> int {
    match parity_percent {
        None => usize::MAX as int,
        Some(percent) => largest_block(percent as nat, MAX_DATA_SHARDS as nat) * MAX_VIDEO_PAYLOAD,
    }
}

/// A count that fits, with none above it that does, is the largest.
proof fn lemma_largest_block(percent: nat, found: nat, from: nat)
    requires
        1 <= found <= from,
        found == 1 || fits_one_block(found, percent),
        forall|more: nat| found < more <= from ==> !#[trigger] fits_one_block(more, percent),
    ensures
        largest_block(percent, from) == found,
    decreases from,
{
    if from > found {
        assert(!fits_one_block(from, percent));
        lemma_largest_block(percent, found, (from - 1) as nat);
    }
}

/// A block always has room for one data shard.
proof fn lemma_a_block_holds_something(percent: nat, from: nat)
    requires
        from >= 1,
    ensures
        largest_block(percent, from) >= 1,
    decreases from,
{
    if from > 1 {
        lemma_a_block_holds_something(percent, (from - 1) as nat);
    }
}

/// The most bytes one wire slice may carry, for a given parity setting in percent.
///
/// A Reed-Solomon block holds 255 shards in all, so a slice longer than the data half of that
/// cannot be protected by one block. The encoder does not know or care, and a keyframe at a real
/// bitrate is several hundred packets. Left alone, exactly the frame that must not be lost is
/// the one frame sent unprotected. So a long slice becomes several wire slices, each with its
/// own parity block. The client already rebuilds a frame by concatenating its slices in order,
/// which is why this is invisible on the far side.
///
/// Without parity there is nothing to fit inside, and splitting would only add headers.
#[must_use]
pub fn max_slice_bytes(parity_percent: Option<u32>) -> (bytes: usize)
    ensures
        bytes == spec_max_slice_bytes(parity_percent),
        bytes >= MAX_VIDEO_PAYLOAD,
{
    match parity_percent {
        None => {
            assert(usize::MAX >= 0xffff_ffff);
            usize::MAX
        },
        Some(percent) => {
            let shards: usize = max_data_shards_for(percent);
            proof {
                lemma_largest_block(percent as nat, shards as nat, MAX_DATA_SHARDS as nat);
                assert(1180 <= shards * MAX_VIDEO_PAYLOAD <= 254 * 1180) by (nonlinear_arith)
                    requires
                        1 <= shards <= 254,
                        MAX_VIDEO_PAYLOAD == 1180,
                ;
            }
            shards * MAX_VIDEO_PAYLOAD
        },
    }
}

/// The flags of a wire slice.
pub open spec fn frame_flags(idr: bool, last: bool) -> u8 {
    (if idr {
        FLAG_IDR
    } else {
        0
    }) | (if last {
        FLAG_LAST_OF_FRAME
    } else {
        0
    })
}

/// How many pieces something of `len` bytes is cut into.
pub open spec fn piece_count(len: int, limit: int) -> int {
    (len + limit - 1) / limit
}

/// Where piece `index` begins.
pub open spec fn piece_start(index: int, limit: int) -> int {
    index * limit
}

/// Where piece `index` ends.
pub open spec fn piece_end(len: int, index: int, limit: int) -> int {
    if len - piece_start(index, limit) < limit {
        len
    } else {
        piece_start(index, limit) + limit
    }
}

/// The pieces of a slice.
pub open spec fn pieces(data: Seq<u8>, limit: int) -> Seq<Seq<u8>> {
    Seq::new(
        piece_count(data.len() as int, limit) as nat,
        |i: int| data.subrange(piece_start(i, limit), piece_end(data.len() as int, i, limit)),
    )
}

/// Every piece lies inside the slice, holds something and is no longer than allowed, and each
/// begins where the one before it ends.
proof fn lemma_piece(len: int, index: int, limit: int)
    requires
        len > 0,
        limit > 0,
        0 <= index < piece_count(len, limit),
    ensures
        0 <= piece_start(index, limit) < piece_end(len, index, limit) <= len,
        piece_end(len, index, limit) - piece_start(index, limit) <= limit,
        index + 1 < piece_count(len, limit) ==> piece_end(len, index, limit) == piece_start(
            index + 1,
            limit,
        ),
        index + 1 == piece_count(len, limit) ==> piece_end(len, index, limit) == len,
{
    let n = piece_count(len, limit);
    let r = (len + limit - 1) % limit;
    vstd::arithmetic::div_mod::lemma_fundamental_div_mod(len + limit - 1, limit);
    assert(0 <= r < limit) by (nonlinear_arith)
        requires
            r == (len + limit - 1) % limit,
            limit > 0,
    ;
    assert(limit * n == n * limit && (n - 1) * limit == n * limit - limit && (index + 1) * limit
        == index * limit + limit) by (nonlinear_arith);
    assert(0 <= index * limit <= (n - 1) * limit) by (nonlinear_arith)
        requires
            0 <= index <= n - 1,
            limit > 0,
    ;
    if index + 1 < n {
        assert(index * limit + limit <= (n - 1) * limit) by (nonlinear_arith)
            requires
                index + 1 <= n - 1,
                limit > 0,
        ;
    }
}

/// The pieces of a slice put end to end are the slice.
pub proof fn the_pieces_make_up_the_slice(data: Seq<u8>, limit: int)
    requires
        data.len() > 0,
        limit > 0,
    ensures
        whole(pieces(data, limit)) == data,
        forall|i: int|
            0 <= i < pieces(data, limit).len() ==> 0 < (#[trigger] pieces(data, limit)[i]).len()
                <= limit,
{
    let len = data.len() as int;
    let n = piece_count(len, limit);
    assert(n >= 1) by (nonlinear_arith)
        requires
            n == (len + limit - 1) / limit,
            len >= 1,
            limit >= 1,
    ;
    lemma_pieces_joined(data, limit, n as nat);
    assert(pieces(data, limit).take(n) =~= pieces(data, limit));
    lemma_piece(len, n - 1, limit);
    assert(data.take(len) =~= data);
    assert forall|i: int| 0 <= i < pieces(data, limit).len() implies 0 < (#[trigger] pieces(
        data,
        limit,
    )[i]).len() <= limit by {
        lemma_piece(len, i, limit);
    }
}

/// The first pieces of a slice put end to end are its beginning.
proof fn lemma_pieces_joined(data: Seq<u8>, limit: int, count: nat)
    requires
        data.len() > 0,
        limit > 0,
        count <= piece_count(data.len() as int, limit),
    ensures
        count > 0 ==> whole(pieces(data, limit).take(count as int)) == data.take(
            piece_end(data.len() as int, count - 1, limit),
        ),
        count == 0 ==> whole(pieces(data, limit).take(0)) == Seq::<u8>::empty(),
    decreases count,
{
    let all = pieces(data, limit);
    let len = data.len() as int;
    if count > 0 {
        lemma_pieces_joined(data, limit, (count - 1) as nat);
        lemma_piece(len, count - 1, limit);
        if count > 1 {
            lemma_piece(len, count - 2, limit);
        } else {
            assert(piece_start(0, limit) == 0);
        }
        let first = all.take(count as int);
        assert(first.drop_last() =~= all.take(count - 1));
        assert(first.last() == all[count - 1]);
        assert(whole(first) =~= data.take(piece_end(len, count - 1, limit)));
    }
}

/// One slice as it goes on the wire: a piece of an encoder's slice, with its number and flags.
#[derive(Debug, Clone, Copy, PartialEq, Eq, Structural)]
pub struct WireSlice {
    /// Slice index within the frame.
    pub slice_id: u16,
    /// Flags every packet of it carries.
    pub flags: u8,
    /// Where in the encoder's slice it begins.
    pub start: usize,
    /// Where in the encoder's slice it ends.
    pub end: usize,
}

/// A parity packet that owns its shard.
#[derive(Debug)]
pub struct ParityPacket {
    /// Frame the slice belongs to.
    pub frame_id: u32,
    /// Slice index within the frame.
    pub slice_id: u16,
    /// The shape of the block it is part of.
    pub shape: BlockShape,
    /// Which of the parity shards this is.
    pub shard_index: u8,
    /// Host clock at capture time, in microseconds.
    pub capture_ts_us: u64,
    /// The shard itself.
    pub payload: Vec<u8>,
}

impl ParityPacket {
    /// Returns the packet as it is written and reassembled.
    #[must_use]
    pub fn as_packet(&self) -> (packet: FecPacket<'_>)
        ensures
            packet.frame_id == self.frame_id,
            packet.slice_id == self.slice_id,
            packet.data_count == self.shape.data_count,
            packet.parity_count == self.shape.parity_count,
            packet.shard_index == self.shard_index,
            packet.tail_len == self.shape.tail_len,
            packet.capture_ts_us == self.capture_ts_us,
            packet.payload@ == self.payload@,
    {
        FecPacket {
            frame_id: self.frame_id,
            slice_id: self.slice_id,
            data_count: self.shape.data_count,
            parity_count: self.shape.parity_count,
            shard_index: self.shard_index,
            tail_len: self.shape.tail_len,
            capture_ts_us: self.capture_ts_us,
            payload: self.payload.as_slice(),
        }
    }
}

/// A packet to put on the wire.
#[derive(Debug)]
pub enum Outbound {
    /// A video packet, encoded.
    Video(Vec<u8>),
    /// A parity packet.
    Parity(ParityPacket),
}

/// A packet to put on the wire, as the contracts see it.
pub enum OutboundModel {
    /// The bytes of a video packet.
    Video(Seq<u8>),
    /// A parity packet.
    Parity {
        /// Frame the slice belongs to.
        frame_id: u32,
        /// Slice index within the frame.
        slice_id: u16,
        /// The shape of the block it is part of.
        shape: BlockShape,
        /// Which of the parity shards this is.
        shard_index: int,
        /// Host clock at capture time.
        capture_ts_us: u64,
        /// The shard itself.
        payload: Seq<u8>,
    },
}

impl View for Outbound {
    type V = OutboundModel;

    open spec fn view(&self) -> OutboundModel {
        match self {
            Outbound::Video(bytes) => OutboundModel::Video(bytes@),
            Outbound::Parity(packet) => OutboundModel::Parity {
                frame_id: packet.frame_id,
                slice_id: packet.slice_id,
                shape: packet.shape,
                shard_index: packet.shard_index as int,
                capture_ts_us: packet.capture_ts_us,
                payload: packet.payload@,
            },
        }
    }
}

/// What a list of packets shows.
pub open spec fn shown(packets: Seq<Outbound>) -> Seq<OutboundModel> {
    Seq::new(packets.len(), |i: int| packets[i]@)
}

/// The video packets of a wire slice, in order.
pub open spec fn video_packets(
    frame_id: u32,
    slice: WireSlice,
    capture_ts_us: u64,
    piece: Seq<u8>,
) -> Seq<OutboundModel> {
    Seq::new(
        packets_for(piece.len()),
        |i: int|
            OutboundModel::Video(
                video_wire(
                    frame_id,
                    slice.slice_id,
                    i as u16,
                    packets_for(piece.len()) as u16,
                    slice.flags,
                    capture_ts_us,
                    fragment(piece, i),
                ),
            ),
    )
}

/// What a pacer and a loss injector decided about a packet.
#[derive(Debug, Clone, Copy, PartialEq, Eq, Structural)]
pub struct Emission {
    /// How long to wait before sending it, in nanoseconds.
    pub wait_ns: u64,
    /// Whether to send it rather than drop it.
    pub send: bool,
}

/// The shape of the parity block that protects a wire slice.
#[derive(Debug, Clone, Copy, PartialEq, Eq, Structural)]
pub struct BlockShape {
    /// How many data packets the slice was split into.
    pub data_count: u8,
    /// How many parity shards protect it.
    pub parity_count: u8,
    /// Length of the slice's last data packet.
    pub tail_len: u16,
}

/// A sender as its contracts see it.
pub struct SenderModel {
    /// The loss estimate parity is sized against, in percent, where parity is on.
    pub parity_percent: Option<u32>,
    /// The frame the slice numbering belongs to.
    pub slicing_frame: Option<u32>,
    /// The number the next wire slice will carry.
    pub next_slice_id: u16,
    /// The pacer, where packets are paced.
    pub pacer: Option<PacerModel>,
    /// Whether feedback drives the pacer's rate.
    pub adaptive: bool,
    /// The loss injector, where a run is testing recovery.
    pub loss: Option<LossModel>,
    /// Packets sent.
    pub packets: int,
    /// Bytes sent, headers included.
    pub bytes: int,
    /// Parity packets sent.
    pub parity_sent: int,
    /// Audio frames sent.
    pub audio_frames: int,
}

impl SenderModel {
    /// Whether the counters can take one more packet of `len` bytes.
    pub open spec fn has_room(self, len: int) -> bool {
        &&& self.packets < u64::MAX
        &&& self.bytes + len <= u64::MAX
        &&& self.pacer matches Some(pacer) ==> pacer.packets < u64::MAX
        &&& self.loss matches Some(loss) ==> loss.considered < u64::MAX
    }

    /// The number of the first wire slice of the next piece of a frame. Numbering restarts at
    /// zero for each frame.
    pub open spec fn first_slice_id(self, frame_id: u32) -> u16 {
        if self.slicing_frame == Some(frame_id) {
            self.next_slice_id
        } else {
            0
        }
    }

    /// The wire slices that a slice of `len` bytes is cut into: numbered on from the frame's last
    /// one, and with only the very last piece of the last slice ending the frame.
    pub open spec fn wire_slices(self, frame_id: u32, len: int, idr: bool, last: bool) -> Seq<
        WireSlice,
    > {
        let limit = spec_max_slice_bytes(self.parity_percent);
        let n = piece_count(len, limit);
        let first = self.first_slice_id(frame_id);
        Seq::new(
            n as nat,
            |i: int|
                WireSlice {
                    slice_id: ((first + i) % 0x1_0000) as u16,
                    flags: frame_flags(idr, last && i + 1 == n),
                    start: piece_start(i, limit) as usize,
                    end: piece_end(len, i, limit) as usize,
                },
        )
    }

    /// The sender once it has cut a slice of `len` bytes.
    pub open spec fn having_cut(self, frame_id: u32, len: int) -> SenderModel {
        let n = piece_count(len, spec_max_slice_bytes(self.parity_percent));
        SenderModel {
            slicing_frame: Some(frame_id),
            next_slice_id: ((self.first_slice_id(frame_id) + n) % 0x1_0000) as u16,
            ..self
        }
    }

    /// The pacer as it is when a packet is offered, following the rate that feedback wants.
    pub open spec fn tuned(self, target_bps: u32) -> Option<PacerModel> {
        match self.pacer {
            Some(pacer) => Some(
                if self.adaptive && target_bps > 0 && target_bps != pacer.bitrate_bps {
                    pacer.retuned(target_bps)
                } else {
                    pacer
                },
            ),
            None => None,
        }
    }

    /// What is decided about a packet.
    pub open spec fn emission(self, target_bps: u32, now_us: u64) -> Emission {
        Emission {
            wait_ns: match self.tuned(target_bps) {
                Some(pacer) => pacer.wait(saturated(now_us * 1000)) as u64,
                None => 0,
            },
            send: match self.loss {
                Some(loss) => !loss.drops_next(),
                None => true,
            },
        }
    }

    /// The sender after a packet of `len` bytes has been offered.
    ///
    /// The packet is counted whether or not it is dropped, so the packet total describes what
    /// the session produced and the loss figure is measured against it.
    pub open spec fn emitting(self, len: int, target_bps: u32, now_us: u64) -> SenderModel {
        SenderModel {
            pacer: match self.tuned(target_bps) {
                Some(pacer) => Some(pacer.admitting(len, saturated(now_us * 1000))),
                None => None,
            },
            loss: match self.loss {
                Some(loss) => Some(loss.asked()),
                None => None,
            },
            packets: self.packets + 1,
            bytes: self.bytes + len,
            ..self
        }
    }

    /// Whether a wire slice of `len` bytes gets a parity block.
    pub open spec fn protects_slice(self, len: int) -> bool {
        self.parity_percent matches Some(percent) && 0 < len && packets_for(len as nat)
            <= largest_block(percent as nat, MAX_DATA_SHARDS as nat)
    }

    /// The shape of the parity block of a wire slice of `len` bytes.
    pub open spec fn shape_of(self, len: int) -> BlockShape {
        let data_count = packets_for(len as nat);
        BlockShape {
            data_count: data_count as u8,
            parity_count: self.parity_count(data_count as int) as u8,
            tail_len: (len - (data_count - 1) * MAX_VIDEO_PAYLOAD) as u16,
        }
    }

    /// The parity packets of a wire slice, in order, where it is protected.
    pub open spec fn parity_packets(
        self,
        frame_id: u32,
        slice_id: u16,
        capture_ts_us: u64,
        piece: Seq<u8>,
    ) -> Seq<OutboundModel> {
        let shape = self.shape_of(piece.len() as int);
        if self.protects_slice(piece.len() as int) {
            Seq::new(
                shape.parity_count as nat,
                |i: int|
                    OutboundModel::Parity {
                        frame_id,
                        slice_id,
                        shape,
                        shard_index: i,
                        capture_ts_us,
                        payload: parity_of(
                            data_shards_of(piece, MAX_VIDEO_PAYLOAD as nat),
                            shape.parity_count as nat,
                        )[i],
                    },
            )
        } else {
            Seq::empty()
        }
    }

    /// Everything that goes out for the first `n` of some wire slices: of each its video packets
    /// and then its parity. Parity is only useful once something is missing, so putting it ahead
    /// of the data would delay every packet it protects for no gain.
    pub open spec fn outbound(
        self,
        frame_id: u32,
        slices: Seq<WireSlice>,
        data: Seq<u8>,
        capture_ts_us: u64,
        n: int,
    ) -> Seq<OutboundModel>
        decreases n,
    {
        if n <= 0 {
            Seq::empty()
        } else {
            let slice = slices[n - 1];
            let piece = data.subrange(slice.start as int, slice.end as int);
            self.outbound(frame_id, slices, data, capture_ts_us, n - 1) + video_packets(
                frame_id,
                slice,
                capture_ts_us,
                piece,
            ) + self.parity_packets(frame_id, slice.slice_id, capture_ts_us, piece)
        }
    }

    /// How many parity shards a slice of `data_count` packets gets.
    pub open spec fn parity_count(self, data_count: int) -> int {
        parity_ratio(data_count as nat, banded(self.parity_percent->0 as nat)) as int
    }
}

/// Decides everything about what leaves the host: how slices are cut and numbered, what parity
/// protects them, and of each packet when it goes and whether.
#[derive(Debug)]
pub struct SliceSender {
    parity_percent: Option<u32>,
    codec: FecCodec,
    parity: ParityBlock,
    slicing_frame: Option<u32>,
    next_slice_id: u16,
    pacer: Option<SendPacer>,
    adaptive: bool,
    loss: Option<LossInjector>,
    packets: u64,
    bytes: u64,
    parity_sent: u64,
    audio_frames: u64,
}

impl View for SliceSender {
    type V = SenderModel;

    closed spec fn view(&self) -> SenderModel {
        SenderModel {
            parity_percent: self.parity_percent,
            slicing_frame: self.slicing_frame,
            next_slice_id: self.next_slice_id,
            pacer: match self.pacer {
                Some(pacer) => Some(pacer@),
                None => None,
            },
            adaptive: self.adaptive,
            loss: match self.loss {
                Some(loss) => Some(loss@),
                None => None,
            },
            packets: self.packets as int,
            bytes: self.bytes as int,
            parity_sent: self.parity_sent as int,
            audio_frames: self.audio_frames as int,
        }
    }
}

impl SliceSender {
    /// Whether what it holds is in order.
    pub closed spec fn wf(&self) -> bool {
        &&& self.codec.wf()
        &&& self.parity.wf()
        &&& self.pacer matches Some(pacer) ==> pacer.wf()
        &&& self.loss matches Some(loss) ==> loss.wf()
    }

    /// The parity shards of the slice that was last protected.
    pub closed spec fn parity_rows(&self) -> Seq<Seq<u8>> {
        self.parity.rows()
    }

    /// Makes a sender that neither paces, protects nor drops.
    #[must_use]
    pub fn new() -> (sender: Self)
        ensures
            sender.wf(),
            sender@ == (SenderModel {
                parity_percent: None,
                slicing_frame: None,
                next_slice_id: 0,
                pacer: None,
                adaptive: false,
                loss: None,
                packets: 0,
                bytes: 0,
                parity_sent: 0,
                audio_frames: 0,
            }),
            sender.parity_rows() == Seq::<Seq<u8>>::empty(),
    {
        SliceSender {
            parity_percent: None,
            codec: FecCodec::new(),
            parity: ParityBlock::new(),
            slicing_frame: None,
            next_slice_id: 0,
            pacer: None,
            adaptive: false,
            loss: None,
            packets: 0,
            bytes: 0,
            parity_sent: 0,
            audio_frames: 0,
        }
    }

    /// Starts dropping the given fraction of outgoing video packets.
    ///
    /// `per_million` is parts per million, so five percent is 50_000. The seed makes a failing
    /// run reproducible. Parity is dropped as well as picture data: exempting it would make
    /// recovery look better than it is on a real path.
    pub fn inject_loss(&mut self, per_million: u32, seed: u64)
        requires
            old(self).wf(),
        ensures
            final(self).wf(),
            final(self)@ == (SenderModel { loss: final(self)@.loss, ..old(self)@ }),
            final(self)@.loss == Some(
                LossModel {
                    state: if seed == 0 {
                        0x9E37_79B9_7F4A_7C15u64
                    } else {
                        seed
                    },
                    threshold: if per_million < 1_000_000 {
                        per_million
                    } else {
                        1_000_000u32
                    },
                    considered: 0,
                    dropped: 0,
                },
            ),
    {
        self.loss = Some(LossInjector::new(per_million, seed));
    }

    /// Turns on Reed-Solomon parity, sized for the given loss estimate in percent.
    ///
    /// It sets how much of the bitrate is spent on repair; the codec holds it inside its band,
    /// so a wild estimate cannot spend everything or nothing.
    pub fn enable_parity(&mut self, percent: u32)
        requires
            old(self).wf(),
        ensures
            final(self).wf(),
            final(self)@ == (SenderModel { parity_percent: Some(percent), ..old(self)@ }),
    {
        self.parity_percent = Some(percent);
    }

    /// Spreads outgoing packets over time instead of blasting them at line rate.
    ///
    /// `adaptive` lets the congestion controller drive the rate from feedback; without it the
    /// pacer stays at `bitrate_bps` for the whole session.
    pub fn enable_pacing(&mut self, bitrate_bps: u32, adaptive: bool)
        requires
            old(self).wf(),
        ensures
            final(self).wf(),
            final(self)@ == (SenderModel { pacer: final(self)@.pacer, adaptive, ..old(self)@ }),
            final(self)@.pacer == Some(
                PacerModel {
                    bitrate_bps: later(bitrate_bps as int, MIN_BITRATE_BPS as int),
                    burst_bytes: DEFAULT_BURST_BYTES as int,
                    min_sleep: DEFAULT_MIN_SLEEP as int,
                    next: 0,
                    packets: 0,
                    waits: 0,
                    waited: 0,
                },
            ),
    {
        self.pacer = Some(
            SendPacer::new(
                PacerConfig {
                    bitrate_bps,
                    burst_bytes: DEFAULT_BURST_BYTES,
                    min_sleep: DEFAULT_MIN_SLEEP,
                },
            ),
        );
        self.adaptive = adaptive;
    }

    /// Cuts an encoder's slice of `len` bytes into wire slices and numbers them.
    ///
    /// Wire slices are numbered here rather than by the caller, because one slice from the
    /// encoder may become several on the wire and only this side knows when. Callers hand over
    /// the encoder's slices in order and say which is the frame's last. Only the very last piece
    /// ends the frame: setting the flag on each would have the client assembling a frame it has
    /// most of.
    pub fn cut(&mut self, frame_id: u32, len: usize, idr: bool, last: bool) -> (slices: Vec<
        WireSlice,
    >)
        requires
            old(self).wf(),
            len > 0,
        ensures
            final(self).wf(),
            slices@ == old(self)@.wire_slices(frame_id, len as int, idr, last),
            final(self)@ == old(self)@.having_cut(frame_id, len as int),
            forall|i: int|
                0 <= i < slices@.len() ==> (#[trigger] slices@[i]).start < slices@[i].end <= len,
    {
        if self.slicing_frame != Some(frame_id) {
            self.slicing_frame = Some(frame_id);
            self.next_slice_id = 0;
        }
        let limit: usize = max_slice_bytes(self.parity_percent);
        let ghost first = old(self)@.first_slice_id(frame_id);
        let ghost n = piece_count(len as int, limit as int);
        let ghost all = Seq::new(
            n as nat,
            |i: int|
                WireSlice {
                    slice_id: ((first + i) % 0x1_0000) as u16,
                    flags: frame_flags(idr, last && i + 1 == n),
                    start: piece_start(i, limit as int) as usize,
                    end: piece_end(len as int, i, limit as int) as usize,
                },
        );
        let mut slices: Vec<WireSlice> = Vec::new();
        let mut start: usize = 0;
        proof {
            assert(n >= 1) by (nonlinear_arith)
                requires
                    n == (len + limit - 1) / limit as int,
                    len >= 1,
                    limit >= 1,
            ;
            assert(piece_start(0, limit as int) == 0);
        }
        while start < len
            invariant
                self.wf(),
                len > 0,
                limit >= 1,
                n == piece_count(len as int, limit as int),
                slices@.len() <= n,
                all.len() == n,
                slices@ == all.take(slices@.len() as int),
                slices@.len() < n ==> start == piece_start(slices@.len() as int, limit as int),
                slices@.len() == n ==> start == len,
                self@ == (SenderModel {
                    slicing_frame: Some(frame_id),
                    next_slice_id: ((first + slices@.len()) % 0x1_0000) as u16,
                    ..old(self)@
                }),
                all == Seq::new(
                    n as nat,
                    |i: int|
                        WireSlice {
                            slice_id: ((first + i) % 0x1_0000) as u16,
                            flags: frame_flags(idr, last && i + 1 == n),
                            start: piece_start(i, limit as int) as usize,
                            end: piece_end(len as int, i, limit as int) as usize,
                        },
                ),
            decreases len - start,
        {
            let ghost at = slices@.len() as int;
            proof {
                lemma_piece(len as int, at, limit as int);
            }
            let end: usize = if len - start < limit {
                len
            } else {
                start + limit
            };
            let flags: u8 = (if idr {
                FLAG_IDR
            } else {
                0
            }) | (if last && end == len {
                FLAG_LAST_OF_FRAME
            } else {
                0
            });
            proof {
                if at + 1 < n {
                    lemma_piece(len as int, at + 1, limit as int);
                }
            }
            slices.push(WireSlice { slice_id: self.next_slice_id, flags, start, end });
            self.next_slice_id = self.next_slice_id.wrapping_add(1);
            start = end;
            assert(slices@ =~= all.take(at + 1));
        }
        proof {
            if slices@.len() < n {
                lemma_piece(len as int, slices@.len() as int, limit as int);
            }
            assert forall|i: int| 0 <= i < n implies (#[trigger] all[i]).start < all[i].end
                <= len by {
                lemma_piece(len as int, i, limit as int);
            }
        }
        assert(all.take(n) =~= all);
        slices
    }

    /// Generates parity for a wire slice, if parity is switched on and the slice fits one block.
    ///
    /// Every slice that [`Self::cut`] made fits, because that is what decided how long it could
    /// be. One that does not is left unprotected: the alternative is a block with one parity
    /// shard for two hundred data ones, protection that looks enabled and repairs nothing.
    pub fn protect(&mut self, data: &[u8]) -> (shape: Option<BlockShape>)
        requires
            old(self).wf(),
        ensures
            final(self).wf(),
            final(self)@ == old(self)@,
            shape is Some <==> old(self)@.protects_slice(data@.len() as int),
            shape matches Some(shape) ==> {
                &&& shape.data_count == packets_for(data@.len())
                &&& shape.parity_count == old(self)@.parity_count(shape.data_count as int)
                &&& shape.parity_count > 0
                &&& (shape.data_count - 1) * MAX_VIDEO_PAYLOAD + shape.tail_len == data@.len()
                &&& final(self).parity_rows() == parity_of(
                    data_shards_of(data@, MAX_VIDEO_PAYLOAD as nat),
                    shape.parity_count as nat,
                )
                &&& final(self).parity_rows().len() == shape.parity_count
            },
    {
        let percent: u32 = match self.parity_percent {
            Some(percent) => percent,
            None => return None,
        };
        if data.len() == 0 {
            return None;
        }
        let data_count: usize = (data.len() - 1) / MAX_VIDEO_PAYLOAD + 1;
        assert(data_count == packets_for(data@.len()));
        let most: usize = max_data_shards_for(percent);
        proof {
            lemma_largest_block(percent as nat, most as nat, MAX_DATA_SHARDS as nat);
        }
        if data_count > most {
            return None;
        }
        let parity_count: usize = parity_shards_for(data_count, percent);
        proof {
            lemma_parity_fits(data_count as nat, most as nat, percent as nat);
            lemma_cut(data@.len() as int, MAX_VIDEO_PAYLOAD as int);
        }
        if self.codec.encode(data, MAX_VIDEO_PAYLOAD, parity_count, &mut self.parity).is_err() {
            return None;
        }
        let tail: usize = data.len() - (data_count - 1) * MAX_VIDEO_PAYLOAD;
        Some(
            BlockShape {
                data_count: data_count as u8,
                parity_count: parity_count as u8,
                tail_len: tail as u16,
            },
        )
    }

    /// Returns parity packet `index` of the slice that was last protected.
    #[must_use]
    pub fn parity_packet(
        &self,
        frame_id: u32,
        slice_id: u16,
        shape: BlockShape,
        capture_ts_us: u64,
        index: u8,
    ) -> (packet: Option<FecPacket<'_>>)
        ensures
            packet is Some <==> index < self.parity_rows().len(),
            packet matches Some(packet) ==> {
                &&& packet.frame_id == frame_id
                &&& packet.slice_id == slice_id
                &&& packet.data_count == shape.data_count
                &&& packet.parity_count == shape.parity_count
                &&& packet.shard_index == index
                &&& packet.tail_len == shape.tail_len
                &&& packet.capture_ts_us == capture_ts_us
                &&& packet.payload@ == self.parity_rows()[index as int]
            },
    {
        match self.parity.shard(index as usize) {
            Some(shard) => Some(
                FecPacket {
                    frame_id,
                    slice_id,
                    data_count: shape.data_count,
                    parity_count: shape.parity_count,
                    shard_index: index,
                    tail_len: shape.tail_len,
                    capture_ts_us,
                    payload: shard,
                },
            ),
            None => None,
        }
    }

    /// Cuts one slice into packets, and adds the parity that protects them.
    ///
    /// `last` marks the slice that ends the frame, which is how the receiver knows the frame is
    /// complete rather than still arriving. The packets come back in the order they are to be
    /// sent in, each through [`Self::emit`]. A slice without bytes is nothing a real encoder
    /// produces, and neither is one larger than a slice can be.
    pub fn send_slice(
        &mut self,
        frame_id: u32,
        data: &[u8],
        capture_ts_us: u64,
        idr: bool,
        last: bool,
    ) -> (packets: Vec<Outbound>)
        requires
            old(self).wf(),
            data@.len() > 0,
            data@.len() <= MAX_SLICE_LEN || old(self)@.parity_percent is Some,
        ensures
            final(self).wf(),
            final(self)@ == old(self)@.having_cut(frame_id, data@.len() as int),
            ({
                let slices = old(self)@.wire_slices(frame_id, data@.len() as int, idr, last);
                shown(packets@) == old(self)@.outbound(
                    frame_id,
                    slices,
                    data@,
                    capture_ts_us,
                    slices.len() as int,
                )
            }),
    {
        let ghost before = self@;
        let slices: Vec<WireSlice> = self.cut(frame_id, data.len(), idr, last);
        let ghost cut = self@;
        let mut packets: Vec<Outbound> = Vec::new();
        let mut i: usize = 0;
        assert(shown(packets@) =~= Seq::<OutboundModel>::empty());
        while i < slices.len()
            invariant
                self.wf(),
                self@ == cut,
                cut == before.having_cut(frame_id, data@.len() as int),
                data@.len() > 0,
                data@.len() <= MAX_SLICE_LEN || before.parity_percent is Some,
                i <= slices@.len(),
                slices@ == before.wire_slices(frame_id, data@.len() as int, idr, last),
                forall|k: int|
                    0 <= k < slices@.len() ==> (#[trigger] slices@[k]).start < slices@[k].end
                        <= data@.len(),
                shown(packets@) == before.outbound(
                    frame_id,
                    slices@,
                    data@,
                    capture_ts_us,
                    i as int,
                ),
            decreases slices.len() - i,
        {
            let slice: WireSlice = slices[i];
            let piece: &[u8] = &data[slice.start..slice.end];
            assert(data.len() == data@.len());
            proof {
                lemma_piece_is_packetisable(before, frame_id, data@.len() as int, idr, last, i as int);
            }
            add_video(&mut packets, frame_id, slice, capture_ts_us, piece);
            self.add_parity(&mut packets, frame_id, slice.slice_id, capture_ts_us, piece);
            i = i + 1;
            assert(shown(packets@) =~= before.outbound(
                frame_id,
                slices@,
                data@,
                capture_ts_us,
                i as int,
            ));
        }
        packets
    }

    /// Adds the parity packets of a wire slice, if parity is switched on.
    fn add_parity(
        &mut self,
        packets: &mut Vec<Outbound>,
        frame_id: u32,
        slice_id: u16,
        capture_ts_us: u64,
        piece: &[u8],
    )
        requires
            old(self).wf(),
        ensures
            final(self).wf(),
            final(self)@ == old(self)@,
            shown(final(packets)@) == shown(old(packets)@) + old(self)@.parity_packets(
                frame_id,
                slice_id,
                capture_ts_us,
                piece@,
            ),
    {
        let ghost before = shown(packets@);
        let shape: BlockShape = match self.protect(piece) {
            Some(shape) => shape,
            None => {
                assert(shown(packets@) =~= before + Seq::<OutboundModel>::empty());
                return ;
            },
        };
        let ghost all = self@.parity_packets(frame_id, slice_id, capture_ts_us, piece@);
        let ghost rows = self.parity_rows();
        assert(shape == self@.shape_of(piece@.len() as int));
        let mut index: u8 = 0;
        assert(before =~= before + all.take(0));
        while index < shape.parity_count
            invariant
                index <= shape.parity_count,
                self.parity_rows() == rows,
                rows.len() == shape.parity_count,
                all.len() == shape.parity_count,
                forall|k: int|
                    0 <= k < all.len() ==> #[trigger] all[k] == (OutboundModel::Parity {
                        frame_id,
                        slice_id,
                        shape,
                        shard_index: k,
                        capture_ts_us,
                        payload: rows[k],
                    }),
                shown(packets@) == before + all.take(index as int),
            decreases shape.parity_count - index,
        {
            let payload: Vec<u8> = match self.parity.shard(index as usize) {
                Some(shard) => vstd::slice::slice_to_vec(shard),
                None => return ,
            };
            let ghost earlier = packets@;
            packets.push(
                Outbound::Parity(
                    ParityPacket {
                        frame_id,
                        slice_id,
                        shape,
                        shard_index: index,
                        capture_ts_us,
                        payload,
                    },
                ),
            );
            assert(shown(packets@) =~= shown(earlier).push(all[index as int]));
            assert(all.take(index as int + 1) =~= all.take(index as int).push(all[index as int]));
            assert(shown(packets@) =~= before + all.take(index as int + 1));
            index = index + 1;
        }
        assert(all.take(index as int) =~= all);
    }

    /// Paces and optionally drops a packet of `len` bytes.
    ///
    /// Every video and parity packet goes through here, so the pacing and the loss injection are
    /// each written once. Control, feedback and input deliberately do not: input has priority
    /// over everything, and eighteen bytes of cursor position cannot congest anything.
    /// `target_bps` is what the congestion controller wants, zero while it wants nothing.
    pub fn emit(&mut self, len: usize, target_bps: u32, now_us: u64) -> (emission: Emission)
        requires
            old(self).wf(),
            old(self)@.has_room(len as int),
        ensures
            final(self).wf(),
            emission == old(self)@.emission(target_bps, now_us),
            final(self)@ == old(self)@.emitting(len as int, target_bps, now_us),
    {
        let now_ns: u64 = match now_us.checked_mul(1000) {
            Some(now_ns) => now_ns,
            None => u64::MAX,
        };
        let wait_ns: u64 = match &mut self.pacer {
            Some(pacer) => {
                if self.adaptive && target_bps > 0 && target_bps != pacer.bitrate_bps() {
                    pacer.set_bitrate_bps(target_bps);
                }
                pacer.wait_before(len, now_ns)
            },
            None => 0,
        };
        self.packets = self.packets + 1;
        self.bytes = self.bytes + len as u64;
        let drop: bool = match &mut self.loss {
            Some(loss) => loss.should_drop(),
            None => false,
        };
        Emission { wait_ns, send: !drop }
    }

    /// Counts a packet that went out past the pacer: a cursor position.
    pub fn count_unpaced(&mut self, len: usize)
        requires
            old(self).wf(),
            old(self)@.has_room(len as int),
        ensures
            final(self).wf(),
            final(self)@ == (SenderModel {
                packets: old(self)@.packets + 1,
                bytes: old(self)@.bytes + len,
                ..old(self)@
            }),
    {
        self.packets = self.packets + 1;
        self.bytes = self.bytes + len as u64;
    }

    /// Counts an audio frame that went out.
    ///
    /// Audio is neither paced nor protected by parity: it is a fraction of a percent of the
    /// link, and a lost frame is concealed by the decoder.
    pub fn count_audio(&mut self, len: usize)
        requires
            old(self).wf(),
            old(self)@.has_room(len as int),
            old(self)@.audio_frames < u64::MAX,
        ensures
            final(self).wf(),
            final(self)@ == (SenderModel {
                packets: old(self)@.packets + 1,
                bytes: old(self)@.bytes + len,
                audio_frames: old(self)@.audio_frames + 1,
                ..old(self)@
            }),
    {
        self.count_unpaced(len);
        self.audio_frames = self.audio_frames + 1;
    }

    /// Counts a parity packet that went out.
    pub fn count_parity(&mut self)
        requires
            old(self).wf(),
            old(self)@.parity_sent < u64::MAX,
        ensures
            final(self).wf(),
            final(self)@ == (SenderModel {
                parity_sent: old(self)@.parity_sent + 1,
                ..old(self)@
            }),
    {
        self.parity_sent = self.parity_sent + 1;
    }

    /// Returns how many parity packets have been sent.
    #[must_use]
    pub fn parity_sent(&self) -> (count: u64)
        ensures
            count == self@.parity_sent,
    {
        self.parity_sent
    }

    /// Returns how many audio frames have been sent.
    #[must_use]
    pub fn audio_frames(&self) -> (count: u64)
        ensures
            count == self@.audio_frames,
    {
        self.audio_frames
    }

    /// Returns how many packets have been sent.
    #[must_use]
    pub fn packets(&self) -> (count: u64)
        ensures
            count == self@.packets,
    {
        self.packets
    }

    /// Returns how many bytes have been sent, including packet headers.
    #[must_use]
    pub fn bytes(&self) -> (count: u64)
        ensures
            count == self@.bytes,
    {
        self.bytes
    }

    /// Returns whether feedback drives the pacer's rate.
    #[must_use]
    pub fn is_adaptive(&self) -> (adaptive: bool)
        ensures
            adaptive == self@.adaptive,
    {
        self.adaptive
    }

    /// Returns the pacer, where packets are paced.
    #[must_use]
    pub fn pacer(&self) -> (pacer: Option<&SendPacer>)
        ensures
            match pacer {
                Some(pacer) => self@.pacer == Some(pacer@),
                None => self@.pacer is None,
            },
    {
        self.pacer.as_ref()
    }

    /// Returns the loss injector, where one is running.
    #[must_use]
    pub fn loss(&self) -> (loss: Option<&LossInjector>)
        ensures
            match loss {
                Some(loss) => self@.loss == Some(loss@),
                None => self@.loss is None,
            },
    {
        self.loss.as_ref()
    }
}

/// Adds the video packets of a wire slice.
fn add_video(
    packets: &mut Vec<Outbound>,
    frame_id: u32,
    slice: WireSlice,
    capture_ts_us: u64,
    piece: &[u8],
)
    requires
        slice_error(piece@.len()) is None,
        slice.flags & VIDEO_FLAGS_RESERVED_MASK == 0,
    ensures
        shown(final(packets)@) == shown(old(packets)@) + video_packets(
            frame_id,
            slice,
            capture_ts_us,
            piece@,
        ),
{
    let ghost before = shown(packets@);
    let ghost all = video_packets(frame_id, slice, capture_ts_us, piece@);
    let mut packetizer: SlicePacketizer = match SlicePacketizer::new(
        frame_id,
        slice.slice_id,
        slice.flags,
        capture_ts_us,
        piece,
    ) {
        Ok(packetizer) => packetizer,
        Err(_) => return ,
    };
    proof {
        lemma_packet_count(piece@.len());
    }
    let count: u16 = packetizer.packet_count();
    let mut index: u16 = 0;
    assert(before =~= before + all.take(0));
    while index < count
        invariant
            index <= count,
            count == packets_for(piece@.len()),
            packetizer.wf(),
            packetizer.slice() == piece@,
            packetizer.header() == (frame_id, slice.slice_id, slice.flags, capture_ts_us),
            packetizer.handed_out() == index,
            slice_error(piece@.len()) is None,
            slice.flags & VIDEO_FLAGS_RESERVED_MASK == 0,
            all == video_packets(frame_id, slice, capture_ts_us, piece@),
            shown(packets@) == before + all.take(index as int),
        decreases count - index,
    {
        let packet: VideoPacket = match packetizer.next() {
            Some(packet) => packet,
            None => return ,
        };
        proof {
            lemma_fragment_fits(piece@, index as int);
        }
        let bytes: Vec<u8> = encoded(&packet);
        let ghost earlier = packets@;
        packets.push(Outbound::Video(bytes));
        assert(shown(packets@) =~= shown(earlier).push(all[index as int]));
        assert(all.take(index as int + 1) =~= all.take(index as int).push(all[index as int]));
        assert(shown(packets@) =~= before + all.take(index as int + 1));
        index = index + 1;
    }
    assert(all.take(index as int) =~= all);
}

/// Returns the bytes of a video packet.
fn encoded(packet: &VideoPacket<'_>) -> (bytes: Vec<u8>)
    requires
        packet.payload@.len() <= MAX_VIDEO_PAYLOAD,
        packet.flags & VIDEO_FLAGS_RESERVED_MASK == 0,
    ensures
        bytes@ == packet.wire(),
{
    let len: usize = packet.encoded_len();
    let mut bytes: Vec<u8> = vec![0u8; len];
    let ghost blank = bytes@;
    let written = packet.encode_into(bytes.as_mut_slice());
    assert(written is Ok);
    assert(bytes@ =~= packet.wire());
    bytes
}

/// A fragment is no longer than a packet carries.
proof fn lemma_fragment_fits(slice: Seq<u8>, index: int)
    requires
        slice.len() > 0,
        0 <= index < packets_for(slice.len()),
    ensures
        fragment(slice, index).len() <= MAX_VIDEO_PAYLOAD,
{
    lemma_cut(slice.len() as int, MAX_VIDEO_PAYLOAD as int);
    let count = packets_for(slice.len()) as int;
    assert(0 <= index * 1180 <= (count - 1) * 1180 && (index + 1) * 1180 == index * 1180 + 1180)
        by (nonlinear_arith)
        requires
            0 <= index <= count - 1,
    ;
    assert(index * MAX_VIDEO_PAYLOAD == index * 1180 && (index + 1) * MAX_VIDEO_PAYLOAD == (index
        + 1) * 1180) by (nonlinear_arith)
        requires
            MAX_VIDEO_PAYLOAD == 1180,
    ;
}

/// Every piece of a slice that is small enough, or that parity has cut small enough, can be cut
/// into packets, and its flags can be written.
proof fn lemma_piece_is_packetisable(
    sender: SenderModel,
    frame_id: u32,
    len: int,
    idr: bool,
    last: bool,
    index: int,
)
    requires
        0 < len,
        len <= MAX_SLICE_LEN || sender.parity_percent is Some,
        0 <= index < sender.wire_slices(frame_id, len, idr, last).len(),
        len <= usize::MAX,
    ensures
        ({
            let slice = sender.wire_slices(frame_id, len, idr, last)[index];
            &&& slice_error((slice.end - slice.start) as nat) is None
            &&& slice.flags & VIDEO_FLAGS_RESERVED_MASK == 0
        }),
{
    let limit = spec_max_slice_bytes(sender.parity_percent);
    let n = piece_count(len, limit);
    flags_are_read_back(idr, last && index + 1 == n);
    if sender.parity_percent is Some {
        let percent = sender.parity_percent->0 as nat;
        lemma_a_block_holds_something(percent, MAX_DATA_SHARDS as nat);
        lemma_largest_block_is_bounded(percent, MAX_DATA_SHARDS as nat);
        let most = largest_block(percent, MAX_DATA_SHARDS as nat);
        assert(1180 <= most * MAX_VIDEO_PAYLOAD <= 254 * 1180) by (nonlinear_arith)
            requires
                1 <= most <= 254,
                MAX_VIDEO_PAYLOAD == 1180,
        ;
    }
    lemma_piece(len, index, limit);
}

/// The largest block is one of those asked about.
proof fn lemma_largest_block_is_bounded(percent: nat, from: nat)
    ensures
        largest_block(percent, from) <= from,
    decreases from,
{
    if from > 1 {
        lemma_largest_block_is_bounded(percent, (from - 1) as nat);
    }
}

impl Default for SliceSender {
    fn default() -> (sender: Self)
        ensures
            sender.wf(),
            sender@ == (SenderModel {
                parity_percent: None,
                slicing_frame: None,
                next_slice_id: 0,
                pacer: None,
                adaptive: false,
                loss: None,
                packets: 0,
                bytes: 0,
                parity_sent: 0,
                audio_frames: 0,
            }),
            sender.parity_rows() == Seq::<Seq<u8>>::empty(),
    {
        SliceSender::new()
    }
}

/// A slice that fits one block gets its whole share of parity, and a block made of both can be
/// encoded.
proof fn lemma_parity_fits(data_count: nat, most: nat, percent: nat)
    requires
        1 <= data_count <= most <= MAX_DATA_SHARDS,
        fits_one_block(most, percent),
    ensures
        fits_one_block(data_count, percent),
        parity_ratio(data_count, banded(percent)) >= 1,
{
    let held = banded(percent);
    assert(data_count * held <= most * held) by (nonlinear_arith)
        requires
            data_count <= most,
    ;
    assert(data_count * held >= 1) by (nonlinear_arith)
        requires
            data_count >= 1,
            held >= 1,
    ;
    if most > data_count {
        assert(most * held >= data_count * held + held * (most - data_count)) by (nonlinear_arith);
    }
}

/// The flags a sender sets are never reserved ones, and say what they were made of.
pub proof fn flags_are_read_back(idr: bool, last: bool)
    ensures
        frame_flags(idr, last) & VIDEO_FLAGS_RESERVED_MASK == 0,
        (frame_flags(idr, last) & FLAG_IDR != 0) == idr,
        (frame_flags(idr, last) & FLAG_LAST_OF_FRAME != 0) == last,
{
    assert({
        &&& (1u8 | 2u8) & 0xf8 == 0 && (1u8 | 2u8) & 1 != 0 && (1u8 | 2u8) & 2 != 0
        &&& (1u8 | 0u8) & 0xf8 == 0 && (1u8 | 0u8) & 1 != 0 && (1u8 | 0u8) & 2 == 0
        &&& (0u8 | 2u8) & 0xf8 == 0 && (0u8 | 2u8) & 1 == 0 && (0u8 | 2u8) & 2 != 0
        &&& (0u8 | 0u8) & 0xf8 == 0 && (0u8 | 0u8) & 1 == 0 && (0u8 | 0u8) & 2 == 0
    }) by (bit_vector);
}

/// Whether a packet that goes out is one that a reassembler takes for a part of a frame made of
/// the given slices: what its bytes read as is a fragment of one of the slices, or it is parity
/// that repairs one.
pub open spec fn is_of_frame(out: OutboundModel, frame_id: u32, frame: Seq<Seq<u8>>) -> bool {
    match out {
        OutboundModel::Video(bytes) => forall|packet: VideoPacket| #[trigger]
            packet.reads_as(bytes) ==> packet.frame_id == frame_id && packet_of(packet, frame),
        OutboundModel::Parity { shape, .. } => forall|packet: FecPacket| #[trigger]
            carries(packet, out) ==> packet.frame_id == frame_id && protects(packet, frame),
    }
}

/// Whether a parity packet is one that goes out.
pub open spec fn carries(packet: FecPacket, out: OutboundModel) -> bool {
    out matches OutboundModel::Parity {
        frame_id,
        slice_id,
        shape,
        shard_index,
        capture_ts_us,
        payload,
    } && {
        &&& packet.frame_id == frame_id
        &&& packet.slice_id == slice_id
        &&& packet.data_count == shape.data_count
        &&& packet.parity_count == shape.parity_count
        &&& packet.tail_len == shape.tail_len
        &&& packet.shard_index == shard_index
        &&& packet.capture_ts_us == capture_ts_us
        &&& packet.payload@ == payload
    }
}

/// Every video packet of a wire slice is of the frame that the slice belongs to, and the flag
/// that ends the frame is on the last slice alone.
pub proof fn every_video_packet_is_of_its_frame(
    frame: Seq<Seq<u8>>,
    frame_id: u32,
    slice: WireSlice,
    capture_ts_us: u64,
    idr: bool,
    last: bool,
    index: int,
)
    requires
        slice.slice_id < frame.len(),
        slice_error(frame[slice.slice_id as int].len()) is None,
        slice.flags == frame_flags(idr, last && slice.slice_id + 1 == frame.len()),
        0 <= index < packets_for(frame[slice.slice_id as int].len()),
    ensures
        is_of_frame(
            video_packets(frame_id, slice, capture_ts_us, frame[slice.slice_id as int])[index],
            frame_id,
            frame,
        ),
{
    let piece = frame[slice.slice_id as int];
    let count = packets_for(piece.len());
    lemma_packet_count(piece.len());
    flags_are_read_back(idr, last && slice.slice_id + 1 == frame.len());
    let out = video_packets(frame_id, slice, capture_ts_us, piece)[index];
    let bytes = video_wire(
        frame_id,
        slice.slice_id,
        index as u16,
        count as u16,
        slice.flags,
        capture_ts_us,
        fragment(piece, index),
    );
    assert(out == OutboundModel::Video(bytes));
    assert forall|packet: VideoPacket| #[trigger] packet.reads_as(bytes) implies packet.frame_id
        == frame_id && packet_of(packet, frame) by {
        video_fields_read_back(
            frame_id,
            slice.slice_id,
            index as u16,
            count as u16,
            slice.flags,
            capture_ts_us,
            fragment(piece, index),
            packet,
        );
    }
}

/// Every parity packet of a wire slice repairs the frame that the slice belongs to.
pub proof fn every_parity_packet_protects_its_frame(
    sender: SenderModel,
    frame: Seq<Seq<u8>>,
    frame_id: u32,
    slice_id: u16,
    capture_ts_us: u64,
    index: int,
)
    requires
        slice_id < frame.len(),
        ({
            let piece = frame[slice_id as int];
            0 <= index < sender.parity_packets(frame_id, slice_id, capture_ts_us, piece).len()
        }),
    ensures
        is_of_frame(
            sender.parity_packets(frame_id, slice_id, capture_ts_us, frame[slice_id as int])[index],
            frame_id,
            frame,
        ),
{
    let piece = frame[slice_id as int];
    let len = piece.len() as int;
    let count = packets_for(piece.len());
    let percent = sender.parity_percent->0 as nat;
    lemma_largest_block_is_bounded(percent, MAX_DATA_SHARDS as nat);
    lemma_cut(len, MAX_VIDEO_PAYLOAD as int);
    let shape = sender.shape_of(len);
    let full = (count - 1) * MAX_VIDEO_PAYLOAD;
    assert(count * MAX_VIDEO_PAYLOAD == full + MAX_VIDEO_PAYLOAD) by (nonlinear_arith)
        requires
            full == (count - 1) * MAX_VIDEO_PAYLOAD,
    ;
    assert(0 <= len - full <= 1180);
    assert(full + shape.tail_len == len);
}

/// Everything that is sent of a frame is of that frame: whatever a reassembler takes in of it,
/// in whatever order and with whatever missing, what it delivers is the frame. The frame is
/// handed over as one slice, of no more pieces than there are slice numbers.
pub proof fn a_frame_is_sent_as_itself(
    sender: SenderModel,
    frame_id: u32,
    data: Seq<u8>,
    capture_ts_us: u64,
    idr: bool,
    index: int,
)
    requires
        0 < data.len() <= usize::MAX,
        data.len() <= MAX_SLICE_LEN || sender.parity_percent is Some,
        sender.slicing_frame != Some(frame_id),
        piece_count(data.len() as int, spec_max_slice_bytes(sender.parity_percent)) <= 0x1_0000,
        ({
            let slices = sender.wire_slices(frame_id, data.len() as int, idr, true);
            0 <= index < sender.outbound(
                frame_id,
                slices,
                data,
                capture_ts_us,
                slices.len() as int,
            ).len()
        }),
    ensures
        ({
            let limit = spec_max_slice_bytes(sender.parity_percent);
            let slices = sender.wire_slices(frame_id, data.len() as int, idr, true);
            let frame = pieces(data, limit);
            &&& whole(frame) == data
            &&& is_of_frame(
                sender.outbound(frame_id, slices, data, capture_ts_us, slices.len() as int)[index],
                frame_id,
                frame,
            )
        }),
{
    let slices = sender.wire_slices(frame_id, data.len() as int, idr, true);
    lemma_limit_is_positive(sender.parity_percent);
    the_pieces_make_up_the_slice(data, spec_max_slice_bytes(sender.parity_percent));
    lemma_outbound_is_of_frame(
        sender,
        frame_id,
        data,
        capture_ts_us,
        idr,
        slices.len() as int,
        index,
    );
}

/// There is room for something in every wire slice.
proof fn lemma_limit_is_positive(parity_percent: Option<u32>)
    ensures
        spec_max_slice_bytes(parity_percent) > 0,
{
    if parity_percent is Some {
        let percent = parity_percent->0 as nat;
        lemma_a_block_holds_something(percent, MAX_DATA_SHARDS as nat);
        let most = largest_block(percent, MAX_DATA_SHARDS as nat);
        assert(most * MAX_VIDEO_PAYLOAD >= 1180) by (nonlinear_arith)
            requires
                most >= 1,
                MAX_VIDEO_PAYLOAD == 1180,
        ;
    }
}

/// What goes out for the first `n` wire slices of a frame is of that frame.
proof fn lemma_outbound_is_of_frame(
    sender: SenderModel,
    frame_id: u32,
    data: Seq<u8>,
    capture_ts_us: u64,
    idr: bool,
    n: int,
    index: int,
)
    requires
        0 < data.len() <= usize::MAX,
        data.len() <= MAX_SLICE_LEN || sender.parity_percent is Some,
        sender.slicing_frame != Some(frame_id),
        piece_count(data.len() as int, spec_max_slice_bytes(sender.parity_percent)) <= 0x1_0000,
        0 <= n <= sender.wire_slices(frame_id, data.len() as int, idr, true).len(),
        0 <= index < sender.outbound(
            frame_id,
            sender.wire_slices(frame_id, data.len() as int, idr, true),
            data,
            capture_ts_us,
            n,
        ).len(),
    ensures
        is_of_frame(
            sender.outbound(
                frame_id,
                sender.wire_slices(frame_id, data.len() as int, idr, true),
                data,
                capture_ts_us,
                n,
            )[index],
            frame_id,
            pieces(data, spec_max_slice_bytes(sender.parity_percent)),
        ),
    decreases n,
{
    let len = data.len() as int;
    let limit = spec_max_slice_bytes(sender.parity_percent);
    let slices = sender.wire_slices(frame_id, len, idr, true);
    let frame = pieces(data, limit);
    lemma_limit_is_positive(sender.parity_percent);
    if n > 0 {
        let slice = slices[n - 1];
        let piece = data.subrange(slice.start as int, slice.end as int);
        lemma_piece(len, n - 1, limit);
        lemma_piece_is_packetisable(sender, frame_id, len, idr, true, n - 1);
        assert(slice.slice_id == n - 1);
        assert(frame[n - 1] == piece);
        let earlier = sender.outbound(frame_id, slices, data, capture_ts_us, n - 1);
        let video = video_packets(frame_id, slice, capture_ts_us, piece);
        let parity = sender.parity_packets(frame_id, slice.slice_id, capture_ts_us, piece);
        if index < earlier.len() {
            lemma_outbound_is_of_frame(sender, frame_id, data, capture_ts_us, idr, n - 1, index);
        } else if index < earlier.len() + video.len() {
            every_video_packet_is_of_its_frame(
                frame,
                frame_id,
                slice,
                capture_ts_us,
                idr,
                true,
                index - earlier.len(),
            );
        } else {
            every_parity_packet_protects_its_frame(
                sender,
                frame,
                frame_id,
                slice.slice_id,
                capture_ts_us,
                index - earlier.len() - video.len(),
            );
        }
    }
}

/// Every wire slice that is cut gets a parity block, where parity is on.
pub proof fn every_piece_is_protected(sender: SenderModel, data: Seq<u8>, index: int)
    requires
        sender.parity_percent is Some,
        data.len() > 0,
        0 <= index < pieces(data, spec_max_slice_bytes(sender.parity_percent)).len(),
    ensures
        sender.protects_slice(
            pieces(data, spec_max_slice_bytes(sender.parity_percent))[index].len() as int,
        ),
{
    let limit = spec_max_slice_bytes(sender.parity_percent);
    let percent = sender.parity_percent->0 as nat;
    let most = largest_block(percent, MAX_DATA_SHARDS as nat);
    lemma_a_block_holds_something(percent, MAX_DATA_SHARDS as nat);
    the_pieces_make_up_the_slice(data, limit);
    let len = pieces(data, limit)[index].len() as int;
    assert(0 < len <= most * 1180);
    assert((len - 1) / 1180 < most) by (nonlinear_arith)
        requires
            0 < len <= most * 1180,
    ;
}

/// A request for a keyframe is answered the first time, and whenever the last answer is 33
/// milliseconds ago or more; sooner it is not, and without a request nothing is.
pub proof fn a_request_is_answered_once_the_last_answer_is_old(path: ReturnPath, now_us: u64)
    ensures
        path.keyframe_wanted && path.keyframe_granted_us == 0 ==> path.grants(now_us),
        path.keyframe_wanted && now_us >= path.keyframe_granted_us + 33_000 ==> path.grants(now_us),
        path.keyframe_granted_us > 0 && now_us < path.keyframe_granted_us + 33_000 ==> !path.grants(
            now_us,
        ),
        !path.keyframe_wanted ==> !path.grants(now_us),
{
}

/// A report counts where it is the first or about a frame ahead of the newest that was
/// acknowledged: then it says which frame that is, how many before it are missing, and whether a
/// keyframe is wanted. Any other says nothing but that it came.
pub proof fn only_a_newer_report_is_believed(
    path: ReturnPath,
    report: FeedbackPacket,
    wants_keyframe: bool,
)
    ensures
        ({
            let after = path.hearing(report, wants_keyframe);
            let ahead = (report.last_frame_id - path.newest_acked) % 0x1_0000_0000;
            let clear = Set::new(
                |k: int| 0 <= k < 32 && (report.recv_bitmap >> (k as u32)) & 1 == 0,
            );
            &&& after.ever
            &&& after.captures == path.captures
            &&& after.target_bps == path.target_bps
            &&& path.reports < u64::MAX ==> after.reports == path.reports + 1
            &&& if !path.ever || 0 < ahead < 0x8000_0000 {
                &&& after.newest_acked == report.last_frame_id
                &&& after.missing_in_last == clear.len()
                &&& after.keyframe_wanted == (path.keyframe_wanted || wants_keyframe)
                &&& path.keyframe_requests < u64::MAX ==> after.keyframe_requests
                    == path.keyframe_requests + if wants_keyframe {
                    1int
                } else {
                    0int
                }
            } else {
                &&& after.newest_acked == path.newest_acked
                &&& after.missing_in_last == path.missing_in_last
                &&& after.keyframe_wanted == path.keyframe_wanted
                &&& after.keyframe_requests == path.keyframe_requests
            }
        }),
{
    a_gap_is_a_bit_that_is_not_set(report.recv_bitmap);
    lemma_count_set_bound(gaps(report.recv_bitmap, 32));
}

/// A delay is sampled of each frame once: of a report about a frame that is ahead of the last one
/// sampled, or the first, where there is a controller and the frame's capture is remembered; and
/// then it is counted from that capture.
pub proof fn a_frame_is_sampled_once(model: ReturnModel, path: ReturnPath, report: FeedbackPacket)
    requires
        model.control is Some,
    ensures
        ({
            let frame_id = report.last_frame_id;
            let slot = path.captures@[frame_id as int % 64];
            let fresh = model.last_sampled matches Some(last) ==> 0 < (frame_id - last)
                % 0x1_0000_0000 < 0x8000_0000;
            &&& !fresh ==> model.sample(path, report) is None
            &&& fresh && frame_id < 0xffff_ffff && slot.frame_id == frame_id ==> model.sample(
                path,
                report,
            ) == Some(slot.capture_ts_us)
            &&& slot.frame_id != frame_id ==> model.sample(path, report) is None
        }),
        (ReturnModel { control: None, ..model }).sample(path, report) is None,
{
}

/// The time an event was on the wire is from when it was sent to when it arrived, and nothing
/// where the clocks make it less.
pub proof fn the_wire_time_is_the_difference(arrived_us: u64, origin_ts_us: u64)
    ensures
        arrived_us >= origin_ts_us && arrived_us - origin_ts_us <= u32::MAX ==> wire_time(
            arrived_us,
            origin_ts_us,
        ) + origin_ts_us == arrived_us,
        arrived_us <= origin_ts_us ==> wire_time(arrived_us, origin_ts_us) == 0,
        arrived_us - origin_ts_us > u32::MAX ==> wire_time(arrived_us, origin_ts_us) == u32::MAX,
{
}

/// A slice goes out as pieces that follow one another from its first byte to its last, none longer
/// than allowed and none but the last shorter.
pub proof fn a_slice_goes_out_piece_by_piece(
    sender: SenderModel,
    frame_id: u32,
    len: int,
    idr: bool,
    last: bool,
    i: int,
)
    requires
        0 < len <= usize::MAX,
        0 <= i < sender.wire_slices(frame_id, len, idr, last).len(),
    ensures
        ({
            let slices = sender.wire_slices(frame_id, len, idr, last);
            let limit = spec_max_slice_bytes(sender.parity_percent);
            let slice = slices[i];
            &&& i == 0 ==> slice.start == 0
            &&& slice.start < slice.end
            &&& slice.end - slice.start <= limit
            &&& i + 1 == slices.len() ==> slice.end == len
            &&& i + 1 < slices.len() ==> slice.end == slices[i + 1].start && slice.end
                - slice.start == limit
        }),
{
    let limit = spec_max_slice_bytes(sender.parity_percent);
    let n = piece_count(len, limit);
    lemma_limit_is_something(sender.parity_percent);
    lemma_piece(len, i, limit);
    if i + 1 < n {
        lemma_piece(len, i + 1, limit);
        assert(piece_start(i + 1, limit) == piece_start(i, limit) + limit) by (nonlinear_arith)
            requires
                piece_start(i + 1, limit) == (i + 1) * limit,
                piece_start(i, limit) == i * limit,
        ;
    }
    if i == 0 {
        assert(0 * limit == 0);
    }
}

/// Every wire slice may carry something.
proof fn lemma_limit_is_something(parity_percent: Option<u32>)
    ensures
        spec_max_slice_bytes(parity_percent) >= 1,
{
    if let Some(percent) = parity_percent {
        lemma_a_block_holds_something(percent as nat, MAX_DATA_SHARDS as nat);
        let block = largest_block(percent as nat, MAX_DATA_SHARDS as nat);
        assert(block * MAX_VIDEO_PAYLOAD >= 1) by (nonlinear_arith)
            requires
                block >= 1,
                MAX_VIDEO_PAYLOAD >= 1,
        ;
    }
}

/// The pieces of a frame are numbered one after another, from zero, through all its slices. Every
/// one of them says whether the frame is an IDR, and only the very last piece of the last slice
/// ends the frame.
pub proof fn the_pieces_of_a_frame_are_numbered_through(
    sender: SenderModel,
    frame_id: u32,
    len: int,
    idr: bool,
    last: bool,
    i: int,
)
    requires
        0 < len <= usize::MAX,
        0 <= i < sender.wire_slices(frame_id, len, idr, last).len(),
    ensures
        ({
            let slices = sender.wire_slices(frame_id, len, idr, last);
            let next = sender.having_cut(frame_id, len).first_slice_id(frame_id);
            &&& i == 0 && sender.slicing_frame != Some(frame_id) ==> slices[i].slice_id == 0
            &&& i == 0 && sender.slicing_frame == Some(frame_id) ==> slices[i].slice_id
                == sender.next_slice_id
            &&& slices[i].slice_id < 0xffff ==> slices[i].slice_id + 1 == if i + 1 < slices.len() {
                slices[i + 1].slice_id
            } else {
                next
            }
            &&& (slices[i].flags & FLAG_IDR != 0) == idr
            &&& (slices[i].flags & FLAG_LAST_OF_FRAME != 0) == (last && i + 1 == slices.len())
        }),
{
    let limit = spec_max_slice_bytes(sender.parity_percent);
    let n = piece_count(len, limit);
    lemma_limit_is_something(sender.parity_percent);
    assert(n >= 1) by (nonlinear_arith)
        requires
            n == (len + limit - 1) / limit,
            len >= 1,
            limit >= 1,
    ;
    let slices = sender.wire_slices(frame_id, len, idr, last);
    let first = sender.first_slice_id(frame_id) as int;
    assert(slices.len() == n);
    assert(slices[i].slice_id == (first + i) % 0x1_0000);
    assert(i + 1 < n ==> slices[i + 1].slice_id == (first + i + 1) % 0x1_0000);
    assert(sender.having_cut(frame_id, len).first_slice_id(frame_id) == (first + n) % 0x1_0000);
    flags_are_read_back(idr, last && i + 1 == n);
}

/// Whatever becomes of a packet it is counted, and it waits for what the pacer says, at the rate
/// that feedback wants where feedback drives the rate and wants one.
pub proof fn every_packet_is_paced_and_counted(
    sender: SenderModel,
    len: int,
    target_bps: u32,
    now_us: u64,
)
    requires
        sender.pacer matches Some(pacer) ==> pacer.bitrate_bps >= 1_000_000,
    ensures
        ({
            let after = sender.emitting(len, target_bps, now_us);
            let emission = sender.emission(target_bps, now_us);
            &&& after.packets == sender.packets + 1
            &&& after.bytes == sender.bytes + len
            &&& after.parity_sent == sender.parity_sent
            &&& sender.loss is None ==> emission.send
            &&& sender.loss matches Some(loss) ==> (emission.send <==> !loss.drops_next())
            &&& sender.pacer is None ==> emission.wait_ns == 0
            &&& sender.pacer matches Some(pacer) ==> {
                &&& after.pacer matches Some(now_pacer)
                &&& now_pacer.packets == pacer.packets + 1
                &&& sender.adaptive && target_bps >= 1_000_000 ==> now_pacer.bitrate_bps
                    == target_bps
                &&& sender.adaptive && 0 < target_bps < 1_000_000 ==> now_pacer.bitrate_bps
                    == 1_000_000
                &&& !sender.adaptive || target_bps == 0 ==> now_pacer.bitrate_bps
                    == pacer.bitrate_bps
            }
        }),
{
}

/// A protected piece gets its whole share of parity: the least number of shards that makes up the
/// percentage of its packets, in one block, whose last packet is as long as the piece leaves it.
pub proof fn a_piece_gets_its_whole_share_of_parity(sender: SenderModel, len: int)
    requires
        sender.protects_slice(len),
        len <= 254 * MAX_VIDEO_PAYLOAD,
    ensures
        ({
            let shape = sender.shape_of(len);
            let held = banded(sender.parity_percent->0 as nat);
            &&& 100 * shape.parity_count >= shape.data_count * held
            &&& 100 * (shape.parity_count - 1) < shape.data_count * held
            &&& shape.data_count + shape.parity_count <= 255
            &&& (shape.data_count - 1) * 1180 + shape.tail_len == len
            &&& 1 <= shape.tail_len <= 1180
        }),
{
    let percent = sender.parity_percent->0 as nat;
    let count = packets_for(len as nat);
    let most = largest_block(percent, MAX_DATA_SHARDS as nat);
    lemma_cut(len, MAX_VIDEO_PAYLOAD as int);
    a_wire_slice_is_the_most_one_block_protects(percent, MAX_DATA_SHARDS as nat);
    lemma_largest_block_is_bounded(percent, MAX_DATA_SHARDS as nat);
    lemma_parity_fits(count, most, percent);
    parity_is_the_least_that_makes_up_the_loss(count, percent);
    assert(count * MAX_VIDEO_PAYLOAD == (count - 1) * MAX_VIDEO_PAYLOAD + MAX_VIDEO_PAYLOAD)
        by (nonlinear_arith);
}

/// A wire slice carries as many packets as one block can protect with their whole share of parity,
/// and one more would not fit.
pub proof fn a_wire_slice_is_the_most_one_block_protects(percent: nat, from: nat)
    requires
        1 <= from,
    ensures
        ({
            let most = largest_block(percent, from);
            let held = banded(percent);
            &&& 1 <= most <= from
            &&& fits_one_block(most, percent)
            &&& most * held <= 100 * (255 - most)
            &&& most < from ==> (most + 1) * held > 100 * (255 - (most + 1))
        }),
    decreases from,
{
    let most = largest_block(percent, from);
    if from <= 1 || fits_one_block(from, percent) {
        if from == 1 {
            assert(1 * banded(percent) == banded(percent));
        }
        a_block_fits_where_its_share_does(from, percent);
    } else {
        a_wire_slice_is_the_most_one_block_protects(percent, (from - 1) as nat);
        a_block_fits_where_its_share_does((most + 1) as nat, percent);
        a_block_fits_where_its_share_does(from, percent);
    }
}

/// Nothing of a frame is left out of what is sent: every fragment of every wire slice goes out as
/// a video packet, and every parity shard of a slice that is protected as a parity packet.
pub proof fn nothing_of_a_frame_is_left_out(
    sender: SenderModel,
    frame_id: u32,
    slices: Seq<WireSlice>,
    data: Seq<u8>,
    capture_ts_us: u64,
    n: int,
    s: int,
    i: int,
)
    requires
        0 <= s < n <= slices.len(),
        0 <= slices[s].start <= slices[s].end <= data.len(),
        0 <= i,
    ensures
        ({
            let sent = sender.outbound(frame_id, slices, data, capture_ts_us, n);
            let slice = slices[s];
            let piece = data.subrange(slice.start as int, slice.end as int);
            let count = packets_for(piece.len());
            let shape = sender.shape_of(piece.len() as int);
            &&& i < count ==> sent.contains(
                OutboundModel::Video(
                    video_wire(
                        frame_id,
                        slice.slice_id,
                        i as u16,
                        count as u16,
                        slice.flags,
                        capture_ts_us,
                        fragment(piece, i),
                    ),
                ),
            )
            &&& sender.protects_slice(piece.len() as int) && i < shape.parity_count
                ==> sent.contains(
                OutboundModel::Parity {
                    frame_id,
                    slice_id: slice.slice_id,
                    shape,
                    shard_index: i,
                    capture_ts_us,
                    payload: parity_of(
                        data_shards_of(piece, MAX_VIDEO_PAYLOAD as nat),
                        shape.parity_count as nat,
                    )[i],
                },
            )
        }),
    decreases n,
{
    let sent = sender.outbound(frame_id, slices, data, capture_ts_us, n);
    let earlier = sender.outbound(frame_id, slices, data, capture_ts_us, n - 1);
    let slice = slices[n - 1];
    let piece = data.subrange(slice.start as int, slice.end as int);
    let video = video_packets(frame_id, slice, capture_ts_us, piece);
    let parity = sender.parity_packets(frame_id, slice.slice_id, capture_ts_us, piece);
    assert(sent == earlier + video + parity);
    if s < n - 1 {
        nothing_of_a_frame_is_left_out(
            sender,
            frame_id,
            slices,
            data,
            capture_ts_us,
            n - 1,
            s,
            i,
        );
        assert forall|packet: OutboundModel| earlier.contains(packet) implies #[trigger]
            sent.contains(packet) by {
            let k = choose|k: int| 0 <= k < earlier.len() && earlier[k] == packet;
            assert(sent[k] == packet);
        }
    } else {
        if i < video.len() {
            assert(sent[earlier.len() + i] == video[i]);
        }
        if i < parity.len() {
            assert(sent[earlier.len() + video.len() + i] == parity[i]);
        }
    }
}

} // verus!
