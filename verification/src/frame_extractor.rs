//! How long a video lasts, at which times it is sampled, and the steps by
//! which one frame after the other is obtained from a demuxer and decoder.

use crate::chars::chars_of;
use crate::error::SheetError;
use crate::info::Info;
use crate::rational::{exact_or_nearest, representable, Rational};
use crate::utils::{duration_of, matches_duration, parse_duration, VideoDuration};
use vstd::prelude::*;

verus! {

/// Ticks of the container's clock in one second.
pub const TIME_UNITS_PER_SECOND: i64 = 1_000_000;

/// One pair of a stream's metadata.
#[derive(Debug)]
pub struct MetaEntry {
    pub key: String,
    pub value: String,
}

/// What the container tells of the chosen video stream and of the file.
#[derive(Debug)]
pub struct StreamFacts {
    /// Index of the stream in the container.
    pub stream_index: usize,
    /// Seconds in one tick of the stream's clock.
    pub time_base: Rational,
    /// Length of the stream in ticks; not positive where it is unknown.
    pub duration_ticks: i64,
    /// The stream's metadata, in the container's order.
    pub metadata: Vec<MetaEntry>,
    /// Length of the whole container in its own ticks; not positive where
    /// it is unknown.
    pub container_duration: i64,
    /// Width of the video's frames.
    pub width: u32,
    /// Height of the video's frames.
    pub height: u32,
    /// Name of the codec.
    pub codec_name: String,
    /// Name of the file, without its directory.
    pub file_name: String,
    /// Size of the file in bytes.
    pub file_size: usize,
}

/// The word that a metadata key begins with where its value is a
/// duration.
pub open spec fn duration_key_prefix() -> Seq<char> {
    seq!['D', 'U', 'R', 'A', 'T', 'I', 'O', 'N']
}

/// Whether a metadata key announces a duration.
pub open spec fn is_duration_key(key: Seq<char>) -> bool {
    key.len() >= 8 && key.subrange(0, 8) == duration_key_prefix()
}

/// The duration that a metadata value stands for, where it is one.
pub open spec fn parsed_duration(value: Seq<char>) -> Option<Rational> {
    if matches_duration(value) {
        Some(duration_of(value))
    } else {
        None
    }
}

/// The first duration in the metadata from entry `from` on: the value of
/// the first entry whose key announces a duration and whose value is one.
pub open spec fn metadata_duration(meta: Seq<MetaEntry>, from: int) -> Option<Rational>
    decreases meta.len() - from,
{
    if from < 0 || from >= meta.len() {
        None
    } else if is_duration_key(meta[from].key@) && parsed_duration(meta[from].value@) is Some {
        parsed_duration(meta[from].value@)
    } else {
        metadata_duration(meta, from + 1)
    }
}

/// The duration of the stream in seconds, from the first source that
/// knows it: the stream's own length in ticks, then its metadata, then the
/// container's length.
pub open spec fn resolved_duration(facts: &StreamFacts) -> Option<Rational> {
    if facts.duration_ticks > 0 {
        Some(exact_or_nearest(facts.duration_ticks * facts.time_base.num, facts.time_base.den as int))
    } else if metadata_duration(facts.metadata@, 0) is Some {
        metadata_duration(facts.metadata@, 0)
    } else if facts.container_duration > 0 {
        Some(exact_or_nearest(facts.container_duration as int, TIME_UNITS_PER_SECOND as int))
    } else {
        None
    }
}

/// Product of a tick count and a time base; approximated where the exact
/// product does not fit.
fn ticks_to_seconds(ticks: i64, time_base: Rational) -> (r: Rational)
    requires
        time_base.wf(),
    ensures
        r == exact_or_nearest(ticks * time_base.num, time_base.den as int),
        r.wf(),
{
    let x: i128 = ticks as i128;
    let n: i128 = time_base.num as i128;
    assert(-0x4000_0000_0000_0000_0000_0000 <= x * n <= 0x4000_0000_0000_0000_0000_0000)
        by (nonlinear_arith)
        requires
            -0x8000_0000_0000_0000 <= x <= 0x7fff_ffff_ffff_ffff,
            -0x8000_0000 <= n <= 0x7fff_ffff,
    ;
    Rational::exact_or_approximate(x * n, time_base.den as i128)
}

fn has_duration_key(key: &str) -> (b: bool)
    ensures
        b == is_duration_key(key@),
{
    let v = chars_of(key);
    if v.len() < 8 {
        return false;
    }
    let b = v[0] == 'D' && v[1] == 'U' && v[2] == 'R' && v[3] == 'A' && v[4] == 'T' && v[5] == 'I'
        && v[6] == 'O' && v[7] == 'N';
    proof {
        let head = v@.subrange(0, 8);
        if b {
            assert(head =~= duration_key_prefix());
        } else {
            assert(head[0] == v@[0] && head[1] == v@[1] && head[2] == v@[2] && head[3] == v@[3]
                && head[4] == v@[4] && head[5] == v@[5] && head[6] == v@[6] && head[7] == v@[7]);
        }
    }
    b
}

/// Finds out how long the stream lasts, in seconds. The sources are asked
/// in turn: the stream's length in ticks where it is positive; the first
/// metadata entry whose key begins with `DURATION` and whose value reads as
/// a duration; the container's length where it is positive.
pub fn decide_duration(facts: &StreamFacts) -> (res: Result<Rational, SheetError>)
    requires
        facts.time_base.wf(),
    ensures
        resolved_duration(facts) is Some ==> res == Ok::<Rational, SheetError>(
            resolved_duration(facts)->Some_0,
        ),
        resolved_duration(facts) is None ==> res == Err::<Rational, SheetError>(
            SheetError::UnknownDuration { stream_index: facts.stream_index },
        ),
        res is Ok ==> res->Ok_0.wf(),
{
    if facts.duration_ticks > 0 {
        return Ok(ticks_to_seconds(facts.duration_ticks, facts.time_base));
    }
    let mut i: usize = 0;
    while i < facts.metadata.len()
        invariant
            i <= facts.metadata@.len(),
            facts.duration_ticks <= 0,
            metadata_duration(facts.metadata@, 0) == metadata_duration(facts.metadata@, i as int),
        decreases facts.metadata@.len() - i,
    {
        if has_duration_key(facts.metadata[i].key.as_str()) {
            match parse_duration(facts.metadata[i].value.as_str()) {
                Ok(d) => {
                    return Ok(d);
                },
                Err(_) => {},
            }
        }
        i += 1;
    }
    if facts.container_duration > 0 {
        return Ok(
            Rational::exact_or_approximate(
                facts.container_duration as i128,
                TIME_UNITS_PER_SECOND as i128,
            ),
        );
    }
    Err(SheetError::UnknownDuration { stream_index: facts.stream_index })
}

/// Numerator of the time of sample `i`: the duration's numerator times
/// `2i + 1`.
pub open spec fn target_num(duration: Rational, i: int) -> int {
    duration.num * (2 * i + 1)
}

/// Denominator of the time of a sample out of `n`: the duration's
/// denominator times `2n`.
pub open spec fn target_den(duration: Rational, n: int) -> int {
    duration.den * (2 * n)
}

/// The time of sample `i` out of `n`: the middle of the `i`-th of `n`
/// equal parts of the duration.
pub open spec fn spec_sample_target(duration: Rational, i: int, n: int) -> Rational {
    exact_or_nearest(target_num(duration, i), target_den(duration, n))
}

/// The place to seek to for the time `t`, in the container's ticks: `t`
/// times the ticks in a second, cut off toward zero.
pub open spec fn spec_seek_position(t: Rational) -> int {
    if t.num >= 0 {
        t.num * TIME_UNITS_PER_SECOND / (t.den as int)
    } else {
        -((-t.num) * TIME_UNITS_PER_SECOND / (t.den as int))
    }
}

/// Later samples have later times.
pub proof fn law_targets_increase(duration: Rational, n: int, i: int, j: int)
    requires
        duration.wf(),
        duration.num > 0,
        0 <= i < j < n,
    ensures
        target_den(duration, n) > 0,
        target_num(duration, i) * target_den(duration, n) < target_num(duration, j) * target_den(
            duration,
            n,
        ),
{
    let d = target_den(duration, n);
    assert(d > 0) by (nonlinear_arith)
        requires
            d == duration.den * (2 * n),
            duration.den > 0,
            n > 0,
    ;
    assert(target_num(duration, i) < target_num(duration, j)) by (nonlinear_arith)
        requires
            duration.num > 0,
            i < j,
            target_num(duration, i) == duration.num * (2 * i + 1),
            target_num(duration, j) == duration.num * (2 * j + 1),
    ;
    assert(target_num(duration, i) * d < target_num(duration, j) * d) by (nonlinear_arith)
        requires
            target_num(duration, i) < target_num(duration, j),
            d > 0,
    ;
}

/// Every sample's time lies strictly between zero and the duration.
pub proof fn law_targets_inside(duration: Rational, n: int, i: int)
    requires
        duration.wf(),
        duration.num > 0,
        0 <= i < n,
    ensures
        target_den(duration, n) > 0,
        0 < target_num(duration, i),
        target_num(duration, i) * duration.den < duration.num * target_den(duration, n),
{
    let d = target_den(duration, n);
    assert(d > 0) by (nonlinear_arith)
        requires
            d == duration.den * (2 * n),
            duration.den > 0,
            n > 0,
    ;
    assert(0 < duration.num * (2 * i + 1)) by (nonlinear_arith)
        requires
            duration.num > 0,
            i >= 0,
    ;
    assert(duration.num * (2 * i + 1) * duration.den < duration.num * (duration.den * (2 * n)))
        by (nonlinear_arith)
        requires
            duration.num > 0,
            duration.den > 0,
            0 <= i < n,
    ;
}

/// The time of sample `i` out of `n` over `duration`; approximated where
/// the exact time does not fit.
pub fn sample_target(duration: Rational, i: u32, n: u32) -> (t: Rational)
    requires
        duration.wf(),
        i < n,
    ensures
        t == spec_sample_target(duration, i as int, n as int),
        representable(target_num(duration, i as int), target_den(duration, n as int))
            ==> t.is_reduced() && t.denotes(
            target_num(duration, i as int),
            target_den(duration, n as int),
        ),
        t.wf(),
{
    let a: i128 = duration.num as i128;
    let b: i128 = duration.den as i128;
    let k: i128 = 2 * (i as i128) + 1;
    let m: i128 = 2 * (n as i128);
    assert(-0x8000_0000 * 0x2_0000_0000 <= a * k <= 0x8000_0000 * 0x2_0000_0000 && 0 < b * m
        <= 0x8000_0000 * 0x2_0000_0000) by (nonlinear_arith)
        requires
            -0x8000_0000 <= a <= 0x7fff_ffff,
            0 < b <= 0x7fff_ffff,
            0 < k <= 0x2_0000_0000,
            0 < m <= 0x2_0000_0000,
    ;
    match Rational::from_ratio(a * k, b * m) {
        Ok(t) => t,
        Err(_) => Rational::approximate(a * k, b * m),
    }
}

/// The place to seek to for the time `t`, in the container's ticks.
pub fn seek_position(t: Rational) -> (p: i64)
    requires
        t.wf(),
    ensures
        p == spec_seek_position(t),
{
    let d: i64 = t.den as i64;
    if t.num >= 0 {
        let n: i64 = t.num as i64 * TIME_UNITS_PER_SECOND;
        assert(n / d <= n) by (nonlinear_arith)
            requires
                n >= 0,
                d > 0,
        ;
        n / d
    } else {
        let n: i64 = (0 - t.num as i64) * TIME_UNITS_PER_SECOND;
        assert(0 <= n / d <= n) by (nonlinear_arith)
            requires
                n >= 0,
                d > 0,
        ;
        0 - n / d
    }
}

/// Where the extractor stands between two steps.
#[derive(Clone, Copy, Debug, PartialEq, Eq, Structural)]
pub enum Phase {
    /// Nothing is under way; the next frame may be asked for.
    Idle,
    /// A seek forward from the sample's time was asked for.
    Seeking,
    /// The first seek failed; a seek over the whole file was asked for.
    SeekingWide,
    /// A packet was asked for.
    Reading,
    /// A packet of the video stream was handed to the decoder.
    Decoding,
    /// A frame was handed out; the next one may be asked for.
    FrameReady,
    /// All samples were asked for; the decoder was told to give up what it
    /// still holds.
    Draining,
    /// Nothing more will come.
    Exhausted,
}

/// What happened outside since the last step.
#[derive(Clone, Copy, Debug, PartialEq, Eq, Structural)]
pub enum Event {
    /// The caller wants the next frame.
    Pull,
    /// The seek succeeded.
    SeekDone,
    /// The seek failed.
    SeekFailed,
    /// A packet was read; it belongs to the stream with this index.
    Packet { stream_index: usize },
    /// There is no further packet.
    EndOfPackets,
    /// The decoder gave a frame, with this presentation time in ticks if
    /// it has one, and the frame was scaled; the scaled frame has this many
    /// image planes.
    Frame { pts: Option<i64>, planes: usize },
    /// The decoder has no frame yet.
    NoFrame,
    /// The decoder refused the packet, or the scaler the frame.
    DecodeFailed,
}

/// What is to be done outside before the next step.
#[derive(Clone, Copy, Debug, PartialEq, Eq)]
pub enum Action {
    /// Seek to `position`; accept only places at or behind it where
    /// `forward_only` is set, any place where it is not. Answer with
    /// `SeekDone` or `SeekFailed`.
    Seek { position: i64, forward_only: bool },
    /// Read the next packet. Answer with `Packet` or `EndOfPackets`.
    ReadPacket,
    /// Hand the packet to the decoder, ask it for a frame and scale that.
    /// Answer with `Frame`, `NoFrame` or `DecodeFailed`.
    Decode,
    /// Tell the decoder that the stream has ended, ask it for a frame and
    /// scale that. Answer with `Frame`, `NoFrame` or `DecodeFailed`.
    Drain,
    /// A frame is ready; it shows the video at `time`.
    Yield { time: Rational },
    /// There are no more frames.
    Finish,
    /// The work on this frame has failed.
    Fail { error: SheetError },
    /// The event does not answer what was asked for; nothing has changed.
    Rejected,
}

/// What stays the same while frames are extracted.
#[derive(Clone, Copy, Debug)]
pub struct Schedule {
    /// Seconds in one tick of the stream's clock.
    pub time_base: Rational,
    /// Length of the stream in seconds.
    pub duration_s: Rational,
    /// Index of the video stream in the container.
    pub input_stream_index: usize,
    /// How many samples are wanted.
    pub num_of_frames: u32,
}

/// What changes from step to step.
#[derive(Clone, Copy, Debug)]
pub struct Progress {
    pub phase: Phase,
    /// How many samples were asked for so far.
    pub packets_generated: u32,
    /// Where the seek under way goes.
    pub position: i64,
    /// The time of the frame handed out last.
    pub frame_time: Rational,
}

impl Schedule {
    /// Time base and duration are well-formed fractions.
    pub open spec fn wf(self) -> bool {
        self.time_base.wf() && self.duration_s.wf()
    }

    /// The time in seconds of a frame with the presentation time `pts`.
    pub open spec fn frame_time(self, pts: Option<i64>) -> Rational {
        let ticks = match pts {
            Some(t) => t,
            None => 0i64,
        };
        exact_or_nearest(ticks * self.time_base.num, self.time_base.den as int)
    }

    /// The step that turns to the next sample: a seek to its time while
    /// samples are left, and the draining of the decoder after the last.
    pub open spec fn begin(self, p: Progress) -> (Progress, Action) {
        if p.packets_generated < self.num_of_frames {
            let position = spec_seek_position(
                spec_sample_target(
                    self.duration_s,
                    p.packets_generated as int,
                    self.num_of_frames as int,
                ),
            ) as i64;
            (
                Progress {
                    phase: Phase::Seeking,
                    packets_generated: (p.packets_generated + 1) as u32,
                    position,
                    frame_time: p.frame_time,
                },
                Action::Seek { position, forward_only: true },
            )
        } else {
            (Progress { phase: Phase::Draining, ..p }, Action::Drain)
        }
    }

    /// The step that the event `e` brings about in the state `p`: the state
    /// that follows, and what is to be done next.
    pub open spec fn step(self, p: Progress, e: Event) -> (Progress, Action) {
        match (p.phase, e) {
            (Phase::Idle, Event::Pull) => self.begin(p),
            (Phase::FrameReady, Event::Pull) => self.begin(p),
            (Phase::Exhausted, Event::Pull) => (p, Action::Finish),
            (Phase::Seeking, Event::SeekDone) => (
                Progress { phase: Phase::Reading, ..p },
                Action::ReadPacket,
            ),
            (Phase::SeekingWide, Event::SeekDone) => (
                Progress { phase: Phase::Reading, ..p },
                Action::ReadPacket,
            ),
            (Phase::Seeking, Event::SeekFailed) => (
                Progress { phase: Phase::SeekingWide, ..p },
                Action::Seek { position: p.position, forward_only: false },
            ),
            (Phase::SeekingWide, Event::SeekFailed) => (
                Progress { phase: Phase::Idle, ..p },
                Action::Fail { error: SheetError::SeekFailed },
            ),
            (Phase::Reading, Event::Packet { stream_index }) => if stream_index
                == self.input_stream_index {
                (Progress { phase: Phase::Decoding, ..p }, Action::Decode)
            } else {
                (p, Action::ReadPacket)
            },
            (Phase::Reading, Event::EndOfPackets) => self.begin(p),
            (Phase::Decoding, Event::Frame { pts, planes }) => if planes == 1 {
                (
                    Progress { phase: Phase::FrameReady, frame_time: self.frame_time(pts), ..p },
                    Action::Yield { time: self.frame_time(pts) },
                )
            } else {
                (
                    Progress { phase: Phase::Idle, ..p },
                    Action::Fail { error: SheetError::UnsupportedPixelLayout },
                )
            },
            (Phase::Decoding, Event::NoFrame) => (
                Progress { phase: Phase::Reading, ..p },
                Action::ReadPacket,
            ),
            (Phase::Decoding, Event::DecodeFailed) => (
                Progress { phase: Phase::Idle, ..p },
                Action::Fail { error: SheetError::DecodeOrScaleFailed },
            ),
            (Phase::Draining, Event::Frame { pts, planes }) => if planes == 1 {
                (
                    Progress { phase: Phase::Exhausted, frame_time: self.frame_time(pts), ..p },
                    Action::Yield { time: self.frame_time(pts) },
                )
            } else {
                (
                    Progress { phase: Phase::Exhausted, ..p },
                    Action::Fail { error: SheetError::UnsupportedPixelLayout },
                )
            },
            (Phase::Draining, Event::NoFrame) => (
                Progress { phase: Phase::Exhausted, ..p },
                Action::Finish,
            ),
            (Phase::Draining, Event::DecodeFailed) => (
                Progress { phase: Phase::Exhausted, ..p },
                Action::Fail { error: SheetError::DecodeOrScaleFailed },
            ),
            _ => (p, Action::Rejected),
        }
    }
}

/// A step never takes back a sample that was asked for and never asks for
/// more samples than are wanted; the count grows, by one, exactly with a
/// seek forward to a new sample's time.
pub proof fn law_step_counts_samples(s: Schedule, p: Progress, e: Event)
    requires
        p.packets_generated <= s.num_of_frames,
    ensures
        ({
            let (q, a) = s.step(p, e);
            &&& p.packets_generated <= q.packets_generated <= s.num_of_frames
            &&& q.packets_generated <= p.packets_generated + 1
            &&& q.packets_generated == p.packets_generated + 1 <==> (a matches Action::Seek {
                forward_only: true,
                ..
            })
        }),
{
}

/// Once the decoder is drained nothing changes any more: every event
/// leaves the state as it is, and a pull is answered with `Finish`.
pub proof fn law_exhausted_is_final(s: Schedule, p: Progress, e: Event)
    requires
        p.phase == Phase::Exhausted,
    ensures
        s.step(p, e).0 == p,
        e == Event::Pull ==> s.step(p, e).1 == Action::Finish,
        e != Event::Pull ==> s.step(p, e).1 == Action::Rejected,
{
}

/// The decoder is drained only when every sample was asked for, and once
/// it is being drained no sample is asked for again.
pub proof fn law_drain_comes_last(s: Schedule, p: Progress, e: Event)
    requires
        p.packets_generated <= s.num_of_frames,
    ensures
        s.step(p, e).1 == Action::Drain ==> p.packets_generated == s.num_of_frames,
        p.phase == Phase::Draining ==> s.step(p, e).0.phase == Phase::Draining || s.step(p, e).0.phase
            == Phase::Exhausted,
{
}

/// The time of the frame handed out last changes only when a frame is
/// handed out: every step that does not answer `Yield` leaves it as it was,
/// among them the step that refuses a frame of more than one plane.
pub proof fn law_frame_time_changes_with_a_frame_only(s: Schedule, p: Progress, e: Event)
    ensures
        !(s.step(p, e).1 matches Action::Yield { .. }) ==> s.step(p, e).0.frame_time
            == p.frame_time,
        (e matches Event::Frame { planes, .. } && planes != 1) && (p.phase == Phase::Decoding
            || p.phase == Phase::Draining) ==> s.step(p, e).1 == (Action::Fail {
            error: SheetError::UnsupportedPixelLayout,
        }),
{
}

/// Samples a video at evenly spaced times, one frame at a time. The
/// extractor decides; its caller seeks, reads and decodes as told and
/// reports what came of it.
#[derive(Debug)]
pub struct FrameExtractor {
    pub schedule: Schedule,
    pub progress: Progress,
    /// Width to which frames are scaled.
    pub scaled_width: u32,
    /// Height to which frames are scaled, in proportion.
    pub scaled_height: u64,
    /// The time of the frame handed out last.
    pub extracted_bgr_frame_time: VideoDuration,
    /// What is known of the input.
    pub info: Info,
}

/// Height of a frame scaled to the width `scaled_width` in proportion.
pub open spec fn scaled_height_of(width: u32, height: u32, scaled_width: u32) -> int {
    height * scaled_width / (width as int)
}

impl FrameExtractor {
    /// The schedule is well formed, no more samples were asked for than
    /// are wanted, and the time of the last frame is kept in both places.
    pub open spec fn wf(&self) -> bool {
        &&& self.schedule.wf()
        &&& self.progress.packets_generated <= self.schedule.num_of_frames
        &&& self.progress.frame_time.wf()
        &&& self.extracted_bgr_frame_time.0 == self.progress.frame_time
        &&& self.info.video_duration.wf()
    }

    /// Sets up the sampling of `num_of_frames` frames, scaled to the width
    /// `scaled_frame_size`, from a stream of which `facts` is known.
    pub fn new(facts: StreamFacts, num_of_frames: u32, scaled_frame_size: u32) -> (res: Result<
        FrameExtractor,
        SheetError,
    >)
        requires
            facts.time_base.wf(),
        ensures
            resolved_duration(&facts) is None ==> res == Err::<FrameExtractor, SheetError>(
                SheetError::UnknownDuration { stream_index: facts.stream_index },
            ),
            resolved_duration(&facts) is Some && facts.width == 0 ==> res == Err::<
                FrameExtractor,
                SheetError,
            >(SheetError::DecodeOrScaleFailed),
            resolved_duration(&facts) is Some && facts.width > 0 ==> res is Ok,
            res is Ok ==> {
                let x = res->Ok_0;
                &&& x.wf()
                &&& x.schedule.time_base == facts.time_base
                &&& x.schedule.duration_s == resolved_duration(&facts)->Some_0
                &&& x.schedule.input_stream_index == facts.stream_index
                &&& x.schedule.num_of_frames == num_of_frames
                &&& x.progress.phase == Phase::Idle
                &&& x.progress.packets_generated == 0
                &&& x.progress.position == 0
                &&& x.progress.frame_time == (Rational { num: 0, den: 1 })
                &&& x.scaled_width == scaled_frame_size
                &&& x.scaled_height == scaled_height_of(facts.width, facts.height, scaled_frame_size)
                &&& x.info.file_name@ == facts.file_name@
                &&& x.info.file_size == facts.file_size
                &&& x.info.video_width == facts.width
                &&& x.info.video_height == facts.height
                &&& x.info.video_duration == x.schedule.duration_s
                &&& x.info.video_codec@ == facts.codec_name@
            },
    {
        let duration_s = match decide_duration(&facts) {
            Ok(d) => d,
            Err(e) => {
                return Err(e);
            },
        };
        if facts.width == 0 {
            return Err(SheetError::DecodeOrScaleFailed);
        }
        assert(facts.height * scaled_frame_size <= 0xffff_ffff * 0xffff_ffff) by (nonlinear_arith)
            requires
                facts.height <= 0xffff_ffff,
                scaled_frame_size <= 0xffff_ffff,
        ;
        let scaled_height: u64 = facts.height as u64 * scaled_frame_size as u64 / facts.width as u64;
        let zero = Rational { num: 0, den: 1 };
        let info = Info {
            file_name: facts.file_name,
            file_size: facts.file_size,
            video_width: facts.width,
            video_height: facts.height,
            video_duration: duration_s,
            video_codec: facts.codec_name,
        };
        Ok(
            FrameExtractor {
                schedule: Schedule {
                    time_base: facts.time_base,
                    duration_s,
                    input_stream_index: facts.stream_index,
                    num_of_frames,
                },
                progress: Progress {
                    phase: Phase::Idle,
                    packets_generated: 0,
                    position: 0,
                    frame_time: zero,
                },
                scaled_width: scaled_frame_size,
                scaled_height,
                extracted_bgr_frame_time: VideoDuration(zero),
                info,
            },
        )
    }

    /// The time in seconds of the presentation time `pts`, given in ticks
    /// of the stream's clock; approximated where the exact product does not
    /// fit.
    pub fn convert_pts(&self, pts: i64) -> (t: Rational)
        requires
            self.schedule.time_base.wf(),
        ensures
            t == exact_or_nearest(pts * self.schedule.time_base.num, self.schedule.time_base.den as int),
            t.wf(),
    {
        ticks_to_seconds(pts, self.schedule.time_base)
    }

    fn begin(&mut self) -> (action: Action)
        requires
            old(self).wf(),
        ensures
            final(self).wf(),
            (final(self).progress, action) == old(self).schedule.begin(old(self).progress),
            final(self).schedule == old(self).schedule,
            final(self).scaled_width == old(self).scaled_width,
            final(self).scaled_height == old(self).scaled_height,
            final(self).info == old(self).info,
    {
        if self.progress.packets_generated < self.schedule.num_of_frames {
            let t = sample_target(
                self.schedule.duration_s,
                self.progress.packets_generated,
                self.schedule.num_of_frames,
            );
            let position = seek_position(t);
            self.progress.phase = Phase::Seeking;
            self.progress.packets_generated = self.progress.packets_generated + 1;
            self.progress.position = position;
            Action::Seek { position, forward_only: true }
        } else {
            self.progress.phase = Phase::Draining;
            Action::Drain
        }
    }

    fn accept_frame(&mut self, pts: Option<i64>, next: Phase) -> (action: Action)
        requires
            old(self).wf(),
        ensures
            final(self).wf(),
            final(self).progress == (Progress {
                phase: next,
                frame_time: old(self).schedule.frame_time(pts),
                ..old(self).progress
            }),
            action == (Action::Yield { time: old(self).schedule.frame_time(pts) }),
            final(self).schedule == old(self).schedule,
            final(self).scaled_width == old(self).scaled_width,
            final(self).scaled_height == old(self).scaled_height,
            final(self).info == old(self).info,
    {
        let ticks: i64 = match pts {
            Some(t) => t,
            None => 0,
        };
        let time = self.convert_pts(ticks);
        self.progress.phase = next;
        self.progress.frame_time = time;
        self.extracted_bgr_frame_time = VideoDuration(time);
        Action::Yield { time }
    }

    /// Takes one step toward the next frame: takes note of what happened
    /// outside and says what is to be done next. A caller begins with
    /// `Pull`, does what each answer asks for and reports the outcome, until
    /// the answer is `Yield` (a frame is ready), `Finish` (there are no more
    /// frames) or `Fail`.
    pub fn extract_frame_to_internal_buffer(&mut self, event: Event) -> (action: Action)
        requires
            old(self).wf(),
        ensures
            final(self).wf(),
            (final(self).progress, action) == old(self).schedule.step(old(self).progress, event),
            final(self).schedule == old(self).schedule,
            final(self).scaled_width == old(self).scaled_width,
            final(self).scaled_height == old(self).scaled_height,
            final(self).info == old(self).info,
    {
        match (self.progress.phase, event) {
            (Phase::Idle, Event::Pull) => self.begin(),
            (Phase::FrameReady, Event::Pull) => self.begin(),
            (Phase::Exhausted, Event::Pull) => Action::Finish,
            (Phase::Seeking, Event::SeekDone) => {
                self.progress.phase = Phase::Reading;
                Action::ReadPacket
            },
            (Phase::SeekingWide, Event::SeekDone) => {
                self.progress.phase = Phase::Reading;
                Action::ReadPacket
            },
            (Phase::Seeking, Event::SeekFailed) => {
                self.progress.phase = Phase::SeekingWide;
                Action::Seek { position: self.progress.position, forward_only: false }
            },
            (Phase::SeekingWide, Event::SeekFailed) => {
                self.progress.phase = Phase::Idle;
                Action::Fail { error: SheetError::SeekFailed }
            },
            (Phase::Reading, Event::Packet { stream_index }) => {
                if stream_index == self.schedule.input_stream_index {
                    self.progress.phase = Phase::Decoding;
                    Action::Decode
                } else {
                    Action::ReadPacket
                }
            },
            (Phase::Reading, Event::EndOfPackets) => self.begin(),
            (Phase::Decoding, Event::Frame { pts, planes }) => {
                if planes == 1 {
                    self.accept_frame(pts, Phase::FrameReady)
                } else {
                    self.progress.phase = Phase::Idle;
                    Action::Fail { error: SheetError::UnsupportedPixelLayout }
                }
            },
            (Phase::Decoding, Event::NoFrame) => {
                self.progress.phase = Phase::Reading;
                Action::ReadPacket
            },
            (Phase::Decoding, Event::DecodeFailed) => {
                self.progress.phase = Phase::Idle;
                Action::Fail { error: SheetError::DecodeOrScaleFailed }
            },
            (Phase::Draining, Event::Frame { pts, planes }) => {
                if planes == 1 {
                    self.accept_frame(pts, Phase::Exhausted)
                } else {
                    self.progress.phase = Phase::Exhausted;
                    Action::Fail { error: SheetError::UnsupportedPixelLayout }
                }
            },
            (Phase::Draining, Event::NoFrame) => {
                self.progress.phase = Phase::Exhausted;
                Action::Finish
            },
            (Phase::Draining, Event::DecodeFailed) => {
                self.progress.phase = Phase::Exhausted;
                Action::Fail { error: SheetError::DecodeOrScaleFailed }
            },
            _ => Action::Rejected,
        }
    }
}

} // verus!
