use contact_sheet::error::SheetError;
use contact_sheet::frame_extractor::{
    decide_duration, sample_target, seek_position, Action, Event, FrameExtractor, MetaEntry, Phase,
    StreamFacts,
};
use contact_sheet::rational::{Order, Rational};

fn facts() -> StreamFacts {
    StreamFacts {
        stream_index: 0,
        time_base: Rational::new(1, 1000),
        duration_ticks: 100_000,
        metadata: Vec::new(),
        container_duration: 0,
        width: 1920,
        height: 1080,
        codec_name: String::from("h264"),
        file_name: String::from("clip.mkv"),
        file_size: 4096,
    }
}

fn entry(key: &str, value: &str) -> MetaEntry {
    MetaEntry { key: String::from(key), value: String::from(value) }
}

#[test]
fn duration_comes_from_the_stream_first() {
    let mut f = facts();
    f.metadata.push(entry("DURATION", "00:00:05.000"));
    f.container_duration = 7_000_000;
    let d = decide_duration(&f).unwrap();
    assert_eq!((d.num, d.den), (100, 1));
}

#[test]
fn duration_comes_from_the_metadata_next() {
    let mut f = facts();
    f.duration_ticks = i64::MIN;
    f.metadata.push(entry("ENCODER", "00:00:09.000"));
    f.metadata.push(entry("duration", "00:00:08.000"));
    f.metadata.push(entry("DURATION", "not a duration"));
    f.metadata.push(entry("DURATIO", "00:00:07.000"));
    f.metadata.push(entry("DURATION-eng", "00:00:05.500"));
    f.metadata.push(entry("DURATION", "00:00:06.000"));
    f.container_duration = 7_000_000;
    let d = decide_duration(&f).unwrap();
    assert_eq!((d.num, d.den), (11, 2));
}

#[test]
fn duration_comes_from_the_container_last() {
    let mut f = facts();
    f.duration_ticks = 0;
    f.metadata.push(entry("DURATION", "soon"));
    f.container_duration = 7_500_000;
    let d = decide_duration(&f).unwrap();
    assert_eq!((d.num, d.den), (15, 2));
}

#[test]
fn duration_that_nothing_knows_is_an_error() {
    let mut f = facts();
    f.stream_index = 3;
    f.duration_ticks = i64::MIN;
    f.container_duration = i64::MIN;
    assert_eq!(
        decide_duration(&f),
        Err(SheetError::UnknownDuration { stream_index: 3 })
    );
    f.duration_ticks = -5;
    f.container_duration = 0;
    assert_eq!(
        decide_duration(&f),
        Err(SheetError::UnknownDuration { stream_index: 3 })
    );
}

#[test]
fn duration_in_ticks_is_approximated_where_it_does_not_fit() {
    let mut f = facts();
    f.time_base = Rational::new(1, 90000);
    f.duration_ticks = 12345678901;
    let d = decide_duration(&f).unwrap();
    assert_eq!((d.num, d.den), (13717421, 100));
    f.duration_ticks = i64::MAX;
    let d = decide_duration(&f).unwrap();
    assert_eq!((d.num, d.den), (i32::MAX, 1));
}

#[test]
fn sample_targets_are_the_middles_of_equal_parts() {
    let d = Rational::new(100, 1);
    let want = [(25, 2), (75, 2), (125, 2), (175, 2)];
    for i in 0..4u32 {
        let t = sample_target(d, i, 4);
        assert_eq!((t.num, t.den), want[i as usize]);
    }
    let d = Rational::new(3600123, 1000);
    let t = sample_target(d, 0, 15);
    assert_eq!((t.num, t.den), (1200041, 10000));
    let t = sample_target(d, 14, 15);
    assert_eq!((t.num, t.den), (34801189, 10000));
}

#[test]
fn sample_targets_increase_and_stay_inside() {
    let d = Rational::new(3600123, 1000);
    let zero = Rational::new(0, 1);
    let n = 15u32;
    let mut last = zero;
    for i in 0..n {
        let t = sample_target(d, i, n);
        assert_eq!(last.compare(t), Order::Less);
        assert_eq!(zero.compare(t), Order::Less);
        assert_eq!(t.compare(d), Order::Less);
        last = t;
    }
}

#[test]
fn sample_target_is_approximated_where_it_does_not_fit() {
    let d = Rational::new(1000003, 2147483629);
    let t = sample_target(d, 0, 2);
    // 1000003 / 8589934516 = 0.000116415669...
    assert_eq!((t.num, t.den), (1819, 15625000));
}

#[test]
fn seek_position_is_in_microseconds() {
    assert_eq!(seek_position(Rational::new(25, 2)), 12_500_000);
    assert_eq!(seek_position(Rational::new(1, 3)), 333_333);
    assert_eq!(seek_position(Rational::new(-1, 3)), -333_333);
    assert_eq!(seek_position(Rational::new(0, 5)), 0);
    assert_eq!(seek_position(Rational::new(i32::MAX, 1)), 2_147_483_647_000_000);
    assert_eq!(seek_position(Rational::new(i32::MIN, 1)), -2_147_483_648_000_000);
}

#[test]
fn new_takes_over_what_is_known() {
    let x = FrameExtractor::new(facts(), 4, 640).unwrap();
    assert_eq!(x.schedule.num_of_frames, 4);
    assert_eq!(x.schedule.input_stream_index, 0);
    assert_eq!((x.schedule.duration_s.num, x.schedule.duration_s.den), (100, 1));
    assert_eq!((x.scaled_width, x.scaled_height), (640, 360));
    assert_eq!(x.progress.phase, Phase::Idle);
    assert_eq!(x.progress.packets_generated, 0);
    assert_eq!(x.extracted_bgr_frame_time.to_string(), "00:00.000");
    assert_eq!(x.info.file_name, "clip.mkv");
    assert_eq!(x.info.file_size, 4096);
    assert_eq!((x.info.video_width, x.info.video_height), (1920, 1080));
    assert_eq!(x.info.video_codec, "h264");
    assert_eq!(x.info.video_duration, Rational::new(100, 1));
}

#[test]
fn new_fails_without_a_duration_or_a_width() {
    let mut f = facts();
    f.duration_ticks = 0;
    f.stream_index = 2;
    assert_eq!(
        FrameExtractor::new(f, 4, 640).unwrap_err(),
        SheetError::UnknownDuration { stream_index: 2 }
    );
    let mut f = facts();
    f.width = 0;
    assert_eq!(
        FrameExtractor::new(f, 4, 640).unwrap_err(),
        SheetError::DecodeOrScaleFailed
    );
}

#[test]
fn convert_pts_multiplies_by_the_time_base() {
    let x = FrameExtractor::new(facts(), 4, 640).unwrap();
    let t = x.convert_pts(12_500);
    assert_eq!((t.num, t.den), (25, 2));
    let t = x.convert_pts(-1);
    assert_eq!((t.num, t.den), (-1, 1000));
    let t = x.convert_pts(i64::MAX);
    assert_eq!((t.num, t.den), (i32::MAX, 1));
    let t = x.convert_pts(i64::MIN);
    assert_eq!((t.num, t.den), (i32::MIN, 1));
}

#[test]
fn one_frame_is_sought_read_and_decoded() {
    let mut x = FrameExtractor::new(facts(), 4, 640).unwrap();
    assert_eq!(
        x.extract_frame_to_internal_buffer(Event::Pull),
        Action::Seek { position: 12_500_000, forward_only: true }
    );
    assert_eq!(x.progress.phase, Phase::Seeking);
    assert_eq!(x.progress.packets_generated, 1);
    assert_eq!(x.extract_frame_to_internal_buffer(Event::SeekDone), Action::ReadPacket);
    assert_eq!(x.progress.phase, Phase::Reading);
    // a packet of another stream is passed over
    assert_eq!(
        x.extract_frame_to_internal_buffer(Event::Packet { stream_index: 1 }),
        Action::ReadPacket
    );
    assert_eq!(x.progress.phase, Phase::Reading);
    assert_eq!(
        x.extract_frame_to_internal_buffer(Event::Packet { stream_index: 0 }),
        Action::Decode
    );
    assert_eq!(x.progress.phase, Phase::Decoding);
    // no frame yet: the next packet is read
    assert_eq!(x.extract_frame_to_internal_buffer(Event::NoFrame), Action::ReadPacket);
    assert_eq!(
        x.extract_frame_to_internal_buffer(Event::Packet { stream_index: 0 }),
        Action::Decode
    );
    assert_eq!(
        x.extract_frame_to_internal_buffer(Event::Frame { pts: Some(12_520), planes: 1 }),
        Action::Yield { time: Rational::new(313, 25) }
    );
    assert_eq!(x.progress.phase, Phase::FrameReady);
    assert_eq!(x.extracted_bgr_frame_time.to_string(), "00:12.520");
    assert_eq!(x.progress.packets_generated, 1);
}

#[test]
fn a_failed_seek_is_tried_again_over_the_whole_file() {
    let mut x = FrameExtractor::new(facts(), 4, 640).unwrap();
    x.extract_frame_to_internal_buffer(Event::Pull);
    assert_eq!(
        x.extract_frame_to_internal_buffer(Event::SeekFailed),
        Action::Seek { position: 12_500_000, forward_only: false }
    );
    assert_eq!(x.progress.phase, Phase::SeekingWide);
    assert_eq!(x.extract_frame_to_internal_buffer(Event::SeekDone), Action::ReadPacket);

    let mut x = FrameExtractor::new(facts(), 4, 640).unwrap();
    x.extract_frame_to_internal_buffer(Event::Pull);
    x.extract_frame_to_internal_buffer(Event::SeekFailed);
    assert_eq!(
        x.extract_frame_to_internal_buffer(Event::SeekFailed),
        Action::Fail { error: SheetError::SeekFailed }
    );
    assert_eq!(x.progress.phase, Phase::Idle);
    // the next sample can still be asked for
    assert_eq!(
        x.extract_frame_to_internal_buffer(Event::Pull),
        Action::Seek { position: 37_500_000, forward_only: true }
    );
}

#[test]
fn a_sample_without_packets_is_passed_over() {
    let mut x = FrameExtractor::new(facts(), 2, 640).unwrap();
    x.extract_frame_to_internal_buffer(Event::Pull);
    x.extract_frame_to_internal_buffer(Event::SeekDone);
    assert_eq!(
        x.extract_frame_to_internal_buffer(Event::EndOfPackets),
        Action::Seek { position: 75_000_000, forward_only: true }
    );
    assert_eq!(x.progress.packets_generated, 2);
    x.extract_frame_to_internal_buffer(Event::SeekDone);
    // after the last sample the decoder is drained
    assert_eq!(x.extract_frame_to_internal_buffer(Event::EndOfPackets), Action::Drain);
    assert_eq!(x.progress.phase, Phase::Draining);
    assert_eq!(x.extract_frame_to_internal_buffer(Event::NoFrame), Action::Finish);
    assert_eq!(x.progress.phase, Phase::Exhausted);
    assert_eq!(x.extract_frame_to_internal_buffer(Event::Pull), Action::Finish);
}

#[test]
fn the_decoder_is_drained_once_after_the_last_sample() {
    let mut x = FrameExtractor::new(facts(), 1, 640).unwrap();
    x.extract_frame_to_internal_buffer(Event::Pull);
    x.extract_frame_to_internal_buffer(Event::SeekDone);
    x.extract_frame_to_internal_buffer(Event::Packet { stream_index: 0 });
    x.extract_frame_to_internal_buffer(Event::Frame { pts: None, planes: 1 });
    assert_eq!(x.extracted_bgr_frame_time.to_string(), "00:00.000");
    assert_eq!(x.extract_frame_to_internal_buffer(Event::Pull), Action::Drain);
    assert_eq!(
        x.extract_frame_to_internal_buffer(Event::Frame { pts: Some(99_000), planes: 1 }),
        Action::Yield { time: Rational::new(99, 1) }
    );
    assert_eq!(x.progress.phase, Phase::Exhausted);
    assert_eq!(x.extract_frame_to_internal_buffer(Event::Pull), Action::Finish);
    assert_eq!(x.extract_frame_to_internal_buffer(Event::Pull), Action::Finish);
}

#[test]
fn no_samples_wanted_means_draining_at_once() {
    let mut x = FrameExtractor::new(facts(), 0, 640).unwrap();
    assert_eq!(x.extract_frame_to_internal_buffer(Event::Pull), Action::Drain);
    assert_eq!(
        x.extract_frame_to_internal_buffer(Event::DecodeFailed),
        Action::Fail { error: SheetError::DecodeOrScaleFailed }
    );
    assert_eq!(x.progress.phase, Phase::Exhausted);
}

#[test]
fn a_failed_decode_ends_the_sample() {
    let mut x = FrameExtractor::new(facts(), 4, 640).unwrap();
    x.extract_frame_to_internal_buffer(Event::Pull);
    x.extract_frame_to_internal_buffer(Event::SeekDone);
    x.extract_frame_to_internal_buffer(Event::Packet { stream_index: 0 });
    assert_eq!(
        x.extract_frame_to_internal_buffer(Event::DecodeFailed),
        Action::Fail { error: SheetError::DecodeOrScaleFailed }
    );
    assert_eq!(x.progress.phase, Phase::Idle);
}

#[test]
fn an_event_out_of_turn_changes_nothing() {
    let mut x = FrameExtractor::new(facts(), 4, 640).unwrap();
    for e in [
        Event::SeekDone,
        Event::SeekFailed,
        Event::Packet { stream_index: 0 },
        Event::EndOfPackets,
        Event::Frame { pts: Some(1), planes: 1 },
        Event::NoFrame,
        Event::DecodeFailed,
    ] {
        assert_eq!(x.extract_frame_to_internal_buffer(e), Action::Rejected);
        assert_eq!(x.progress.phase, Phase::Idle);
        assert_eq!(x.progress.packets_generated, 0);
    }
    x.extract_frame_to_internal_buffer(Event::Pull);
    assert_eq!(x.extract_frame_to_internal_buffer(Event::Pull), Action::Rejected);
    assert_eq!(x.progress.phase, Phase::Seeking);
    assert_eq!(x.progress.packets_generated, 1);
}

#[test]
fn all_samples_are_asked_for_in_turn() {
    let n = 5u32;
    let mut x = FrameExtractor::new(facts(), n, 640).unwrap();
    let mut frames = 0;
    let mut seeks = Vec::new();
    let mut action = x.extract_frame_to_internal_buffer(Event::Pull);
    let mut steps = 0;
    loop {
        steps += 1;
        assert!(steps < 100);
        let event = match action {
            Action::Seek { position, forward_only } => {
                assert!(forward_only);
                seeks.push(position);
                Event::SeekDone
            }
            Action::ReadPacket => Event::Packet { stream_index: 0 },
            Action::Decode => Event::Frame { pts: Some(1000 * frames), planes: 1 },
            Action::Drain => Event::NoFrame,
            Action::Yield { .. } => {
                frames += 1;
                Event::Pull
            }
            Action::Finish => break,
            Action::Fail { .. } | Action::Rejected => panic!("unexpected"),
        };
        action = x.extract_frame_to_internal_buffer(event);
    }
    assert_eq!(frames, 5);
    assert_eq!(seeks, vec![10_000_000, 30_000_000, 50_000_000, 70_000_000, 90_000_000]);
}

#[test]
fn a_frame_of_several_planes_is_refused_and_leaves_the_time() {
    let mut x = FrameExtractor::new(facts(), 2, 640).unwrap();
    x.extract_frame_to_internal_buffer(Event::Pull);
    x.extract_frame_to_internal_buffer(Event::SeekDone);
    x.extract_frame_to_internal_buffer(Event::Packet { stream_index: 0 });
    x.extract_frame_to_internal_buffer(Event::Frame { pts: Some(5_000), planes: 1 });
    assert_eq!(x.extracted_bgr_frame_time.to_string(), "00:05.000");
    x.extract_frame_to_internal_buffer(Event::Pull);
    x.extract_frame_to_internal_buffer(Event::SeekDone);
    x.extract_frame_to_internal_buffer(Event::Packet { stream_index: 0 });
    assert_eq!(
        x.extract_frame_to_internal_buffer(Event::Frame { pts: Some(9_000), planes: 3 }),
        Action::Fail { error: SheetError::UnsupportedPixelLayout }
    );
    assert_eq!(x.extracted_bgr_frame_time.to_string(), "00:05.000");
    assert_eq!(x.progress.frame_time, Rational::new(5, 1));
    assert_eq!(x.progress.phase, Phase::Idle);
    // while draining, too
    assert_eq!(x.extract_frame_to_internal_buffer(Event::Pull), Action::Drain);
    assert_eq!(
        x.extract_frame_to_internal_buffer(Event::Frame { pts: Some(9_500), planes: 0 }),
        Action::Fail { error: SheetError::UnsupportedPixelLayout }
    );
    assert_eq!(x.extracted_bgr_frame_time.to_string(), "00:05.000");
    assert_eq!(x.progress.phase, Phase::Exhausted);
}
