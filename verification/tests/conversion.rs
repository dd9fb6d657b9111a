use window_relay::window_capture::{convert_raw_buffer, FrameAction, Handler, TARGET_FPS};

/// A raw buffer of `height` rows, `pitch_px` whole 4-byte pixels per row:
/// bytes of the first `width` pixels of each row hold `fill`, the pad
/// columns hold `pad`.
fn padded_buffer(width: usize, height: usize, pitch_px: usize, fill: u8, pad: u8) -> Vec<u8> {
    let mut raw = vec![pad; pitch_px * 4 * height];
    for r in 0..height {
        for b in 0..width * 4 {
            raw[r * pitch_px * 4 + b] = fill;
        }
    }
    raw
}

#[test]
fn strips_padding_130_wide() {
    // 130 pixels round up to a 192-pixel pitch (next multiple of 64).
    let raw = padded_buffer(130, 10, 192, 0xAA, 0xFF);
    let frame = convert_raw_buffer(7, 130, 10, &raw).expect("pitch matches");
    assert_eq!(frame.hwnd, 7);
    assert_eq!(frame.width, 130);
    assert_eq!(frame.height, 10);
    assert_eq!(frame.bytes.len(), 130 * 10 * 4);
    assert!(frame.bytes.iter().all(|&b| b == 0xAA));
    assert_eq!(frame.bytes.iter().filter(|&&b| b == 0xFF).count(), 0);
}

#[test]
fn exact_multiple_width_has_no_padding() {
    let raw = padded_buffer(64, 3, 64, 0x10, 0x99);
    let frame = convert_raw_buffer(-3, 64, 3, &raw).expect("pitch matches");
    assert_eq!(frame.bytes.len(), 64 * 3 * 4);
    assert!(frame.bytes.iter().all(|&b| b == 0x10));
}

#[test]
fn rows_are_copied_in_order() {
    // Each row filled with its row number; pads marked 0xEE.
    let width = 2;
    let pitch = 64;
    let height = 4;
    let mut raw = vec![0xEE; pitch * 4 * height];
    for r in 0..height {
        for b in 0..width * 4 {
            raw[r * pitch * 4 + b] = r as u8;
        }
    }
    let frame = convert_raw_buffer(0, width as u32, height as u32, &raw).unwrap();
    assert_eq!(frame.bytes.len(), width * height * 4);
    for r in 0..height {
        for b in 0..width * 4 {
            assert_eq!(frame.bytes[r * width * 4 + b], r as u8);
        }
    }
}

#[test]
fn wrong_pitch_is_rejected() {
    // 130 pixels wide but only 130 pixels of pitch: not rounded to 64.
    let raw = padded_buffer(130, 10, 130, 0xAA, 0xFF);
    assert!(convert_raw_buffer(7, 130, 10, &raw).is_none());
}

#[test]
fn truncated_buffer_is_rejected() {
    let mut raw = padded_buffer(130, 10, 192, 0xAA, 0xFF);
    raw.truncate(raw.len() - 192 * 4);
    assert!(convert_raw_buffer(7, 130, 10, &raw).is_none());
}

#[test]
fn delivery_before_schedule_is_skipped() {
    let mut h = Handler::new(5, TARGET_FPS, 1_000);
    let raw = padded_buffer(64, 2, 64, 1, 2);
    match h.on_frame_arrived(999, 64, 2, &raw) {
        FrameAction::Skip => {}
        _ => panic!("expected a rate-limited skip"),
    }
    assert_eq!(h.next_update, 1_000);
}

#[test]
fn delivery_on_schedule_emits_and_reschedules() {
    let mut h = Handler::new(5, TARGET_FPS, 1_000);
    let raw = padded_buffer(64, 2, 64, 1, 2);
    match h.on_frame_arrived(1_000, 64, 2, &raw) {
        FrameAction::Emit(f) => {
            assert_eq!(f.hwnd, 5);
            assert_eq!(f.bytes.len(), 64 * 2 * 4);
        }
        _ => panic!("expected an emission"),
    }
    // 60 fps gives a 16 ms period; 1_000 lies before 1_000 + 16.
    assert_eq!(h.next_update, 1_016);
}

#[test]
fn delayed_delivery_reschedules_from_now() {
    let mut h = Handler::new(5, TARGET_FPS, 1_000);
    let raw = padded_buffer(64, 2, 64, 1, 2);
    match h.on_frame_arrived(2_000, 64, 2, &raw) {
        FrameAction::Emit(_) => {}
        _ => panic!("expected an emission"),
    }
    // 2_000 passed 1_016 long ago: schedule relative to now, not stacked.
    assert_eq!(h.next_update, 2_016);
}

#[test]
fn sustained_stream_spaces_emissions_by_a_period() {
    let mut h = Handler::new(5, TARGET_FPS, 0);
    let raw = padded_buffer(64, 2, 64, 1, 2);
    let mut emitted: Vec<u64> = Vec::new();
    for now in 0..200u64 {
        match h.on_frame_arrived(now, 64, 2, &raw) {
            FrameAction::Emit(_) => emitted.push(now),
            FrameAction::Skip => {}
            FrameAction::StrideMismatch => panic!("pitch matches"),
        }
    }
    assert!(emitted.len() > 2);
    for pair in emitted.windows(2) {
        assert!(pair[1] - pair[0] >= 1000 / TARGET_FPS);
    }
}

#[test]
fn bad_pitch_is_fatal_not_emitted() {
    let mut h = Handler::new(5, TARGET_FPS, 0);
    let raw = padded_buffer(130, 10, 130, 0xAA, 0xFF);
    match h.on_frame_arrived(50, 130, 10, &raw) {
        FrameAction::StrideMismatch => {}
        _ => panic!("expected the platform-contract violation"),
    }
    assert_eq!(h.next_update, 0);
}
