use micspoofing::fuzz::{place_buffer, plan_buffer, Align, Format, Frames, MAX_ALLOC, PADDING};
use micspoofing::logging::{should_log, ANDROID_LOG_DEBUG, ANDROID_LOG_ERROR};
use micspoofing::read_samples::{byte_count, bytes_per_sample};

#[test]
fn formats_have_their_numbers() {
    let formats = [Format::Pcm16, Format::Pcm8, Format::Pcm32, Format::Float, Format::Pcm24, Format::Raw(99)];
    let numbers: Vec<u32> = formats.iter().map(|f| f.val()).collect();
    assert_eq!(numbers, vec![1, 2, 3, 5, 6, 99]);
    let sizes: Vec<usize> = numbers.iter().map(|n| bytes_per_sample(*n)).collect();
    assert_eq!(sizes, vec![2, 1, 4, 4, 3, 2]);
}

#[test]
fn frames_are_counted() {
    assert_eq!(Frames::Zero.count(), 0);
    assert_eq!(Frames::One.count(), 1);
    assert_eq!(Frames::Small(200).count(), 200);
    assert_eq!(Frames::Medium(60_000).count(), 60_000);
    assert_eq!(Frames::OverflowMul.count().checked_mul(2), None);
    assert_eq!(Frames::Overflow24.count().checked_mul(2).unwrap().checked_mul(3), None);
}

#[test]
fn planned_buffers_are_large_enough() {
    assert_eq!(plan_buffer(0, 2, 2), (0, 1));
    assert_eq!(plan_buffer(100, 0, 2), (100, 1));
    assert_eq!(plan_buffer(100, 2, 3), (100, 600));
    assert_eq!(plan_buffer(65_535, 2, 4), (32_768, 262_144));
    assert_eq!(plan_buffer(1, u32::MAX, 4), (0, 1));
    assert_eq!(plan_buffer(usize::MAX, 2, 1), (usize::MAX, 64));
    for frames in [Frames::One, Frames::Small(255), Frames::Medium(65_535), Frames::OverflowMul, Frames::Overflow24] {
        for channels in [0, 1, 2, 3, 7, 65_535, u32::MAX] {
            for format in [1, 2, 3, 5, 6, 0] {
                let (count, size) = plan_buffer(frames.count(), channels, bytes_per_sample(format));
                assert!((1..=MAX_ALLOC).contains(&size));
                if let Some(needed) = byte_count(count, channels, format) {
                    assert!(needed <= size);
                }
            }
        }
    }
}

#[test]
fn buffers_are_placed_as_asked_for() {
    for base in 4096..4112usize {
        for (align, offset) in [(Align::Natural, 0), (Align::Off1, 1), (Align::Off2, 2), (Align::Off3, 3)] {
            assert_eq!(align.offset(), offset);
            let place = place_buffer(base, align);
            assert_eq!(base + place, ((base + 7) & !7) + offset);
            assert!(place < PADDING);
        }
    }
}

#[test]
fn only_errors_are_logged() {
    assert!(should_log(ANDROID_LOG_ERROR, "x"));
    assert!(should_log(ANDROID_LOG_ERROR + 1, ""));
    assert!(!should_log(ANDROID_LOG_DEBUG, "x"));
    assert!(!should_log(ANDROID_LOG_ERROR - 1, "x"));
    assert!(!should_log(ANDROID_LOG_ERROR, "x\0y"));
}
