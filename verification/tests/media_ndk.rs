use micspoofing::error::{BufferInfo, MediaError};
use micspoofing::media_ndk::{validate_output_buffer_bounds, validate_output_buffer_range};

#[test]
fn validate_output_buffer_bounds_accepts_in_range_slice() {
    let info = BufferInfo { offset: 4, size: 8, flags: 0 };

    assert_eq!(validate_output_buffer_bounds(&info, 16).unwrap(), (4, 8));
}

#[test]
fn validate_output_buffer_bounds_rejects_negative_values() {
    let info = BufferInfo { offset: -1, size: 8, flags: 0 };

    assert!(validate_output_buffer_bounds(&info, 16).is_err());
}

#[test]
fn validate_output_buffer_bounds_rejects_out_of_range_slice() {
    let info = BufferInfo { offset: 12, size: 8, flags: 0 };

    assert!(validate_output_buffer_bounds(&info, 16).is_err());
}

#[test]
fn validate_output_buffer_range_rejects_overflow() {
    assert!(validate_output_buffer_range(usize::MAX, 1, usize::MAX).is_err());
}

#[test]
fn each_range_error_names_its_numbers() {
    let negative = BufferInfo { offset: -1, size: 8, flags: 2 };
    assert_eq!(
        validate_output_buffer_bounds(&negative, 16).unwrap_err().message(),
        "invalid output buffer bounds: BufferInfo { offset: -1, size: 8, flags: 2 }"
    );
    assert!(matches!(
        validate_output_buffer_range(12, 8, 16),
        Err(MediaError::OutOfRange { offset: 12, size: 8, out_size: 16 })
    ));
    assert_eq!(
        validate_output_buffer_range(12, 8, 16).unwrap_err().message(),
        "invalid output buffer bounds: offset=12 size=8 out_size=16"
    );
    assert_eq!(
        validate_output_buffer_range(usize::MAX, 1, 3).unwrap_err().message(),
        format!("output buffer range overflow: offset={} size=1 out_size=3", usize::MAX)
    );
}
