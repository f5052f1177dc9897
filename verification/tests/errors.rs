use cerebros_numerics::shape::{check_shape, expected_len, output_len};
use cerebros_numerics::GemmError;

#[test]
fn fixed_reasons_name_their_class() {
    assert_eq!(GemmError::from_reason("badarg"), GemmError::BadArgument);
    assert_eq!(GemmError::from_reason("overflow"), GemmError::Overflow);
    assert_eq!(GemmError::from_reason("alloc_failed"), GemmError::AllocationFailed);
}

#[test]
fn any_other_reason_is_carried_along() {
    assert_eq!(
        GemmError::from_reason("out of cheese"),
        GemmError::Other("out of cheese".to_string())
    );
    assert_eq!(GemmError::from_reason(""), GemmError::Other(String::new()));
    assert_eq!(GemmError::from_reason("BadArg"), GemmError::Other("BadArg".to_string()));
}

#[test]
fn each_class_has_its_name() {
    assert_eq!(GemmError::BadArgument.reason(), "badarg");
    assert_eq!(GemmError::Overflow.reason(), "overflow");
    assert_eq!(GemmError::AllocationFailed.reason(), "alloc_failed");
    assert_eq!(GemmError::Other("out of cheese".to_string()).reason(), "out of cheese");
}

#[test]
fn a_class_is_recovered_from_its_name() {
    for e in [
        GemmError::BadArgument,
        GemmError::Overflow,
        GemmError::AllocationFailed,
        GemmError::Other("timeout".to_string()),
    ] {
        assert_eq!(GemmError::from_reason(&e.reason()), e);
    }
}

#[test]
fn a_description_that_is_a_fixed_name_is_read_as_that_class() {
    let e = GemmError::Other("overflow".to_string());
    assert_eq!(GemmError::from_reason(&e.reason()), GemmError::Overflow);
}

#[test]
fn expected_len_is_two_bytes_per_cell() {
    assert_eq!(expected_len(3, 4), Some(24));
    assert_eq!(expected_len(0, 4), Some(0));
    assert_eq!(expected_len(4, 0), Some(0));
    assert_eq!(expected_len(1, usize::MAX / 2), Some(usize::MAX - 1));
}

#[test]
fn expected_len_is_none_when_not_representable() {
    assert_eq!(expected_len(usize::MAX, 2), None);
    assert_eq!(expected_len(usize::MAX / 2 + 1, 1), None);
    assert_eq!(expected_len(1 << (usize::BITS / 2), 1 << (usize::BITS / 2)), None);
}

#[test]
fn check_shape_accepts_exact_lengths_only() {
    assert_eq!(check_shape(12, 24, 2, 4, 3), Ok(()));
    assert_eq!(check_shape(0, 0, 5, 7, 0), Ok(()));
    assert_eq!(check_shape(11, 24, 2, 4, 3), Err(GemmError::BadArgument));
    assert_eq!(check_shape(12, 25, 2, 4, 3), Err(GemmError::BadArgument));
    assert_eq!(check_shape(13, 24, 2, 4, 3), Err(GemmError::BadArgument));
}

#[test]
fn check_shape_rejects_a_length_that_wrapped() {
    // 2 * m * k wraps around to 0
    let m = 1usize << (usize::BITS - 1);
    assert_eq!(check_shape(0, 2, m, 1, 1), Err(GemmError::BadArgument));
    assert_eq!(check_shape(usize::MAX, 2, m, 1, 1), Err(GemmError::BadArgument));
}

#[test]
fn output_len_counts_cells_and_bytes() {
    assert_eq!(output_len(3, 5), Ok((15, 30)));
    assert_eq!(output_len(0, 5), Ok((0, 0)));
    assert_eq!(output_len(usize::MAX / 2, 1), Ok((usize::MAX / 2, usize::MAX - 1)));
}

#[test]
fn output_len_overflows_in_either_multiplication() {
    let half = 1usize << (usize::BITS / 2);
    assert_eq!(output_len(half, half), Err(GemmError::Overflow));
    assert_eq!(output_len(usize::MAX / 2 + 1, 1), Err(GemmError::Overflow));
    assert_eq!(output_len(usize::MAX, usize::MAX), Err(GemmError::Overflow));
}
