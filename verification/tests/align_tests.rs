use chunkstats::align::{align, lines_fit, plan_read, CHUNK_EXCESS, CHUNK_SIZE};

#[test]
fn constants_have_their_values() {
    assert_eq!(CHUNK_SIZE, 16_777_216);
    assert_eq!(CHUNK_EXCESS, 64);
}

#[test]
fn plan_for_first_chunk_starts_at_zero() {
    let p = plan_read(0, 1000, 100, 10).unwrap();
    assert_eq!((p.read_from, p.len, p.head), (0, 100, 0));
}

#[test]
fn plan_for_later_chunk_backs_up_by_excess() {
    let p = plan_read(200, 1000, 100, 10).unwrap();
    assert_eq!((p.read_from, p.len, p.head), (190, 110, 10));
}

#[test]
fn plan_for_last_chunk_ends_with_the_file() {
    let p = plan_read(900, 950, 100, 10).unwrap();
    assert_eq!((p.read_from, p.len, p.head), (890, 60, 10));
    let q = plan_read(0, 40, 100, 10).unwrap();
    assert_eq!((q.read_from, q.len, q.head), (0, 40, 0));
}

#[test]
fn plan_at_the_end_of_the_file_is_still_a_plan() {
    let p = plan_read(1000, 1000, 100, 10).unwrap();
    assert_eq!((p.read_from, p.len, p.head), (990, 10, 10));
}

#[test]
fn plan_past_the_file_is_none() {
    assert!(plan_read(1100, 1000, 100, 10).is_none());
    assert!(plan_read(1001, 1000, 100, 10).is_none());
}

#[test]
fn plan_does_not_overflow_near_the_top() {
    let p = plan_read(u64::MAX - 5, u64::MAX, 100, 10).unwrap();
    assert_eq!((p.read_from, p.len, p.head), (u64::MAX - 15, 15, 10));
}

#[test]
fn align_first_chunk_keeps_start_and_drops_partial_tail() {
    let region = b"A;1.0\nB;2.0\nC;3";
    assert_eq!(align(region, 0), (0, 12));
}

#[test]
fn align_later_chunk_steps_back_to_record_start() {
    // the chunk nominally starts inside "B;2.0"
    let region = b"1.0\nB;2.0\nC;3.0\nD;";
    assert_eq!(align(region, 6), (4, 16));
}

#[test]
fn align_head_just_behind_a_newline_stays() {
    let region = b"1.0\nB;2.0\n";
    assert_eq!(align(region, 4), (4, 10));
}

#[test]
fn align_without_newline_before_head_starts_at_region_start() {
    let region = b"abcdef\nxy\n";
    assert_eq!(align(region, 3), (0, 10));
}

#[test]
fn align_without_any_newline_is_empty() {
    assert_eq!(align(b"abcdef", 0), (0, 0));
    assert_eq!(align(b"", 0), (0, 0));
}

#[test]
fn align_with_no_record_ending_after_head_is_empty() {
    let region = b"ab\ncdef";
    assert_eq!(align(region, 5), (3, 3));
}

#[test]
fn lines_fit_measures_lines_with_their_newline() {
    let data = b"ab\ncdef\ng\n";
    assert!(lines_fit(data, 5));
    assert!(lines_fit(data, 100));
    assert!(!lines_fit(data, 4));
    assert!(!lines_fit(data, 1));
    assert!(lines_fit(b"", 1));
    assert!(lines_fit(b"\n\n\n", 1));
    assert!(lines_fit(b"abc", 4));
    assert!(!lines_fit(b"abc", 3));
    assert!(!lines_fit(b"a\nbcd", 3));
}
