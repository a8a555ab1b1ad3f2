use log_buffer::ring::{reverse, rotate_left, zero_fill};

#[test]
fn reverse_turns_a_window_round() {
    let mut buffer = *b"abcdefgh";
    reverse(&mut buffer, 2, 6);
    assert_eq!(&buffer, b"abfedcgh");

    reverse(&mut buffer, 0, 8);
    assert_eq!(&buffer, b"hgcdefba");

    reverse(&mut buffer, 1, 4);
    assert_eq!(&buffer, b"hdcgefba");
}

#[test]
fn reverse_of_a_short_window_changes_nothing() {
    let mut buffer = *b"abcd";
    reverse(&mut buffer, 2, 2);
    assert_eq!(&buffer, b"abcd");
    reverse(&mut buffer, 3, 4);
    assert_eq!(&buffer, b"abcd");
    reverse(&mut buffer, 4, 4);
    assert_eq!(&buffer, b"abcd");
}

#[test]
fn rotate_left_brings_the_middle_to_the_front() {
    let mut buffer = *b"abcdefgh";
    rotate_left(&mut buffer, 3);
    assert_eq!(&buffer, b"defghabc");

    let mut odd = *b"abcdefg";
    rotate_left(&mut odd, 5);
    assert_eq!(&odd, b"fgabcde");
}

#[test]
fn rotate_left_by_nothing_or_by_all_changes_nothing() {
    let mut buffer = *b"abcdefgh";
    rotate_left(&mut buffer, 0);
    assert_eq!(&buffer, b"abcdefgh");
    rotate_left(&mut buffer, 8);
    assert_eq!(&buffer, b"abcdefgh");

    let mut nothing: [u8; 0] = [];
    rotate_left(&mut nothing, 0);
    assert_eq!(nothing.len(), 0);
}

#[test]
fn rotate_left_agrees_with_the_standard_library() {
    for mid in 0..=11 {
        let mut ours = *b"hello world";
        let mut theirs = *b"hello world";
        rotate_left(&mut ours, mid);
        theirs.rotate_left(mid);
        assert_eq!(ours, theirs);
    }
}

#[test]
fn zero_fill_overwrites_every_byte() {
    let mut buffer = [0xFF; 9];
    zero_fill(&mut buffer);
    assert_eq!(buffer, [0x00; 9]);
}
