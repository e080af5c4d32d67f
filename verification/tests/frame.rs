use ntl::frame::{body_len, read_frame, write_frame, FrameError};
use ntl::signal::MAX_SIZE;

#[test]
fn signal_round_trips_through_a_frame() {
    let body = b"a signal in its wire form".to_vec();
    let buf = write_frame(&body).expect("write");
    assert_eq!(buf[..4], [0, 0, 0, 25]);
    let frame = read_frame(&buf, 0).expect("read");
    assert_eq!(frame.body, body);
    assert_eq!(frame.used, buf.len());
}

#[test]
fn clean_eof_is_reported_as_closed() {
    assert!(matches!(read_frame(&Vec::new(), 0), Err(FrameError::Closed)));
    assert!(matches!(read_frame(&vec![0, 0, 1], 0), Err(FrameError::Closed)));
}

#[test]
fn an_oversized_length_is_refused_before_allocating() {
    // A header claiming 4 GiB must not cause a 4 GiB allocation.
    let mut framed = Vec::new();
    framed.extend_from_slice(&u32::MAX.to_be_bytes());
    assert!(matches!(
        read_frame(&framed, 0),
        Err(FrameError::TooLarge { claimed: 0xFFFF_FFFF, max: MAX_SIZE })
    ));
    assert!(matches!(body_len(&[0x00, 0x10, 0x00, 0x01]), Err(FrameError::TooLarge { .. })));
    assert_eq!(body_len(&[0x00, 0x10, 0x00, 0x00]).expect("the maximum"), MAX_SIZE);
}

#[test]
fn an_oversized_body_is_not_framed() {
    assert!(matches!(
        write_frame(&vec![0; MAX_SIZE + 1]),
        Err(FrameError::TooLarge { claimed, .. }) if claimed == MAX_SIZE + 1
    ));
}

#[test]
fn a_zero_length_frame_is_refused() {
    let mut framed = Vec::new();
    framed.extend_from_slice(&0u32.to_be_bytes());
    assert!(matches!(read_frame(&framed, 0), Err(FrameError::Malformed(_))));
}

#[test]
fn a_truncated_body_is_an_io_error() {
    let mut framed = Vec::new();
    framed.extend_from_slice(&64u32.to_be_bytes());
    framed.extend_from_slice(&[0u8; 4]); // Far short of 64.
    assert!(matches!(read_frame(&framed, 0), Err(FrameError::Io(_))));
}

#[test]
fn several_signals_stream_in_order() {
    let mut buf = Vec::new();
    for i in 0..5u8 {
        buf.extend(write_frame(&vec![i; usize::from(i) + 1]).expect("write"));
    }
    let mut at = 0;
    for i in 0..5u8 {
        let frame = read_frame(&buf, at).expect("read");
        assert_eq!(frame.body, vec![i; usize::from(i) + 1]);
        at += frame.used;
    }
    assert!(matches!(read_frame(&buf, at), Err(FrameError::Closed)));
}
