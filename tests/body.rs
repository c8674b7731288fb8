use composite::body::{AsyncStreamedBody, BytesBody, EmptyBody, READ_BUFFER_LENGTH};
use composite::error::RangeResponseError;
use composite::multipart::{AsyncStreamedMultiRangeBody, MultiRangeStep};
use composite::ranges::RangeRequestPart;

fn source_bytes(len: usize) -> Vec<u8> {
    (0..len).map(|i| (i % 251) as u8).collect()
}

/// Drives a streamed body over an in-memory source that holds `source`.
fn drain_streamed(body: &mut AsyncStreamedBody<Vec<u8>>) -> Vec<u8> {
    let mut out = Vec::new();
    let mut pos = 0usize;
    loop {
        let n = body.read_len();
        if n == 0 {
            break;
        }
        let k = n.min(body.readable.len() - pos);
        let chunk = body.readable[pos..pos + k].to_vec();
        pos += k;
        if body.record_read(k) {
            break;
        }
        out.extend_from_slice(&chunk);
    }
    out
}

/// Drives a multipart body over an in-memory source, returning what it
/// handed out.
fn drain_multipart(body: &mut AsyncStreamedMultiRangeBody<Vec<u8>>) -> Vec<u8> {
    let mut out = Vec::new();
    let mut pos = 0usize;
    loop {
        match body.poll_step() {
            MultiRangeStep::Data(d) => out.extend_from_slice(&d),
            MultiRangeStep::Seek(p, d) => {
                pos = p as usize;
                out.extend_from_slice(&d);
            },
            MultiRangeStep::AwaitSeek => body.seek_completed(),
            MultiRangeStep::Read(n) => {
                let k = n.min(body.readable.len() - pos);
                out.extend_from_slice(&body.readable[pos..pos + k]);
                pos += k;
                body.record_read(k);
            },
            MultiRangeStep::End => break,
        }
    }
    out
}

#[test]
fn empty_body_ends_at_once() {
    let mut body = EmptyBody::new();
    assert!(body.is_end_stream());
    assert_eq!(body.size_hint(), Some(0));
    assert_eq!(body.poll_frame(), None);
}

#[test]
fn bytes_body_hands_out_chunks_in_order() {
    let mut body = BytesBody::new(b"hello".to_vec());
    body.append(Vec::new());
    body.append(b", world".to_vec());
    assert_eq!(body.size_hint(), Some(12));
    assert!(!body.is_end_stream());
    assert_eq!(body.poll_frame(), Some(b"hello".to_vec()));
    assert_eq!(body.size_hint(), Some(7));
    assert_eq!(body.poll_frame(), Some(b", world".to_vec()));
    assert_eq!(body.size_hint(), Some(0));
    assert!(body.is_end_stream());
    assert_eq!(body.poll_frame(), None);
}

#[test]
fn bytes_body_leaves_out_empty_chunks() {
    let mut body = BytesBody::new(Vec::new());
    assert!(body.is_end_stream());
    assert_eq!(body.poll_frame(), None);
    let mut body = BytesBody::with_capacity(4);
    assert_eq!(body.size_hint(), Some(0));
    body.append(vec![1, 2, 3]);
    assert_eq!(body.poll_frame(), Some(vec![1, 2, 3]));
    let body = BytesBody::new_empty();
    assert!(body.is_end_stream());
}

#[test]
fn streamed_body_truncates_at_total() {
    let mut body = AsyncStreamedBody::new(source_bytes(50000), Some(20000));
    assert_eq!(body.size_hint(), Some(20000));
    assert_eq!(body.read_len(), READ_BUFFER_LENGTH);
    let out = drain_streamed(&mut body);
    assert_eq!(out.len(), 20000);
    assert_eq!(out, source_bytes(20000));
    assert!(body.is_end_stream());
    assert_eq!(body.size_hint(), Some(0));
    assert_eq!(body.read_len(), 0);
}

#[test]
fn streamed_body_ends_early_on_short_source() {
    let mut body = AsyncStreamedBody::new(source_bytes(300), Some(1000));
    let out = drain_streamed(&mut body);
    assert_eq!(out, source_bytes(300));
    assert!(body.is_end_stream());
    assert_eq!(body.size_hint(), Some(0));
}

#[test]
fn streamed_body_without_total() {
    let mut body = AsyncStreamedBody::new(source_bytes(40000), None);
    assert_eq!(body.size_hint(), None);
    let out = drain_streamed(&mut body);
    assert_eq!(out.len(), 40000);
    assert!(body.is_end_stream());
}

#[test]
fn multipart_body_counts_exactly() {
    let parts = [RangeRequestPart::Range(0, 99), RangeRequestPart::Range(5000, 25999)];
    let mut body = AsyncStreamedMultiRangeBody::new(
        source_bytes(30000),
        Some(30000),
        &parts,
        "XYZ",
        "text/plain",
    )
    .unwrap();
    let expected = body.bytes_remaining();
    assert_eq!(body.size_hint(), Some(expected));
    let out = drain_multipart(&mut body);
    assert_eq!(out.len() as u64, expected);
    assert!(body.is_end_stream());
    assert_eq!(body.size_hint(), Some(0));
    assert!(matches!(body.poll_step(), MultiRangeStep::End));

    let source = source_bytes(30000);
    let mut wanted = Vec::new();
    wanted.extend_from_slice(b"--XYZ\r\nContent-Type: text/plain\r\nContent-Range: bytes 0-99/30000\r\n\r\n");
    wanted.extend_from_slice(&source[0..100]);
    wanted.extend_from_slice(b"\r\n--XYZ\r\nContent-Type: text/plain\r\nContent-Range: bytes 5000-25999/30000\r\n\r\n");
    wanted.extend_from_slice(&source[5000..26000]);
    wanted.extend_from_slice(b"\r\n--XYZ--\r\n");
    assert_eq!(out, wanted);
}

#[test]
fn multipart_body_known_size_two_ranges() {
    let parts = [RangeRequestPart::Range(100, 199), RangeRequestPart::Tail(500)];
    let mut body = AsyncStreamedMultiRangeBody::new(
        source_bytes(10000),
        Some(10000),
        &parts,
        "sep",
        "application/octet-stream",
    )
    .unwrap();
    let expected = body.bytes_remaining();
    let out = drain_multipart(&mut body);
    assert_eq!(out.len() as u64, expected);
    assert_eq!(body.size_hint(), Some(0));
    assert!(matches!(body.poll_step(), MultiRangeStep::End));
    assert_eq!(body.size_hint(), Some(0));
}

#[test]
fn multipart_body_rejects_unresolvable_parts() {
    let parts = [RangeRequestPart::Range(0, 9), RangeRequestPart::Skip(20000)];
    let body = AsyncStreamedMultiRangeBody::new(Vec::<u8>::new(), Some(10000), &parts, "b", "t");
    assert!(matches!(body, Err(RangeResponseError::OutOfRange(10000))));
    let parts = [RangeRequestPart::Range(0, 9), RangeRequestPart::Tail(5)];
    let body = AsyncStreamedMultiRangeBody::new(Vec::<u8>::new(), None, &parts, "b", "t");
    assert!(matches!(body, Err(RangeResponseError::RelativeSliceWithUnknownFullLength)));
}

#[test]
fn multipart_try_new_refuses_what_new_cannot_take() {
    let none: [RangeRequestPart; 0] = [];
    assert!(AsyncStreamedMultiRangeBody::try_new((), Some(10), &none, "b", "t").is_none());
    let inverted = [RangeRequestPart::Range(5, 4)];
    assert!(AsyncStreamedMultiRangeBody::try_new((), Some(10), &inverted, "b", "t").is_none());
    let empty_tail = [RangeRequestPart::Tail(0)];
    assert!(AsyncStreamedMultiRangeBody::try_new((), Some(10), &empty_tail, "b", "t").is_none());
    let huge = [RangeRequestPart::Range(0, u64::MAX - 10)];
    assert!(AsyncStreamedMultiRangeBody::try_new((), None, &huge, "b", "t").is_none());
    let fine = [RangeRequestPart::Range(0, 4)];
    let body = AsyncStreamedMultiRangeBody::try_new((), Some(10), &fine, "b", "t").unwrap().unwrap();
    // "--b\r\nContent-Type: t\r\nContent-Range: bytes " + "0-4/10\r\n\r\n" + 5 bytes + "\r\n--b--\r\n"
    assert_eq!(body.bytes_remaining(), 43 + 10 + 5 + 9);
}
