use composite::error::RangeResponseError;
use composite::ranges::{RangeReqest, RangeRequestPart};
use composite::response_ranges::RangeResponseHeader;
use composite::text::base_10_str_len;

#[test]
fn resolves_each_kind_of_part() {
    let h = RangeResponseHeader::new(&RangeRequestPart::Range(10, 19), Some(100)).unwrap();
    assert_eq!(h.to_string(), "10-19/100");
    assert_eq!(h.range_len(), 10);
    assert_eq!(h.start(), 10);
    let h = RangeResponseHeader::new(&RangeRequestPart::Skip(90), Some(100)).unwrap();
    assert_eq!(h.to_string(), "90-99/100");
    let h = RangeResponseHeader::new(&RangeRequestPart::Tail(30), Some(100)).unwrap();
    assert_eq!(h.to_string(), "70-99/100");
    assert_eq!(h.range_len(), 30);
    let h = RangeResponseHeader::new(&RangeRequestPart::Range(0, 4), None).unwrap();
    assert_eq!(h.to_string(), "0-4/*");
    assert_eq!(h.str_len(), 5);
}

#[test]
fn resolution_errors() {
    assert_eq!(
        RangeResponseHeader::new(&RangeRequestPart::Range(10, 100), Some(100)),
        Err(RangeResponseError::OutOfRange(100))
    );
    assert_eq!(
        RangeResponseHeader::new(&RangeRequestPart::Tail(101), Some(100)),
        Err(RangeResponseError::OutOfRange(100))
    );
    assert_eq!(
        RangeResponseHeader::new(&RangeRequestPart::Skip(0), Some(0)),
        Err(RangeResponseError::OutOfRange(0))
    );
    assert_eq!(
        RangeResponseHeader::new(&RangeRequestPart::Skip(0), None),
        Err(RangeResponseError::RelativeSliceWithUnknownFullLength)
    );
    assert_eq!(
        RangeResponseHeader::new(&RangeRequestPart::Tail(1), None),
        Err(RangeResponseError::RelativeSliceWithUnknownFullLength)
    );
}

#[test]
fn str_len_matches_rendering() {
    for (part, total) in [
        (RangeRequestPart::Range(0, 0), Some(1)),
        (RangeRequestPart::Range(9, 10), Some(1000)),
        (RangeRequestPart::Range(123456, 99999999), None),
        (RangeRequestPart::Skip(5), Some(u64::MAX)),
    ] {
        let h = RangeResponseHeader::new(&part, total).unwrap();
        assert_eq!(h.str_len() as usize, h.to_string().len());
    }
    assert_eq!(base_10_str_len(0), 1);
    assert_eq!(base_10_str_len(9), 1);
    assert_eq!(base_10_str_len(10), 2);
    assert_eq!(base_10_str_len(u64::MAX), 20);
}

#[test]
fn full_range_length_is_held_at_max() {
    let h = RangeResponseHeader::new(&RangeRequestPart::Range(0, u64::MAX), None).unwrap();
    assert_eq!(h.range_len(), u64::MAX);
}

#[test]
fn single_range_resolves_inside_total() {
    for header in ["bytes=0-0", "bytes=-1", "bytes=99-", "bytes=-500", "bytes=3-97"] {
        let Ok(RangeReqest::Single(part)) = RangeReqest::parse(header) else {
            panic!("{} did not parse to one part", header);
        };
        let h = RangeResponseHeader::new(&part, Some(100)).unwrap_or_else(|_| {
            RangeResponseHeader::new(&RangeRequestPart::Range(0, 0), Some(100)).unwrap()
        });
        let text = h.to_string();
        let (bounds, total) = text.split_once('/').unwrap();
        let (start, end) = bounds.split_once('-').unwrap();
        let (start, end): (u64, u64) = (start.parse().unwrap(), end.parse().unwrap());
        assert!(start <= end && end < 100);
        assert_eq!(total, "100");
    }
}

#[test]
fn resolved_range_round_trips() {
    let h = RangeResponseHeader::new(&RangeRequestPart::Tail(250), Some(1000)).unwrap();
    let text = h.to_string();
    let bounds = text.split_once('/').unwrap().0;
    let again = RangeReqest::parse(&format!("bytes={}", bounds)).unwrap();
    assert_eq!(again, RangeReqest::Single(RangeRequestPart::Range(750, 999)));
    let RangeReqest::Single(part) = again else { unreachable!() };
    assert_eq!(RangeResponseHeader::new(&part, Some(1000)), Ok(h));
}
