use std::str::FromStr;

use composite::error::RangeRequestParseError;
use composite::ranges::{RangeReqest, RangeRequestPart};

#[test]
fn ranges_it_works() {
    assert_eq!(
        RangeReqest::from_str("bytes=200-1000, 2000-6576, 19000- "),
        Ok(RangeReqest::Multi(
            vec![
                RangeRequestPart::Range(200, 1000),
                RangeRequestPart::Range(2000, 6576),
                RangeRequestPart::Skip(19000)
            ]
            .into()
        ))
    )
}

#[test]
fn test_parse_range_request_none() {
    let result = RangeReqest::from_str("bytes=");
    assert_eq!(result, Err(RangeRequestParseError::SyntaxError));
}

#[test]
fn test_parse_range_request_single_tail() {
    let result = RangeReqest::from_str("bytes=-100");
    assert_eq!(result, Ok(RangeReqest::Single(RangeRequestPart::Tail(100))));
}

#[test]
fn test_parse_range_request_single_range() {
    let result = RangeReqest::from_str("bytes=500-1000");
    assert_eq!(result, Ok(RangeReqest::Single(RangeRequestPart::Range(500, 1000))));
}

#[test]
fn test_parse_range_request_single_skip_to_end() {
    let result = RangeReqest::from_str("bytes=1000-");
    assert_eq!(result, Ok(RangeReqest::Single(RangeRequestPart::Skip(1000))));
}

#[test]
fn test_parse_range_request_multi() {
    let result = RangeReqest::from_str("bytes=1000-2000,3000-4000,5000-");
    let expected_parts = vec![
        RangeRequestPart::Range(1000, 2000),
        RangeRequestPart::Range(3000, 4000),
        RangeRequestPart::Skip(5000),
    ];
    assert_eq!(result, Ok(RangeReqest::Multi(expected_parts.into())));
}

#[test]
fn test_parse_range_request_syntax_error() {
    let result = RangeReqest::from_str("invalid-header");
    assert_eq!(result, Err(RangeRequestParseError::UnsupportedUnit));
}

#[test]
fn test_parse_range_request_unsupported_unit() {
    let result = RangeReqest::from_str("unsupported=0-100");
    assert_eq!(result, Err(RangeRequestParseError::UnsupportedUnit));
}

#[test]
fn test_parse_range_request_end_before_start() {
    let result = RangeReqest::from_str("bytes=1000-500");
    assert_eq!(result, Err(RangeRequestParseError::EndBeforeStart));
}

#[test]
fn test_parse_range_request_invalid_tail() {
    let result = RangeReqest::from_str("bytes=-0");
    assert_eq!(result, Err(RangeRequestParseError::ZeroLengthTail));
}

#[test]
fn test_parse_range_request_malformed_numbers() {
    let result = RangeReqest::from_str("bytes=a-100");
    assert_eq!(result, Err(RangeRequestParseError::SyntaxError));

    let result = RangeReqest::from_str("bytes=100-b");
    assert_eq!(result, Err(RangeRequestParseError::SyntaxError));

    let result = RangeReqest::from_str("bytes=100-200-300");
    assert_eq!(result, Err(RangeRequestParseError::SyntaxError));
}

#[test]
fn test_parse_range_request_malformed_ranges() {
    let result = RangeReqest::from_str("bytes=100-abc");
    assert_eq!(result, Err(RangeRequestParseError::SyntaxError));

    let result = RangeReqest::from_str("bytes=abc-,200-300");
    assert_eq!(result, Err(RangeRequestParseError::SyntaxError));

    let result: Result<RangeReqest, RangeRequestParseError> =
        RangeReqest::from_str("bytes=100-,abc-300");
    assert_eq!(result, Err(RangeRequestParseError::SyntaxError));
}

#[test]
fn test_parse_range_request_spacing() {
    let result = RangeReqest::from_str("bytes= 100 - 200, 300 - 400 , 500 - ");
    let expected_parts = vec![
        RangeRequestPart::Range(100, 200),
        RangeRequestPart::Range(300, 400),
        RangeRequestPart::Skip(500),
    ];
    assert_eq!(result, Ok(RangeReqest::Multi(expected_parts.into())));
}

#[test]
fn parse_sorts_multi_parts() {
    let result = RangeReqest::parse("bytes=-50, 900-, 300-400, 100-200, 100-150");
    let expected_parts = vec![
        RangeRequestPart::Range(100, 150),
        RangeRequestPart::Range(100, 200),
        RangeRequestPart::Range(300, 400),
        RangeRequestPart::Skip(900),
        RangeRequestPart::Tail(50),
    ];
    assert_eq!(result, Ok(RangeReqest::Multi(expected_parts)));
}

#[test]
fn parse_errors_by_kind() {
    assert_eq!(RangeReqest::parse(""), Err(RangeRequestParseError::SyntaxError));
    assert_eq!(RangeReqest::parse("bytes"), Err(RangeRequestParseError::UnsupportedUnit));
    assert_eq!(RangeReqest::parse("items=0-1"), Err(RangeRequestParseError::UnsupportedUnit));
    assert_eq!(RangeReqest::parse("bytes=-"), Err(RangeRequestParseError::SyntaxError));
    assert_eq!(RangeReqest::parse("bytes=1-2;"), Err(RangeRequestParseError::SyntaxError));
    assert_eq!(RangeReqest::parse("bytes=1-2,"), Err(RangeRequestParseError::SyntaxError));
    assert_eq!(RangeReqest::parse("bytes=5-4,-0"), Err(RangeRequestParseError::EndBeforeStart));
    assert_eq!(RangeReqest::parse("bytes=0-4,-0"), Err(RangeRequestParseError::ZeroLengthTail));
}

#[test]
fn parse_saturates_huge_numbers() {
    assert_eq!(
        RangeReqest::parse("bytes=99999999999999999999999-"),
        Ok(RangeReqest::Single(RangeRequestPart::Skip(u64::MAX)))
    );
    assert_eq!(
        RangeReqest::parse("bytes=18446744073709551615-18446744073709551615"),
        Ok(RangeReqest::Single(RangeRequestPart::Range(u64::MAX, u64::MAX)))
    );
}

#[test]
fn part_out_of_range() {
    assert!(RangeRequestPart::Range(0, 100).is_out_of_range(100));
    assert!(!RangeRequestPart::Range(0, 99).is_out_of_range(100));
    assert!(RangeRequestPart::Range(100, 100).is_out_of_range(100));
    assert!(RangeRequestPart::Skip(100).is_out_of_range(100));
    assert!(!RangeRequestPart::Skip(99).is_out_of_range(100));
    assert!(RangeRequestPart::Tail(101).is_out_of_range(100));
    assert!(!RangeRequestPart::Tail(100).is_out_of_range(100));
    assert!(RangeRequestPart::Range(0, 0).is_range());
    assert!(!RangeRequestPart::Skip(0).is_range());
}

#[test]
fn request_out_of_range() {
    let req = RangeReqest::Multi(vec![RangeRequestPart::Range(0, 9), RangeRequestPart::Skip(50)]);
    assert!(!req.is_out_of_range(51));
    assert!(req.is_out_of_range(50));
    assert!(RangeReqest::Single(RangeRequestPart::Tail(20)).is_out_of_range(19));
    assert!(req.is_multi());
    assert!(!req.is_single());
    assert!(RangeReqest::Single(RangeRequestPart::Skip(0)).is_single());
    assert!(!RangeReqest::Single(RangeRequestPart::Skip(0)).is_multi());
}

#[test]
fn overlap_detection() {
    let overlapping =
        RangeReqest::Multi(vec![RangeRequestPart::Range(0, 99), RangeRequestPart::Range(50, 149)]);
    assert!(overlapping.has_overlapping_ranges(Some(1000)));
    assert!(overlapping.has_overlapping_ranges(None));
    let disjoint =
        RangeReqest::Multi(vec![RangeRequestPart::Range(0, 99), RangeRequestPart::Range(100, 199)]);
    assert!(!disjoint.has_overlapping_ranges(Some(1000)));
    assert!(!disjoint.has_overlapping_ranges(None));
}

#[test]
fn overlap_with_relative_parts() {
    let skip_then_range =
        RangeReqest::Multi(vec![RangeRequestPart::Range(0, 9), RangeRequestPart::Skip(10)]);
    assert!(!skip_then_range.has_overlapping_ranges(None));
    let after_skip =
        RangeReqest::Multi(vec![RangeRequestPart::Skip(10), RangeRequestPart::Tail(5)]);
    assert!(after_skip.has_overlapping_ranges(Some(1000)));
    let tail = RangeReqest::Multi(vec![RangeRequestPart::Range(0, 9), RangeRequestPart::Tail(5)]);
    assert!(!tail.has_overlapping_ranges(Some(100)));
    assert!(tail.has_overlapping_ranges(Some(12)));
    assert!(tail.has_overlapping_ranges(None));
    assert!(!RangeReqest::Single(RangeRequestPart::Tail(5)).has_overlapping_ranges(None));
}

#[test]
fn part_renderings() {
    assert_eq!(RangeRequestPart::Range(0, 499).to_string_with_length(1000), "0-499/1000");
    assert_eq!(RangeRequestPart::Skip(200).to_string_with_length(1000), "200-999/1000");
    assert_eq!(RangeRequestPart::Tail(300).to_string_with_length(1000), "700-999/1000");
    assert_eq!(RangeRequestPart::Tail(3000).to_string_with_length(1000), "0-999/1000");
    assert_eq!(RangeRequestPart::Range(5, 17).to_string(), "5-17");
    assert_eq!(RangeRequestPart::Skip(42).to_string(), "42-");
    assert_eq!(RangeRequestPart::Tail(7).to_string(), "-7");
}

#[test]
fn parses_the_three_forms_sorted() {
    assert_eq!(
        RangeReqest::parse("bytes=200-1000, 2000-6576, 19000-"),
        Ok(RangeReqest::Multi(vec![
            RangeRequestPart::Range(200, 1000),
            RangeRequestPart::Range(2000, 6576),
            RangeRequestPart::Skip(19000),
        ]))
    );
    assert_eq!(
        "bytes=19000-, 2000-6576, 200-1000".parse::<RangeReqest>(),
        Ok(RangeReqest::Multi(vec![
            RangeRequestPart::Range(200, 1000),
            RangeRequestPart::Range(2000, 6576),
            RangeRequestPart::Skip(19000),
        ]))
    );
}
