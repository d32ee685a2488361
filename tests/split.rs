use chopstick::chop::{parse_num_parts, RunConfig, SplitRequest};
use chopstick::split::{part_range, Split};
use chopstick::{digits, round_up_div, ChopError};

const PART_SIZE_DATA: [(u64, u64, u64); 5] = [
    (1000, 50, 20),
    (1024, 49, 21),
    (12, 5, 3),
    (603, 47, 13),
    (156, 79, 2),
];

const NUM_PARTS_DATA: [(u64, u64, u64); 5] = [
    (1000, 20, 50),
    (1024, 21, 49),
    (12, 3, 4),
    (603, 13, 47),
    (156, 2, 78),
];

const TEST_BYTES: [u8; 100] = [
    164, 108, 152, 89, 172, 190, 243, 194, 202, 143, 158, 187, 192, 211, 33,
    195, 34, 27, 108, 57, 177, 144, 199, 135, 136, 143, 57, 246, 45, 100, 247,
    59, 163, 101, 168, 68, 244, 190, 137, 114, 216, 67, 112, 196, 124, 170, 74,
    78, 35, 53, 204, 163, 235, 101, 179, 30, 51, 41, 9, 199, 125, 89, 132, 75,
    221, 221, 102, 190, 51, 255, 246, 185, 199, 168, 19, 14, 9, 205, 59, 31,
    124, 106, 58, 100, 67, 81, 95, 200, 96, 1, 205, 206, 67, 38, 21, 224, 247,
    75, 1, 131,
];

#[test]
fn round_up_division() {
    assert_eq!(round_up_div(1, 2), 1);
    assert_eq!(round_up_div(7, 2), 4);
    assert_eq!(round_up_div(10, 3), 4);
    assert_eq!(round_up_div(76, 2), 38);
    assert_eq!(round_up_div(16, 7), 3);
    assert_eq!(round_up_div(7, 3), 3);
    assert_eq!(round_up_div(10, 20), 1);
}

#[test]
fn digit_counting() {
    let input = vec![
        (1, 1),
        (50, 2),
        (12, 2),
        (9, 1),
        (123, 3),
        (41231, 5),
        (1234, 4),
        (123123, 6),
        (1234567890, 10),
        (u64::MAX, 20),
    ];
    input
        .into_iter()
        .for_each(|(n, d)| assert_eq!(digits(n), d));
}

#[test]
fn digit_counting_edges() {
    assert_eq!(digits(0), 1);
    assert_eq!(digits(10), 2);
    assert_eq!(digits(99), 2);
    assert_eq!(digits(100), 3);
    assert_eq!(digits(10_000_000_000_000_000_000), 20);
}

#[test]
fn split_from_part_size() {
    PART_SIZE_DATA
        .into_iter()
        .for_each(|(file_size, part_size, num_parts)| {
            let split = Split::from_part_size(file_size, part_size).unwrap();
            assert_eq!(
                split,
                Split {
                    part_size,
                    num_parts
                },
                "Split calculation mismatch for file size {}",
                file_size,
            );
        });
}

#[test]
fn split_from_part_size_err() {
    let err = Split::from_part_size(10, 10).unwrap_err();
    assert!(matches!(err, ChopError::PartSizeTooLarge));
    let err = Split::from_part_size(10, 100).unwrap_err();
    assert!(matches!(err, ChopError::PartSizeTooLarge));
}

#[test]
fn split_from_num_parts() {
    NUM_PARTS_DATA
        .into_iter()
        .for_each(|(file_size, num_parts, part_size)| {
            let split = Split::from_num_parts(file_size, num_parts).expect("Unexpected error");
            assert_eq!(
                split,
                Split {
                    part_size,
                    num_parts
                },
                "Split calculation mismatch for file size {}",
                file_size,
            );
        });
}

#[test]
fn split_from_num_parts_err() {
    let err = Split::from_num_parts(10, 10).unwrap_err();
    assert!(matches!(err, ChopError::NumPartsTooLarge));
    let err = Split::from_num_parts(10, 100).unwrap_err();
    assert!(matches!(err, ChopError::NumPartsTooLarge));
}

#[test]
fn closest_factors() {
    assert_eq!(Split::closest_factors_to(512000, 986), (985, 520));
    assert_eq!(Split::closest_factors_to(1024, 50), (49, 21));
}

#[test]
fn disobey() {
    let split = Split::from_num_parts(512000, 986).unwrap();
    assert_eq!(
        split,
        Split {
            part_size: 520,
            num_parts: 985,
        },
    );

    let split = Split::from_part_size(1024, 50).unwrap();
    assert_eq!(
        split,
        Split {
            part_size: 49,
            num_parts: 21,
        },
    );
}

#[test]
fn count_request_that_leaves_an_empty_part() {
    // ten bytes in six parts: five parts of two bytes already hold them all
    let split = Split::from_num_parts(10, 6).unwrap();
    assert_eq!(
        split,
        Split {
            part_size: 2,
            num_parts: 6,
        }
    );
    assert_eq!(part_range(split, 10, 6), (10, 10));
}

/// The parts of `bytes` in the order they are written, last part first.
fn cut(bytes: &[u8], config: &RunConfig) -> Vec<(Vec<u8>, Vec<u8>)> {
    let mut parts = Vec::new();
    let mut source_len = bytes.len() as u64;
    let mut done = 0;
    while let Some(part) = config.next_part(done) {
        assert_eq!(part.end, source_len);
        parts.push((
            part.path.clone(),
            bytes[part.start as usize..part.end as usize].to_vec(),
        ));
        source_len = part.start;
        done += 1;
    }
    assert_eq!(source_len, 0);
    parts
}

fn config_for(size: usize, request: SplitRequest) -> RunConfig {
    RunConfig::from_request(b"name".to_vec(), size as u64, request, false, false, false)
        .unwrap()
}

#[test]
fn exact_split() {
    let config = config_for(TEST_BYTES.len(), SplitRequest::NumParts(5));
    let parts = cut(&TEST_BYTES, &config);
    assert_eq!(parts.len(), 5);
    for (n, (path, bytes)) in parts.iter().rev().enumerate() {
        assert_eq!(path, &format!("name.p{}", n + 1).into_bytes());
        assert_eq!(bytes.as_slice(), &TEST_BYTES[n * 20..n * 20 + 20]);
    }
}

#[test]
fn split() {
    let config = config_for(TEST_BYTES.len(), SplitRequest::PartSize(15));
    let parts = cut(&TEST_BYTES, &config);
    assert_eq!(parts.len(), 7);
    for (n, (path, bytes)) in parts.iter().rev().enumerate() {
        assert_eq!(path, &format!("name.p{}", n + 1).into_bytes());
        let end = std::cmp::min(TEST_BYTES.len(), n * 15 + 15);
        assert_eq!(bytes.as_slice(), &TEST_BYTES[n * 15..end]);
    }
    assert_eq!(parts[0].1.len(), 10);
}

fn round_trip(bytes: &[u8], request: SplitRequest) {
    let config = config_for(bytes.len(), request);
    let mut parts = cut(bytes, &config);
    parts.reverse();
    let joined: Vec<u8> = parts.into_iter().flat_map(|(_, b)| b).collect();
    assert_eq!(joined, bytes);
}

fn pattern(len: usize) -> Vec<u8> {
    (0..len).map(|i| (i * 31 % 251) as u8).collect()
}

#[test]
fn num_parts() {
    let bytes = pattern(5000);
    for n in (10..=1000).step_by(37) {
        round_trip(&bytes, SplitRequest::NumParts(n));
    }
    round_trip(&bytes, SplitRequest::NumParts(4999));
}

#[test]
fn part_size() {
    let bytes = pattern(5000);
    for n in (10..=4999).step_by(113) {
        round_trip(&bytes, SplitRequest::PartSize(n));
    }
}

#[test]
fn formatted_part_size() {
    let file_size: u64 = 500 * 1024;
    for k in [10u64, 64, 128, 400] {
        let part_size = k * 1024;
        let text = bytesize::to_string(part_size, true);
        let config = RunConfig::new(
            b"chopnplop".to_vec(),
            file_size,
            Some(text.as_str()),
            None,
            false,
            false,
            false,
        )
        .unwrap();
        assert_eq!(config.split, Split::from_part_size(file_size, part_size).unwrap());
    }
}

#[test]
fn config_from_text() {
    let config =
        RunConfig::new(b"f".to_vec(), 100, Some("15"), None, true, false, true).unwrap();
    assert_eq!(config.split, Split { part_size: 15, num_parts: 7 });
    assert!(config.retain);
    assert!(config.verbose);
    assert_eq!(config.space_needed(), 100);
    assert_eq!(config.source_cut(3), None);
    assert!(!config.removes_source());

    let config = RunConfig::new(b"f".to_vec(), 100, None, Some("5"), false, true, false).unwrap();
    assert_eq!(config.split, Split { part_size: 20, num_parts: 5 });
    assert!(!config.dry_run);
    assert_eq!(config.space_needed(), 20);
    assert_eq!(config.source_cut(3), Some(40));
    assert!(config.removes_source());

    let config = RunConfig::new(b"f".to_vec(), 1024, Some("1KiB"), None, false, false, false);
    assert!(matches!(config.unwrap_err(), ChopError::PartSizeTooLarge));
}

#[test]
fn config_errors() {
    let err = RunConfig::new(b"f".to_vec(), 100, None, Some("five"), false, false, false)
        .unwrap_err();
    assert!(matches!(err, ChopError::InvalidNumParts));
    let err = RunConfig::new(b"f".to_vec(), 100, None, Some("0"), false, false, false)
        .unwrap_err();
    assert!(matches!(err, ChopError::InvalidNumParts));
    let err = RunConfig::new(b"f".to_vec(), 100, None, Some("100"), false, false, false)
        .unwrap_err();
    assert!(matches!(err, ChopError::NumPartsTooLarge));
    let err = RunConfig::new(b"f".to_vec(), 100, Some("lots"), None, false, false, false)
        .unwrap_err();
    assert!(matches!(err, ChopError::ByteSize(_)));
    let err = RunConfig::new(b"f".to_vec(), 100, Some("0"), None, false, false, false)
        .unwrap_err();
    assert!(matches!(err, ChopError::ByteSize(_)));
    let err = RunConfig::new(b"f".to_vec(), 0, Some("0"), None, false, false, false)
        .unwrap_err();
    assert!(matches!(err, ChopError::PartSizeTooLarge));
}

#[test]
fn number_parsing() {
    assert_eq!(parse_num_parts("42"), Some(42));
    assert_eq!(parse_num_parts("+7"), Some(7));
    assert_eq!(parse_num_parts("007"), Some(7));
    assert_eq!(parse_num_parts("18446744073709551615"), Some(u64::MAX));
    assert_eq!(parse_num_parts("18446744073709551616"), None);
    assert_eq!(parse_num_parts(""), None);
    assert_eq!(parse_num_parts("+"), None);
    assert_eq!(parse_num_parts("-3"), None);
    assert_eq!(parse_num_parts("4 "), None);
    for text in ["0", "12", "+3", "99999", "1e3", " 5"] {
        assert_eq!(parse_num_parts(text), text.parse::<u64>().ok());
    }
}

#[test]
fn exit_codes() {
    assert_eq!(ChopError::PartSizeTooLarge.exit_code(), 1);
    assert_eq!(ChopError::InvalidNumParts.exit_code(), 1);
    assert_eq!(ChopError::PartFileAlreadyExists(b"x".to_vec()).exit_code(), 1);
    let io = std::io::Error::new(std::io::ErrorKind::Other, "disk");
    assert_eq!(ChopError::FailedToTruncate(io).exit_code(), 2);
}

#[test]
fn something_specific() {
    round_trip(&pattern(500 * 1024), SplitRequest::NumParts(986));
}

#[test]
fn split_edges() {
    assert!(matches!(
        Split::from_part_size(0, 0).unwrap_err(),
        ChopError::PartSizeTooLarge
    ));
    assert!(matches!(
        Split::from_num_parts(0, 0).unwrap_err(),
        ChopError::NumPartsTooLarge
    ));
    assert_eq!(
        Split::from_part_size(2, 1).unwrap(),
        Split { part_size: 1, num_parts: 2 }
    );
    assert_eq!(
        Split::from_part_size(u64::MAX, u64::MAX - 1).unwrap(),
        Split { part_size: 1 << 63, num_parts: 2 }
    );
    assert_eq!(
        Split::from_num_parts(u64::MAX, u64::MAX - 1).unwrap(),
        Split { part_size: 2, num_parts: 1 << 63 }
    );
    let split = Split::from_num_parts(u64::MAX, 3).unwrap();
    assert_eq!(part_range(split, u64::MAX, 3), (2 * split.part_size, u64::MAX));
}
