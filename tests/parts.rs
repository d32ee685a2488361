use chopstick::discovery::join_path;
use chopstick::naming::part_ordinal;
use chopstick::stick::{total_part_size, JoinStep, RunConfig};
use chopstick::{
    find_parts_in, get_part_path_buf, remove_chopstick_extension, verify_discovered_parts,
    StickError, EXTENSION_PREFIX,
};

fn names(pattern: &str, ordinals: impl Iterator<Item = usize>) -> Vec<Vec<u8>> {
    ordinals
        .map(|n| pattern.replace("{}", &n.to_string()).into_bytes())
        .collect()
}

fn extension_removal_test_runner(test_data: &[(&str, &str)]) {
    test_data.iter().for_each(|(inp, out)| {
        assert_eq!(remove_chopstick_extension(inp.as_bytes()), out.as_bytes())
    });
}

#[test]
fn extension_removal() {
    let data = vec![
        ("bar.p01", "bar"),
        ("foo.tgz.p01", "foo.tgz"),
        ("../foo/bar/../foo.p999999", "../foo/bar/../foo"),
        ("barmy.hber.afv.p00.asdf.p10", "barmy.hber.afv.p00.asdf"),
    ];
    extension_removal_test_runner(&data);
}

#[test]
fn extension_removal_noop() {
    let data = vec![
        ("bar", "bar"),
        ("foo.tgz", "foo.tgz"),
        ("../foo/bar/../foo", "../foo/bar/../foo"),
        ("barmy.hber.afv.p00.asdf", "barmy.hber.afv.p00.asdf"),
    ];
    extension_removal_test_runner(&data);
}

#[test]
fn extension_removal_needs_digits() {
    let data = vec![
        ("foo.p", "foo.p"),
        ("foo.pdf", "foo.pdf"),
        ("foo.p1x", "foo.p1x"),
        ("stem.p5", "stem"),
        ("stemp5", "stemp5"),
        (".p3", ""),
    ];
    extension_removal_test_runner(&data);
}

#[test]
fn part_names() {
    assert_eq!(EXTENSION_PREFIX, "p");
    assert_eq!(get_part_path_buf(b"name", 1, 1), b"name.p1");
    assert_eq!(get_part_path_buf(b"name", 7, 2), b"name.p07");
    assert_eq!(get_part_path_buf(b"dir/a.tar", 42, 2), b"dir/a.tar.p42");
    assert_eq!(get_part_path_buf(b"x", 123, 2), b"x.p123");
    assert_eq!(get_part_path_buf(b"x", 0, 0), b"x.p0");
    for (i, w) in [(1u64, 1usize), (9, 3), (10, 2), (985, 3), (u64::MAX, 25)] {
        let name = get_part_path_buf(b"some.file", i, w);
        assert_eq!(remove_chopstick_extension(&name), b"some.file");
        assert_eq!(part_ordinal(&name), Some(i));
    }
}

#[test]
fn ordinals() {
    assert_eq!(part_ordinal(b"foo.p007"), Some(7));
    assert_eq!(part_ordinal(b"foo.p18446744073709551616"), None);
    assert_eq!(part_ordinal(b"foo.q7"), None);
    assert_eq!(part_ordinal(b"foo"), None);
}

#[test]
fn path_discovery() {
    let mut listing = names("foo.p{}", 1..10);
    listing.insert(0, b"bar.p1".to_vec());
    listing.push(b"foo".to_vec());
    listing.push(b"foo.q1".to_vec());
    let expected_parts = names("foo.p{}", 1..10);
    let actual_parts = find_parts_in(&listing, b"foo");
    assert_eq!(actual_parts, expected_parts);
}

#[test]
fn part_verification_good() {
    let parts = names("foo.p{}", 1..10);
    assert!(verify_discovered_parts(&parts), "Simple case");
    let parts = names("foo.tar.gz.p{}", 1..10);
    assert!(verify_discovered_parts(&parts), "Long extension");
    let parts = names("foo.p.bar.p{}", 1..10);
    assert!(
        verify_discovered_parts(&parts),
        "False positive extension prefix"
    );
}

#[test]
fn part_verification_bad() {
    let parts = names("foo.p{}", (1..10).filter(|n| *n != 3));
    assert!(!verify_discovered_parts(&parts), "One missing");
    let parts = names("foo.p{}", 3..10);
    assert!(!verify_discovered_parts(&parts), "Two missing");
}

#[test]
fn part_verification_numeric() {
    let parts = vec![b"foo.p01".to_vec(), b"foo.p002".to_vec()];
    assert!(verify_discovered_parts(&parts));
    let parts = vec![b"foo.p11".to_vec()];
    assert!(!verify_discovered_parts(&parts));
    assert!(verify_discovered_parts(&Vec::new()));
}

fn stick_listing() -> Vec<Vec<u8>> {
    (1..=10)
        .map(|n| format!("stick_me.{}{:0>2}", EXTENSION_PREFIX, n).into_bytes())
        .collect()
}

#[test]
fn combine() {
    let config = RunConfig::new(b"stick_me", b"", &stick_listing(), false, false, false).unwrap();
    assert_eq!(config.original_file, b"stick_me");
    assert_eq!(config.part_paths, stick_listing());
    assert!(!config.retain);

    let config =
        RunConfig::new(b"stick_me.p04", b"/tmp/x", &stick_listing(), true, false, true).unwrap();
    assert_eq!(config.original_file, b"/tmp/x/stick_me");
    assert_eq!(config.part_paths[9], b"/tmp/x/stick_me.p10");
    assert!(config.verbose);
}

#[test]
fn discovery_errors() {
    let err = RunConfig::new(b"other", b"", &stick_listing(), false, false, false).unwrap_err();
    assert!(matches!(err, StickError::NoParts));
    assert_eq!(err.exit_code(), 1);
    let mut listing = stick_listing();
    listing.remove(4);
    let err = RunConfig::new(b"stick_me", b"", &listing, false, false, false).unwrap_err();
    match err {
        StickError::IncompleteParts(found) => assert_eq!(found, listing),
        _ => panic!("expected incomplete parts"),
    }
}

#[test]
fn single_part_is_complete() {
    let listing = vec![b"a.p1".to_vec()];
    let config = RunConfig::new(b"a", b"d/", &listing, false, false, false).unwrap();
    assert_eq!(config.original_file, b"d/a");
    assert_eq!(config.part_paths, vec![b"d/a.p1".to_vec()]);
}

#[test]
fn paths() {
    assert_eq!(join_path(b"", b"a"), b"a");
    assert_eq!(join_path(b"/", b"a"), b"/a");
    assert_eq!(join_path(b"x/y", b"a"), b"x/y/a");
}

#[test]
fn required_size_calculation() {
    assert_eq!(total_part_size(5, 3, 3), 13);
    assert_eq!(total_part_size(5, 5, 1), 5);
    assert_eq!(total_part_size(u64::MAX, 1, 2), u64::MAX);
}

#[test]
fn join_space() {
    let listing = vec![b"a.p1".to_vec(), b"a.p2".to_vec(), b"a.p3".to_vec()];
    let config = RunConfig::new(b"a", b"", &listing, true, false, false).unwrap();
    assert_eq!(config.space_needed(5, 3), 13);
    let config = RunConfig::new(b"a", b"", &listing, false, false, false).unwrap();
    assert_eq!(config.space_needed(5, 3), 5);
    let io = std::io::Error::new(std::io::ErrorKind::Other, "gone");
    assert_eq!(StickError::DeletePart(b"a.p1".to_vec(), io).exit_code(), 2);
    assert_eq!(StickError::OriginalExists(b"a".to_vec()).exit_code(), 1);
    let io = std::io::Error::new(std::io::ErrorKind::PermissionDenied, "denied");
    assert_eq!(StickError::CreateOriginal(b"a".to_vec(), io).exit_code(), 2);
}

#[test]
fn join_plans() {
    let listing = vec![b"a.p1".to_vec(), b"a.p2".to_vec(), b"a.p3".to_vec()];
    let config = RunConfig::new(b"a", b"", &listing, false, false, false).unwrap();
    assert_eq!(
        config.join_steps(),
        vec![
            JoinStep::RenameInto(0),
            JoinStep::Append(1),
            JoinStep::Delete(1),
            JoinStep::Append(2),
            JoinStep::Delete(2),
        ]
    );
    let config = RunConfig::new(b"a", b"", &listing, true, false, false).unwrap();
    assert_eq!(
        config.join_steps(),
        vec![
            JoinStep::CreateEmpty,
            JoinStep::Append(0),
            JoinStep::Append(1),
            JoinStep::Append(2),
        ]
    );
    let config = RunConfig::new(b"a", b"", &listing[..1].to_vec(), false, false, false).unwrap();
    assert_eq!(config.join_steps(), vec![JoinStep::RenameInto(0)]);
}

#[test]
fn discovery_among_other_files() {
    let listing: Vec<Vec<u8>> = ["a", "stem", "stem.p1", "stem.p1x", "stem.p2", "stem.q3", "stem.p3", "z.p4"]
        .iter()
        .map(|n| n.as_bytes().to_vec())
        .collect();
    let config = RunConfig::new(b"stem.p2", b"d", &listing, false, false, false).unwrap();
    assert_eq!(config.original_file, b"d/stem");
    assert_eq!(
        config.part_paths,
        vec![b"d/stem.p1".to_vec(), b"d/stem.p2".to_vec(), b"d/stem.p3".to_vec()]
    );
    let mut fewer = listing.clone();
    fewer.remove(4);
    let err = RunConfig::new(b"stem", b"d", &fewer, false, false, false).unwrap_err();
    assert!(matches!(err, StickError::IncompleteParts(_)));
}
