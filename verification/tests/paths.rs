use agentos_core::paths::durable::{
    after_step, DurableWriteError, FailureKind, FailurePath, WriteNext, WriteStep,
};
use agentos_core::paths::nofollow::{
    describe, is_symlink_refusal, step_error, EntryFacts, EntryKind, OpenFailure,
};
use agentos_core::paths::rooted::{components, ContainmentError};
use agentos_core::paths::segment::{
    displayed_segment, path_segment, PathSegmentError, MAX_SEGMENT_BYTES,
};

#[test]
fn an_ordinary_name_is_accepted() {
    assert_eq!(path_segment("task id", "task-42"), Ok("task-42"));
    assert_eq!(path_segment("task id", "main"), Ok("main"));
    // Unicode is a name, not an attack; only separators and control
    // characters are.
    assert_eq!(path_segment("sub-agent name", "研究员"), Ok("研究员"));
}

#[test]
fn an_absolute_path_is_not_a_name() {
    assert!(matches!(
        path_segment("sub-agent name", "/etc/cron.d"),
        Err(PathSegmentError::Separator { .. })
    ));
}

#[test]
fn traversal_in_any_shape_is_refused() {
    for value in ["..", "../..", "a/../b", "./x", "sessions/../../etc"] {
        assert!(
            path_segment("task id", value).is_err(),
            "{value:?} must not be usable as a single component"
        );
    }
}

#[test]
fn a_backslash_is_refused_even_though_unix_allows_it() {
    assert!(matches!(
        path_segment("template name", r"..\..\windows"),
        Err(PathSegmentError::Separator { .. })
    ));
}

#[test]
fn a_nul_or_newline_cannot_be_smuggled_into_a_filename() {
    assert!(matches!(
        path_segment("session id", "a\0b"),
        Err(PathSegmentError::Control { .. })
    ));
    assert!(matches!(
        path_segment("session id", "a\nb"),
        Err(PathSegmentError::Control { .. })
    ));
}

#[test]
fn the_empty_string_names_nothing() {
    assert_eq!(
        path_segment("task id", ""),
        Err(PathSegmentError::Empty { kind: "task id" })
    );
}

#[test]
fn a_name_longer_than_the_filesystem_allows_is_refused_by_name() {
    let long = "x".repeat(MAX_SEGMENT_BYTES + 1);
    let error = path_segment("task id", &long).expect_err("too long");
    assert!(error.message().contains("task id"), "{}", error.message());
}

#[test]
fn the_error_says_which_identifier_was_at_fault() {
    let error = path_segment("sub-agent name", "../escape").expect_err("traversal");
    assert!(
        error.message().contains("sub-agent name"),
        "{}",
        error.message()
    );
}

#[test]
fn the_longest_name_is_still_a_name() {
    let longest = "x".repeat(MAX_SEGMENT_BYTES);
    assert_eq!(path_segment("task id", &longest), Ok(longest.as_str()));
    // The limit is in bytes: 128 two-byte letters are too many.
    let wide = "é".repeat(128);
    assert!(matches!(
        path_segment("task id", &wide),
        Err(PathSegmentError::TooLong { len: 256, .. })
    ));
}

#[test]
fn a_relative_marker_is_its_own_refusal() {
    for value in [".", ".."] {
        assert!(matches!(
            path_segment("task id", value),
            Err(PathSegmentError::RelativeMarker { .. })
        ));
    }
}

#[test]
fn a_displayed_value_is_held_to_the_same_rule() {
    assert_eq!(
        displayed_segment("run number", &42).expect("digits are a name"),
        "42"
    );
    assert!(displayed_segment("run number", &"a/b").is_err());
}

#[test]
fn every_refusal_quotes_what_was_refused() {
    let error = path_segment("task id", "a\"/b").expect_err("a separator");
    // The value is quoted and escaped, not pasted.
    assert!(error.message().contains(r#""a\"/b""#), "{}", error.message());
}

#[test]
fn a_relative_path_is_cut_into_its_names() {
    assert_eq!(
        components("/root", "notes/today.md").expect("an ordinary path"),
        vec!["notes", "today.md"]
    );
    assert_eq!(
        components("/root", "./notes/./today.md").expect("dots stay in place"),
        vec!["notes", "today.md"]
    );
}

#[test]
fn a_path_cannot_leave_its_root() {
    assert!(matches!(
        components("/root", "/etc/passwd"),
        Err(ContainmentError::Absolute { .. })
    ));
    assert!(matches!(
        components("/root", "notes/../../etc"),
        Err(ContainmentError::Traversal { .. })
    ));
    let error = match components("/root", "../escape") {
        Err(error) => error,
        Ok(names) => panic!("{names:?} left the root"),
    };
    assert!(error.message().contains("../escape"), "{}", error.message());
}

#[test]
fn a_component_that_is_no_name_is_refused_as_one() {
    assert!(matches!(
        components("/root", "notes/a\u{1}b"),
        Err(ContainmentError::Segment(PathSegmentError::Control { .. }))
    ));
    assert!(matches!(
        components("/root", "./."),
        Err(ContainmentError::Traversal { .. })
    ));
    assert_eq!(
        ContainmentError::Root {
            root: "/root".to_owned(),
            source: "denied".to_owned()
        }
        .message(),
        "cannot open /root: denied"
    );
    assert_eq!(
        ContainmentError::Unsupported.message(),
        "directory-relative filesystem access is not available on this platform"
    );
}

#[test]
fn a_durable_write_succeeds_only_after_its_last_step() {
    let steps = [
        WriteStep::MakeParent,
        WriteStep::OpenTemporary,
        WriteStep::WriteTemporary,
        WriteStep::Rename,
        WriteStep::SyncParent,
    ];
    for (index, step) in steps.iter().enumerate() {
        let next = after_step(*step, true);
        match steps.get(index + 1) {
            Some(following) => assert_eq!(next, WriteNext::Perform(*following)),
            None => assert_eq!(next, WriteNext::Done),
        }
    }
}

#[test]
fn a_failed_write_leaves_no_temporary_behind() {
    assert_eq!(
        after_step(WriteStep::WriteTemporary, false),
        WriteNext::Fail {
            kind: FailureKind::Write,
            path: FailurePath::Temporary,
            remove_temporary: true,
        }
    );
    assert_eq!(
        after_step(WriteStep::Rename, false),
        WriteNext::Fail {
            kind: FailureKind::Replace,
            path: FailurePath::Destination,
            remove_temporary: true,
        }
    );
}

#[test]
fn a_write_error_names_the_path_it_failed_at() {
    let source = std::io::Error::new(std::io::ErrorKind::Other, "disk full");
    let error = DurableWriteError::Write {
        path: "/w/state.json.tmp".to_owned(),
        source,
    };
    assert_eq!(error.path(), "/w/state.json.tmp");
    assert_eq!(error.into_io().to_string(), "disk full");
    let denied = || std::io::Error::from(std::io::ErrorKind::PermissionDenied);
    for error in [
        DurableWriteError::Prepare {
            path: "/w".to_owned(),
            source: denied(),
        },
        DurableWriteError::Replace {
            path: "/w".to_owned(),
            source: denied(),
        },
    ] {
        assert_eq!(error.path(), "/w");
        assert_eq!(
            error.into_io().kind(),
            std::io::ErrorKind::PermissionDenied
        );
    }
}

#[test]
fn a_link_in_the_way_is_told_from_an_ordinary_failure() {
    assert!(is_symlink_refusal(OpenFailure::Link, None));
    assert!(is_symlink_refusal(
        OpenFailure::NotDirectory,
        Some(EntryKind::Link)
    ));
    assert!(!is_symlink_refusal(
        OpenFailure::NotDirectory,
        Some(EntryKind::Other)
    ));
    assert!(!is_symlink_refusal(OpenFailure::Other, Some(EntryKind::Link)));
    assert_eq!(
        step_error("/root", "a/b", "a", true, "").message(),
        "a in a/b is a symbolic link, and paths beneath /root are not followed"
    );
    assert_eq!(
        step_error("/root", "a/b", "a", false, "denied").message(),
        "a/b (beneath /root): denied"
    );
}

#[test]
fn a_listed_name_is_described_without_following_it() {
    let facts = |kind, size, modified| {
        Some(EntryFacts {
            kind,
            size,
            modified,
        })
    };
    let link = describe("shortcut", facts(EntryKind::Link, 9, 100));
    assert!(link.is_symlink && !link.is_dir);
    assert_eq!(link.modified, Some((100, 0)));
    let dir = describe("notes", facts(EntryKind::Directory, -1, -1));
    assert!(dir.is_dir);
    assert_eq!((dir.len, dir.modified), (0, None));
    let unknown = describe("gone", None);
    assert_eq!(unknown.name, "gone");
    assert!(!unknown.is_dir && !unknown.is_symlink);
}
