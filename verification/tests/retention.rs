use agentos_core::retention::files::{measure, FileFacts, FileSweep, SweepCount, Unit};
use agentos_core::retention::log::{numbered, Rotation, RotationCount, RotationStep};
use agentos_core::retention::sweep::{
    cutoff_from_parsed, RetentionConfig, SpillConfig, SweepTask, SweptStore,
};
use agentos_core::retention::{
    cutoff_from_date, RetentionReport, RetentionSweep, RetentionTargets,
};
use std::collections::BTreeMap;

#[test]
fn an_empty_report_says_so() {
    assert!(RetentionReport::default().is_empty());
    assert_eq!(RetentionReport::default().message(), "nothing to sweep");
}

#[test]
fn a_date_becomes_utc_midnight() {
    assert_eq!(
        cutoff_from_date("2026-05-01").expect("parses"),
        1_777_593_600
    );
    assert_eq!(
        cutoff_from_date(" 1970-01-02 ").expect("parses"),
        24 * 60 * 60
    );
}

#[test]
fn a_vague_date_is_refused() {
    for input in ["last tuesday", "2026-13-01", "2026/05/01", "1969-12-31"] {
        assert!(
            cutoff_from_date(input).is_err(),
            "{input} must not be accepted"
        );
    }
}

#[test]
fn a_refused_date_says_why() {
    assert_eq!(
        cutoff_from_date("1969-12-31").expect_err("before the epoch"),
        "'1969-12-31' is before the Unix epoch"
    );
    assert!(cutoff_from_date(" soon")
        .expect_err("not a date")
        .starts_with("' soon' is not a YYYY-MM-DD date: "));
    assert_eq!(
        cutoff_from_parsed("x", Err("no".to_owned())).expect_err("as told"),
        "'x' is not a YYYY-MM-DD date: no"
    );
    assert_eq!(cutoff_from_parsed("x", Ok(7)), Ok(7));
}

#[test]
fn a_report_names_what_went() {
    let report = RetentionReport {
        traces_removed: 4,
        trace_bytes: 2048,
        ingress_rows_removed: 91,
        log_rotated: true,
        ..Default::default()
    };
    assert!(!report.is_empty());
    assert_eq!(
        report.message(),
        "4 traces (2048 bytes), 91 settled ingress rows, rotated the log"
    );
}

#[test]
fn the_line_lists_everything_in_order() {
    let mut report = RetentionReport::default();
    report.record_files(
        SweptStore::Attachments,
        SweepCount {
            removed: 1,
            bytes: 2,
        },
    );
    report.record_files(
        SweptStore::Spill,
        SweepCount {
            removed: 3,
            bytes: 4,
        },
    );
    report.jobs_reaped = 5;
    report.record_rotation(RotationCount {
        rotated: false,
        discarded: 6,
    });
    assert_eq!(
        report.message(),
        "1 attachments (2 bytes), 3 spill runs (4 bytes), 5 finished jobs, 6 old log files"
    );
}

const DAY: i128 = 24 * 60 * 60 * 1_000_000_000;
const NOW: i128 = 20_000 * DAY;

fn unit(age_days: i128, bytes: u64) -> Unit {
    Unit {
        newest: NOW - age_days * DAY,
        bytes,
    }
}

/// Runs a sweep to its end; every removal goes as `removes` says.
fn run(mut sweep: FileSweep, removes: &dyn Fn(usize) -> bool) -> (Vec<usize>, SweepCount) {
    let mut tried = Vec::new();
    while let Some(position) = sweep.next() {
        tried.push(position);
        sweep.settle(removes(position));
    }
    (tried, sweep.count)
}

#[test]
fn an_age_ceiling_removes_only_the_old_files() {
    let units = vec![unit(3, 3), unit(0, 3)];
    let (tried, count) = run(FileSweep::new(units, Some(NOW - DAY), None), &|_| true);
    assert_eq!(count.removed, 1);
    assert_eq!(tried, vec![0]);
}

#[test]
fn a_quota_evicts_oldest_first_and_then_stops() {
    // 300 bytes on disk, 150 allowed: the two oldest go, the newest stays.
    let units = vec![unit(1, 100), unit(3, 100), unit(2, 100)];
    let (tried, count) = run(FileSweep::new(units, None, Some(150)), &|_| true);
    assert_eq!(count.removed, 2);
    assert_eq!(count.bytes, 200);
    assert_eq!(tried, vec![1, 2]);
}

#[test]
fn a_nested_unit_is_removed_whole() {
    let files = vec![
        FileFacts {
            modified: Some(NOW - 10 * DAY),
            bytes: 10,
        },
        FileFacts {
            modified: Some(NOW - 10 * DAY),
            bytes: 10,
        },
    ];
    let unit = measure(&files);
    assert_eq!(unit.bytes, 20);
    let (_, count) = run(FileSweep::new(vec![unit], Some(NOW - DAY), None), &|_| true);
    assert_eq!(count.removed, 1);
    assert_eq!(count.bytes, 20);
}

#[test]
fn a_unit_is_as_old_as_its_newest_write() {
    let files = vec![
        FileFacts {
            modified: Some(NOW - 30 * DAY),
            bytes: 3,
        },
        FileFacts {
            modified: Some(NOW),
            bytes: 3,
        },
        FileFacts {
            modified: None,
            bytes: 1,
        },
    ];
    let unit = measure(&files);
    assert_eq!(unit.newest, NOW);
    let (_, count) = run(FileSweep::new(vec![unit], Some(NOW - DAY), None), &|_| true);
    assert_eq!(count.removed, 0);
}

#[test]
fn no_ceiling_removes_nothing() {
    let units = vec![unit(365, 1)];
    let (tried, count) = run(FileSweep::new(units, None, None), &|_| true);
    assert!(tried.is_empty());
    assert_eq!(count.removed, 0);
}

#[test]
fn an_empty_unit_counts_as_ancient() {
    let unit = measure(&Vec::new());
    assert_eq!(unit.newest, 0);
    let (_, count) = run(FileSweep::new(vec![unit], Some(NOW - 1), None), &|_| true);
    assert_eq!(count.removed, 1);
}

#[test]
fn a_missing_root_is_not_a_failure() {
    let (tried, count) = run(
        FileSweep::new(Vec::new(), Some(NOW), Some(1024)),
        &|_| true,
    );
    assert!(tried.is_empty());
    assert_eq!(
        count,
        SweepCount {
            removed: 0,
            bytes: 0
        }
    );
}

#[test]
fn a_unit_that_cannot_be_removed_is_passed_over() {
    let units = vec![unit(3, 100), unit(2, 100), unit(1, 100)];
    let (tried, count) = run(FileSweep::new(units, None, Some(200)), &|p| p != 0);
    assert_eq!(tried, vec![0, 1]);
    assert_eq!(count.removed, 1);
    // Age goes first, and what it took does not count toward the quota.
    let units = vec![unit(9, 100), unit(2, 100), unit(1, 100)];
    let (tried, _) = run(
        FileSweep::new(units, Some(NOW - 5 * DAY), Some(200)),
        &|_| true,
    );
    assert_eq!(tried, vec![0]);
}

/// Rotates a log whose files are these; number 0 is the live one.
fn rotate(
    files: &mut BTreeMap<usize, Vec<u8>>,
    max_bytes: u64,
    keep: usize,
) -> (Vec<RotationStep>, RotationCount) {
    let len = files.get(&0).map(|live| live.len() as u64);
    let mut rotation = Rotation::start(len, max_bytes, keep).expect("it is full");
    let mut taken = Vec::new();
    while rotation.step != RotationStep::Done {
        taken.push(rotation.step);
        let succeeded = match rotation.step {
            RotationStep::Discard(index) => files.remove(&index).is_some(),
            RotationStep::Shift(index) => match files.remove(&index) {
                Some(file) => files.insert(index + 1, file).is_none(),
                None => false,
            },
            RotationStep::Live => match files.remove(&0) {
                Some(file) => files.insert(1, file).is_none(),
                None => false,
            },
            RotationStep::Done => true,
        };
        rotation.settle(succeeded);
    }
    (taken, rotation.count)
}

fn log_files(rotations: &[(usize, &str)]) -> BTreeMap<usize, Vec<u8>> {
    let mut files: BTreeMap<usize, Vec<u8>> = rotations
        .iter()
        .map(|(index, text)| (*index, text.as_bytes().to_vec()))
        .collect();
    files.insert(0, vec![b'x'; 2048]);
    files
}

#[test]
fn a_small_log_is_left_alone() {
    assert!(Rotation::start(Some(9), 1024, 3).is_none());
}

#[test]
fn a_missing_log_is_not_a_failure() {
    assert!(Rotation::start(None, 1024, 3).is_none());
}

#[test]
fn rotation_off_never_rotates() {
    assert!(Rotation::start(Some(4096), 0, 3).is_none());
    assert!(Rotation::start(Some(4096), 1024, 0).is_none());
}

#[test]
fn a_full_log_moves_aside_and_the_live_path_is_free() {
    let mut files = log_files(&[]);
    let (taken, count) = rotate(&mut files, 1024, 3);
    assert_eq!(taken[0], RotationStep::Discard(3));
    assert_eq!(
        taken[taken.len() - 3..],
        [
            RotationStep::Shift(2),
            RotationStep::Shift(1),
            RotationStep::Live
        ]
    );
    assert!(count.rotated);
    assert_eq!(count.discarded, 0);
    assert!(!files.contains_key(&0), "the live path is free for the next line");
    assert_eq!(files[&1].len(), 2048);
    assert_eq!(numbered("/w/gateway.log", 1), "/w/gateway.log.1");
}

#[test]
fn rotations_shift_along_and_the_oldest_is_discarded() {
    let mut files = log_files(&[(1, "first rotation"), (2, "oldest")]);
    let (_, count) = rotate(&mut files, 1024, 2);
    assert!(count.rotated);
    assert_eq!(count.discarded, 1);
    assert_eq!(files[&2], b"first rotation".to_vec());
    assert!(!files.contains_key(&3));
}

#[test]
fn a_gap_in_the_numbers_keeps_nothing_past_the_kept() {
    let mut files = log_files(&[(3, "old")]);
    let (taken, count) = rotate(&mut files, 1024, 2);
    assert_eq!(
        count,
        RotationCount {
            rotated: true,
            discarded: 1
        }
    );
    assert_eq!(files.keys().copied().collect::<Vec<usize>>(), vec![1]);
    assert_eq!(files[&1].len(), 2048);
    // Every number up to the last one a pass goes to is tried.
    for index in 2..=66 {
        assert!(taken.contains(&RotationStep::Discard(index)));
    }
}

#[test]
fn cleaning_up_after_a_hand_filled_directory_ends() {
    let many: Vec<(usize, &str)> = (1..1000).map(|index| (index, "old")).collect();
    let mut files = log_files(&many);
    let (_, count) = rotate(&mut files, 1024, 2);
    assert_eq!(count.discarded, 65);
    assert!(files.contains_key(&67));
}

#[test]
fn a_sweep_covers_the_configured_stores_in_order() {
    let retention = RetentionConfig {
        trace_max_age_secs: Some(60),
        trace_max_bytes: 0,
        attachment_max_age_secs: None,
        attachment_max_bytes: 1024,
        ingress_max_age_secs: Some(120),
        gateway_log_max_bytes: 2048,
        gateway_log_keep: 3,
    };
    let spill_config = SpillConfig {
        retention_secs: None,
        max_bytes: Some(10),
    };
    let targets = RetentionTargets {
        trace_dir: Some("/w/traces".to_owned()),
        attachments_dir: Some("/w/attachments".to_owned()),
        gateway_log: Some("/w/gateway.log".to_owned()),
    };
    let mut sweep = RetentionSweep {
        retention: &retention,
        spill_config: &spill_config,
        targets: &targets,
        spill_root: None,
        has_ingress: true,
        has_jobs: true,
        completed_job_max_age_secs: None,
    };
    let tasks = sweep.tasks();
    assert_eq!(tasks.len(), 4);
    assert!(matches!(
        &tasks[0],
        SweepTask::Files { store: SweptStore::Traces, depth: 1, max_age_secs: Some(60), max_bytes: None, .. }
    ));
    assert!(matches!(
        &tasks[1],
        SweepTask::Files { store: SweptStore::Attachments, depth: 3, max_age_secs: None, max_bytes: Some(1024), .. }
    ));
    assert!(matches!(
        &tasks[2],
        SweepTask::PruneIngress { max_age_secs: 120 }
    ));
    assert!(matches!(
        &tasks[3],
        SweepTask::RotateLog { keep: 3, .. }
    ));
    sweep.has_ingress = false;
    sweep.completed_job_max_age_secs = Some(0);
    sweep.spill_root = Some("/w/spill".to_owned());
    assert!(matches!(
        &sweep.tasks()[3],
        SweepTask::ReapJobs { max_age_secs: 0 }
    ));
}
