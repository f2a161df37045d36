//! What one maintenance sweep covers, and the line it is reported with.

use super::files::SweepCount;
use super::log::RotationCount;
use crate::lists::{join, joined, joining_two_lists};
use crate::text::{
    begins, decimal, ends_of_a_text, holding_is_standing_between, holds, push_decimal, texts, trim,
    trimmed,
};
use vstd::prelude::*;

verus! {

/// Where the swept stores live.
pub struct RetentionTargets {
    /// Directory of per-run trace files.
    pub trace_dir: Option<String>,
    /// Root of the attachment tree.
    pub attachments_dir: Option<String>,
    /// The gateway's own log file.
    pub gateway_log: Option<String>,
}

/// The ceilings of the swept stores. Zero bytes means no ceiling.
pub struct RetentionConfig {
    pub trace_max_age_secs: Option<u64>,
    pub trace_max_bytes: u64,
    pub attachment_max_age_secs: Option<u64>,
    pub attachment_max_bytes: u64,
    pub ingress_max_age_secs: Option<u64>,
    pub gateway_log_max_bytes: u64,
    pub gateway_log_keep: usize,
}

/// The ceilings of spilled tool output.
pub struct SpillConfig {
    pub retention_secs: Option<u64>,
    pub max_bytes: Option<u64>,
}

/// Which store of files a task sweeps.
#[derive(Clone, Copy, Debug, PartialEq, Eq, Structural)]
pub enum SweptStore {
    Traces,
    Attachments,
    Spill,
}

/// One thing a sweep does.
#[allow(inconsistent_fields)]
pub enum SweepTask {
    /// Sweep the units `depth` levels below a root.
    Files {
        store: SweptStore,
        root: String,
        depth: usize,
        max_age_secs: Option<u64>,
        max_bytes: Option<u64>,
    },
    /// Drop settled ingress rows past an age.
    PruneIngress { max_age_secs: u64 },
    /// Reap finished jobs past an age.
    ReapJobs { max_age_secs: u64 },
    /// Rotate the log when it has reached a size.
    RotateLog { path: String, max_bytes: u64, keep: usize },
}

/// What a [`SweepTask`] stands for.
#[allow(inconsistent_fields)]
pub enum TaskView {
    Files {
        store: SweptStore,
        root: Seq<char>,
        depth: nat,
        max_age_secs: Option<u64>,
        max_bytes: Option<u64>,
    },
    PruneIngress { max_age_secs: u64 },
    ReapJobs { max_age_secs: u64 },
    RotateLog { path: Seq<char>, max_bytes: u64, keep: nat },
}

impl View for SweepTask {
    type V = TaskView;

    open spec fn view(&self) -> TaskView {
        match *self {
            SweepTask::Files { store, root, depth, max_age_secs, max_bytes } => TaskView::Files {
                store,
                root: root@,
                depth: depth as nat,
                max_age_secs,
                max_bytes,
            },
            SweepTask::PruneIngress { max_age_secs } => TaskView::PruneIngress { max_age_secs },
            SweepTask::ReapJobs { max_age_secs } => TaskView::ReapJobs { max_age_secs },
            SweepTask::RotateLog { path, max_bytes, keep } => TaskView::RotateLog {
                path: path@,
                max_bytes,
                keep: keep as nat,
            },
        }
    }
}

/// The tasks of a list.
pub open spec fn tasks_view(tasks: Seq<SweepTask>) -> Seq<TaskView> {
    tasks.map_values(|t: SweepTask| t@)
}

/// Everything one sweep needs.
pub struct RetentionSweep<'a> {
    pub retention: &'a RetentionConfig,
    pub spill_config: &'a SpillConfig,
    pub targets: &'a RetentionTargets,
    /// Where spilled output lives, if anywhere.
    pub spill_root: Option<String>,
    /// Whether there is an ingress ledger.
    pub has_ingress: bool,
    /// Whether there is a job registry.
    pub has_jobs: bool,
    /// How long a finished job is kept; `None` keeps it.
    pub completed_job_max_age_secs: Option<u64>,
}

/// A byte ceiling, when it is one.
pub open spec fn ceiling(bytes: u64) -> Option<u64> {
    if bytes > 0 {
        Some(bytes)
    } else {
        None
    }
}

/// A task that stands alone, or none.
pub open spec fn maybe(task: Option<TaskView>) -> Seq<TaskView> {
    match task {
        Some(task) => seq![task],
        None => Seq::empty(),
    }
}

/// What a sweep does, in order: traces, attachments, spill, ingress, jobs, log.
pub open spec fn sweep_tasks(s: RetentionSweep<'_>) -> Seq<TaskView> {
    maybe(
        match s.targets.trace_dir {
            Some(root) => Some(
                TaskView::Files {
                    store: SweptStore::Traces,
                    root: root@,
                    depth: 1,
                    max_age_secs: s.retention.trace_max_age_secs,
                    max_bytes: ceiling(s.retention.trace_max_bytes),
                },
            ),
            None => None,
        },
    ) + maybe(
        match s.targets.attachments_dir {
            Some(root) => Some(
                TaskView::Files {
                    store: SweptStore::Attachments,
                    root: root@,
                    depth: 3,
                    max_age_secs: s.retention.attachment_max_age_secs,
                    max_bytes: ceiling(s.retention.attachment_max_bytes),
                },
            ),
            None => None,
        },
    ) + maybe(
        match s.spill_root {
            Some(root) => Some(
                TaskView::Files {
                    store: SweptStore::Spill,
                    root: root@,
                    depth: 1,
                    max_age_secs: s.spill_config.retention_secs,
                    max_bytes: s.spill_config.max_bytes,
                },
            ),
            None => None,
        },
    ) + maybe(
        match s.retention.ingress_max_age_secs {
            Some(max_age_secs) => if s.has_ingress {
                Some(TaskView::PruneIngress { max_age_secs })
            } else {
                None
            },
            None => None,
        },
    ) + maybe(
        match s.completed_job_max_age_secs {
            Some(max_age_secs) => if s.has_jobs {
                Some(TaskView::ReapJobs { max_age_secs })
            } else {
                None
            },
            None => None,
        },
    ) + maybe(
        match s.targets.gateway_log {
            Some(path) => Some(
                TaskView::RotateLog {
                    path: path@,
                    max_bytes: s.retention.gateway_log_max_bytes,
                    keep: s.retention.gateway_log_keep as nat,
                },
            ),
            None => None,
        },
    )
}

fn nonzero(bytes: u64) -> (out: Option<u64>)
    ensures
        out == ceiling(bytes),
{
    if bytes > 0 {
        Some(bytes)
    } else {
        None
    }
}

fn push_task(tasks: &mut Vec<SweepTask>, task: SweepTask)
    ensures
        tasks_view(final(tasks)@) == tasks_view(old(tasks)@).push(task@),
{
    let ghost before = tasks_view(tasks@);
    let ghost view = task@;
    tasks.push(task);
    assert(tasks_view(tasks@) =~= before.push(view));
}

impl<'a> RetentionSweep<'a> {
    /// What this sweep does, in order. Each task is performed on its own, and
    /// one that fails leaves the others alone.
    pub fn tasks(&self) -> (tasks: Vec<SweepTask>)
        ensures
            tasks_view(tasks@) == sweep_tasks(*self),
    {
        let mut tasks: Vec<SweepTask> = Vec::new();
        if let Some(root) = &self.targets.trace_dir {
            push_task(
                &mut tasks,
                SweepTask::Files {
                    store: SweptStore::Traces,
                    root: root.clone(),
                    depth: 1,
                    max_age_secs: self.retention.trace_max_age_secs,
                    max_bytes: nonzero(self.retention.trace_max_bytes),
                },
            );
        }
        if let Some(root) = &self.targets.attachments_dir {
            push_task(
                &mut tasks,
                SweepTask::Files {
                    store: SweptStore::Attachments,
                    root: root.clone(),
                    depth: 3,
                    max_age_secs: self.retention.attachment_max_age_secs,
                    max_bytes: nonzero(self.retention.attachment_max_bytes),
                },
            );
        }
        if let Some(root) = &self.spill_root {
            push_task(
                &mut tasks,
                SweepTask::Files {
                    store: SweptStore::Spill,
                    root: root.clone(),
                    depth: 1,
                    max_age_secs: self.spill_config.retention_secs,
                    max_bytes: self.spill_config.max_bytes,
                },
            );
        }
        if self.has_ingress {
            if let Some(max_age_secs) = self.retention.ingress_max_age_secs {
                push_task(&mut tasks, SweepTask::PruneIngress { max_age_secs });
            }
        }
        if self.has_jobs {
            if let Some(max_age_secs) = self.completed_job_max_age_secs {
                push_task(&mut tasks, SweepTask::ReapJobs { max_age_secs });
            }
        }
        if let Some(path) = &self.targets.gateway_log {
            push_task(
                &mut tasks,
                SweepTask::RotateLog {
                    path: path.clone(),
                    max_bytes: self.retention.gateway_log_max_bytes,
                    keep: self.retention.gateway_log_keep,
                },
            );
        }
        assert(tasks_view(tasks@) =~= sweep_tasks(*self));
        tasks
    }
}

/// What one sweep removed.
#[derive(Clone, Copy, Debug, PartialEq, Eq, Structural)]
pub struct RetentionReport {
    pub traces_removed: usize,
    pub trace_bytes: u64,
    pub attachments_removed: usize,
    pub attachment_bytes: u64,
    pub spill_runs_removed: usize,
    pub spill_bytes: u64,
    pub ingress_rows_removed: usize,
    pub jobs_reaped: usize,
    pub log_rotated: bool,
    pub logs_discarded: usize,
}

/// The report of a sweep that did nothing.
pub open spec fn idle_report() -> RetentionReport {
    RetentionReport {
        traces_removed: 0,
        trace_bytes: 0,
        attachments_removed: 0,
        attachment_bytes: 0,
        spill_runs_removed: 0,
        spill_bytes: 0,
        ingress_rows_removed: 0,
        jobs_reaped: 0,
        log_rotated: false,
        logs_discarded: 0,
    }
}

impl Default for RetentionReport {
    fn default() -> (out: RetentionReport)
        ensures
            out == idle_report(),
    {
        RetentionReport {
            traces_removed: 0,
            trace_bytes: 0,
            attachments_removed: 0,
            attachment_bytes: 0,
            spill_runs_removed: 0,
            spill_bytes: 0,
            ingress_rows_removed: 0,
            jobs_reaped: 0,
            log_rotated: false,
            logs_discarded: 0,
        }
    }
}

/// One store's part of the line.
pub open spec fn store_part(removed: usize, label: Seq<char>, bytes: u64) -> Seq<Seq<char>> {
    if removed > 0 {
        seq![decimal(removed as nat) + " "@ + label + " ("@ + decimal(bytes as nat) + " bytes)"@]
    } else {
        Seq::empty()
    }
}

/// A counted part of the line.
pub open spec fn count_part(count: usize, label: Seq<char>) -> Seq<Seq<char>> {
    if count > 0 {
        seq![decimal(count as nat) + label]
    } else {
        Seq::empty()
    }
}

/// The parts of the line, in order.
pub open spec fn report_parts(r: RetentionReport) -> Seq<Seq<char>> {
    store_part(r.traces_removed, "traces"@, r.trace_bytes) + store_part(
        r.attachments_removed,
        "attachments"@,
        r.attachment_bytes,
    ) + store_part(r.spill_runs_removed, "spill runs"@, r.spill_bytes) + count_part(
        r.ingress_rows_removed,
        " settled ingress rows"@,
    ) + count_part(r.jobs_reaped, " finished jobs"@) + (if r.log_rotated {
        seq!["rotated the log"@]
    } else {
        Seq::empty()
    }) + count_part(r.logs_discarded, " old log files"@)
}

/// The line a sweep is reported with.
pub open spec fn report_line(r: RetentionReport) -> Seq<char> {
    if report_parts(r).len() == 0 {
        "nothing to sweep"@
    } else {
        joined(report_parts(r), ", "@)
    }
}

fn push_part(parts: &mut Vec<String>, part: String)
    ensures
        texts(final(parts)@) == texts(old(parts)@).push(part@),
{
    let ghost before = texts(parts@);
    let ghost view = part@;
    parts.push(part);
    assert(texts(parts@) =~= before.push(view));
}

fn push_store(parts: &mut Vec<String>, removed: usize, label: &str, bytes: u64)
    ensures
        texts(final(parts)@) == texts(old(parts)@) + store_part(removed, label@, bytes),
{
    if removed > 0 {
        let mut part = String::new();
        push_decimal(&mut part, removed as u64);
        part.push_str(" ");
        part.push_str(label);
        part.push_str(" (");
        push_decimal(&mut part, bytes);
        part.push_str(" bytes)");
        assert(part@ =~= store_part(removed, label@, bytes)[0]);
        push_part(parts, part);
    }
    assert(texts(parts@) =~= texts(old(parts)@) + store_part(removed, label@, bytes));
}

fn push_count(parts: &mut Vec<String>, count: usize, label: &str)
    ensures
        texts(final(parts)@) == texts(old(parts)@) + count_part(count, label@),
{
    if count > 0 {
        let mut part = String::new();
        push_decimal(&mut part, count as u64);
        part.push_str(label);
        assert(part@ =~= count_part(count, label@)[0]);
        push_part(parts, part);
    }
    assert(texts(parts@) =~= texts(old(parts)@) + count_part(count, label@));
}

impl RetentionReport {
    /// Whether the sweep did nothing at all.
    pub fn is_empty(&self) -> (empty: bool)
        ensures
            empty == (*self == idle_report()),
    {
        self.traces_removed == 0 && self.trace_bytes == 0 && self.attachments_removed == 0
            && self.attachment_bytes == 0 && self.spill_runs_removed == 0 && self.spill_bytes == 0
            && self.ingress_rows_removed == 0 && self.jobs_reaped == 0 && !self.log_rotated
            && self.logs_discarded == 0
    }

    /// The line the gateway logs.
    pub fn message(&self) -> (out: String)
        ensures
            out@ == report_line(*self),
    {
        let mut parts: Vec<String> = Vec::new();
        assert(texts(parts@) =~= Seq::empty());
        push_store(&mut parts, self.traces_removed, "traces", self.trace_bytes);
        push_store(&mut parts, self.attachments_removed, "attachments", self.attachment_bytes);
        push_store(&mut parts, self.spill_runs_removed, "spill runs", self.spill_bytes);
        push_count(&mut parts, self.ingress_rows_removed, " settled ingress rows");
        push_count(&mut parts, self.jobs_reaped, " finished jobs");
        if self.log_rotated {
            push_part(&mut parts, "rotated the log".to_owned());
        }
        push_count(&mut parts, self.logs_discarded, " old log files");
        assert(texts(parts@) =~= report_parts(*self));
        assert(texts(parts@).len() == parts@.len());
        if parts.len() == 0 {
            return "nothing to sweep".to_owned();
        }
        join(&parts, ", ")
    }

    /// Enters what sweeping one store of files came to.
    pub fn record_files(&mut self, store: SweptStore, swept: SweepCount)
        ensures
            *final(self) == match store {
                SweptStore::Traces => RetentionReport {
                    traces_removed: swept.removed,
                    trace_bytes: swept.bytes,
                    ..*old(self)
                },
                SweptStore::Attachments => RetentionReport {
                    attachments_removed: swept.removed,
                    attachment_bytes: swept.bytes,
                    ..*old(self)
                },
                SweptStore::Spill => RetentionReport {
                    spill_runs_removed: swept.removed,
                    spill_bytes: swept.bytes,
                    ..*old(self)
                },
            },
    {
        match store {
            SweptStore::Traces => {
                self.traces_removed = swept.removed;
                self.trace_bytes = swept.bytes;
            },
            SweptStore::Attachments => {
                self.attachments_removed = swept.removed;
                self.attachment_bytes = swept.bytes;
            },
            SweptStore::Spill => {
                self.spill_runs_removed = swept.removed;
                self.spill_bytes = swept.bytes;
            },
        }
    }

    /// Enters what rotating the log came to.
    pub fn record_rotation(&mut self, rotated: RotationCount)
        ensures
            *final(self) == (RetentionReport {
                log_rotated: rotated.rotated,
                logs_discarded: rotated.discarded,
                ..*old(self)
            }),
    {
        self.log_rotated = rotated.rotated;
        self.logs_discarded = rotated.discarded;
    }
}

/// How an operator writes a date, in `chrono`'s notation.
pub const DATE_FORMAT: &'static str = "%Y-%m-%d";

/// What `chrono` reads a date in a format as: the Unix second that day begins
/// in UTC, or why it does not parse.
pub uninterp spec fn midnight_of(text: Seq<char>, format: Seq<char>) -> Result<i64, Seq<char>>;

/// `chrono::NaiveDate::parse_from_str`, taken to midnight UTC: a function of
/// the text and the format alone.
#[verifier::external_body]
fn parse_date(text: &str, format: &str) -> (out: Result<i64, String>)
    ensures
        (match out {
            Ok(second) => Ok(second),
            Err(why) => Err(why@),
        }) == midnight_of(text@, format@),
{
    match chrono::NaiveDate::parse_from_str(text, format) {
        Ok(date) => Ok(date.and_time(chrono::NaiveTime::MIN).and_utc().timestamp()),
        Err(error) => Err(error.to_string()),
    }
}

/// The cutoff a date stands for, given what it parses to, or why it is
/// refused.
pub open spec fn cutoff(date: Seq<char>, parsed: Result<i64, Seq<char>>) -> Result<u64, Seq<char>> {
    match parsed {
        Ok(second) => if second >= 0 {
            Ok(second as u64)
        } else {
            Err("'"@ + date + "' is before the Unix epoch"@)
        },
        Err(why) => Err("'"@ + date + "' is not a YYYY-MM-DD date: "@ + why),
    }
}

/// Decides [`cutoff`].
pub fn cutoff_from_parsed(date: &str, parsed: Result<i64, String>) -> (out: Result<u64, String>)
    ensures
        out matches Ok(second) ==> cutoff(
            date@,
            (match parsed {
                Ok(s) => Ok(s),
                Err(why) => Err(why@),
            }),
        ) == Ok::<_, Seq<char>>(second),
        out matches Err(text) ==> cutoff(
            date@,
            (match parsed {
                Ok(s) => Ok(s),
                Err(why) => Err(why@),
            }),
        ) == Err::<u64, _>(text@),
{
    match parsed {
        Ok(second) => {
            if second >= 0 {
                Ok(second as u64)
            } else {
                let mut text = "'".to_owned();
                text.push_str(date);
                text.push_str("' is before the Unix epoch");
                Err(text)
            }
        },
        Err(why) => {
            let mut text = "'".to_owned();
            text.push_str(date);
            text.push_str("' is not a YYYY-MM-DD date: ");
            text.push_str(why.as_str());
            Err(text)
        },
    }
}

/// Turns a `YYYY-MM-DD` written by an operator into the Unix second that day
/// begins, UTC.
pub fn cutoff_from_date(date: &str) -> (out: Result<u64, String>)
    ensures
        out matches Ok(second) ==> cutoff(date@, midnight_of(trimmed(date@), DATE_FORMAT@)) == Ok::<_, Seq<char>>(
            second,
        ),
        out matches Err(text) ==> cutoff(date@, midnight_of(trimmed(date@), DATE_FORMAT@)) == Err::<u64, _>(
            text@,
        ),
{
    let text = trim(date);
    cutoff_from_parsed(date, parse_date(text.as_str(), DATE_FORMAT))
}

/// Every store that has a place is swept, by its own ceilings; a ceiling of no
/// bytes is none.
pub proof fn every_store_is_swept_by_its_own_ceilings(s: RetentionSweep<'_>)
    ensures
        s.targets.trace_dir matches Some(root) ==> sweep_tasks(s).contains(
            TaskView::Files {
                store: SweptStore::Traces,
                root: root@,
                depth: 1,
                max_age_secs: s.retention.trace_max_age_secs,
                max_bytes: if s.retention.trace_max_bytes == 0 {
                    None
                } else {
                    Some(s.retention.trace_max_bytes)
                },
            },
        ),
        s.targets.attachments_dir matches Some(root) ==> sweep_tasks(s).contains(
            TaskView::Files {
                store: SweptStore::Attachments,
                root: root@,
                depth: 3,
                max_age_secs: s.retention.attachment_max_age_secs,
                max_bytes: if s.retention.attachment_max_bytes == 0 {
                    None
                } else {
                    Some(s.retention.attachment_max_bytes)
                },
            },
        ),
        s.spill_root matches Some(root) ==> sweep_tasks(s).contains(
            TaskView::Files {
                store: SweptStore::Spill,
                root: root@,
                depth: 1,
                max_age_secs: s.spill_config.retention_secs,
                max_bytes: s.spill_config.max_bytes,
            },
        ),
        s.has_ingress ==> (s.retention.ingress_max_age_secs matches Some(age) ==> sweep_tasks(
            s,
        ).contains(TaskView::PruneIngress { max_age_secs: age })),
        s.has_jobs ==> (s.completed_job_max_age_secs matches Some(age) ==> sweep_tasks(s).contains(
            TaskView::ReapJobs { max_age_secs: age },
        )),
        s.targets.gateway_log matches Some(path) ==> sweep_tasks(s).contains(
            TaskView::RotateLog {
                path: path@,
                max_bytes: s.retention.gateway_log_max_bytes,
                keep: s.retention.gateway_log_keep as nat,
            },
        ),
        sweep_tasks(s).len() == counted(s.targets.trace_dir is Some) + counted(
            s.targets.attachments_dir is Some,
        ) + counted(s.spill_root is Some) + counted(
            s.has_ingress && s.retention.ingress_max_age_secs is Some,
        ) + counted(s.has_jobs && s.completed_job_max_age_secs is Some) + counted(
            s.targets.gateway_log is Some,
        ),
{
    let all = sweep_tasks(s);
    let a = counted(s.targets.trace_dir is Some);
    let b = a + counted(s.targets.attachments_dir is Some);
    let c = b + counted(s.spill_root is Some);
    let d = c + counted(s.has_ingress && s.retention.ingress_max_age_secs is Some);
    let e = d + counted(s.has_jobs && s.completed_job_max_age_secs is Some);
    if s.targets.trace_dir is Some {
        assert(all[0] is Files && all.contains(all[0]));
    }
    if s.targets.attachments_dir is Some {
        assert(all[a] is Files && all.contains(all[a]));
    }
    if s.spill_root is Some {
        assert(all[b] is Files && all.contains(all[b]));
    }
    if s.has_ingress && s.retention.ingress_max_age_secs is Some {
        assert(all[c] is PruneIngress && all.contains(all[c]));
    }
    if s.has_jobs && s.completed_job_max_age_secs is Some {
        assert(all[d] is ReapJobs && all.contains(all[d]));
    }
    if s.targets.gateway_log is Some {
        assert(all[e] is RotateLog && all.contains(all[e]));
    }
}

/// One for what is so, none for what is not.
pub open spec fn counted(so: bool) -> int {
    if so {
        1
    } else {
        0
    }
}

proof fn lemma_part_is_said(parts: Seq<Seq<char>>, sep: Seq<char>, i: int)
    requires
        0 <= i < parts.len(),
    ensures
        holds(joined(parts, sep), parts[i]),
{
    let head = parts.take(i);
    let one = seq![parts[i]];
    let tail = parts.skip(i + 1);
    let whole = joined(parts, sep);
    assert(parts =~= head + (one + tail));
    assert(joined(one, sep) == parts[i]);
    let left = if i > 0 {
        joined(head, sep) + sep
    } else {
        Seq::empty()
    };
    let right = if tail.len() > 0 {
        sep + joined(tail, sep)
    } else {
        Seq::empty()
    };
    if tail.len() > 0 {
        joining_two_lists(one, tail, sep);
    } else {
        assert(one + tail =~= one);
    }
    if i > 0 {
        joining_two_lists(head, one + tail, sep);
    } else {
        assert(head + (one + tail) =~= one + tail);
    }
    assert(whole =~= left + parts[i] + right);
    holding_is_standing_between(whole, parts[i]);
}

/// Whatever a sweep removed is said in its line, with how much; a sweep that did
/// nothing says so.
pub proof fn whatever_was_removed_is_said(r: RetentionReport)
    ensures
        r.traces_removed > 0 ==> holds(
            report_line(r),
            decimal(r.traces_removed as nat) + " "@ + "traces"@ + " ("@ + decimal(
                r.trace_bytes as nat,
            ) + " bytes)"@,
        ),
        r.attachments_removed > 0 ==> holds(
            report_line(r),
            decimal(r.attachments_removed as nat) + " "@ + "attachments"@ + " ("@ + decimal(
                r.attachment_bytes as nat,
            ) + " bytes)"@,
        ),
        r.spill_runs_removed > 0 ==> holds(
            report_line(r),
            decimal(r.spill_runs_removed as nat) + " "@ + "spill runs"@ + " ("@ + decimal(
                r.spill_bytes as nat,
            ) + " bytes)"@,
        ),
        r.ingress_rows_removed > 0 ==> holds(
            report_line(r),
            decimal(r.ingress_rows_removed as nat) + " settled ingress rows"@,
        ),
        r.jobs_reaped > 0 ==> holds(
            report_line(r),
            decimal(r.jobs_reaped as nat) + " finished jobs"@,
        ),
        r.log_rotated ==> holds(report_line(r), "rotated the log"@),
        r.logs_discarded > 0 ==> holds(
            report_line(r),
            decimal(r.logs_discarded as nat) + " old log files"@,
        ),
        r == idle_report() ==> report_line(r) == "nothing to sweep"@,
        r.traces_removed == 0 && r.attachments_removed == 0 && r.spill_runs_removed == 0
            && r.ingress_rows_removed == 0 && r.jobs_reaped == 0 && !r.log_rotated
            && r.logs_discarded == 0 ==> report_line(r) == "nothing to sweep"@,
{
    let p1 = store_part(r.traces_removed, "traces"@, r.trace_bytes);
    let p2 = store_part(r.attachments_removed, "attachments"@, r.attachment_bytes);
    let p3 = store_part(r.spill_runs_removed, "spill runs"@, r.spill_bytes);
    let p4 = count_part(r.ingress_rows_removed, " settled ingress rows"@);
    let p5 = count_part(r.jobs_reaped, " finished jobs"@);
    let p6 = if r.log_rotated {
        seq!["rotated the log"@]
    } else {
        Seq::empty()
    };
    let p7 = count_part(r.logs_discarded, " old log files"@);
    if r.traces_removed > 0 {
        lemma_part_of_sum(p1, p2, p3, p4, p5, p6, p7, p1[0]);
        lemma_held_part_is_said(report_parts(r), p1[0]);
    }
    if r.attachments_removed > 0 {
        lemma_part_of_sum(p1, p2, p3, p4, p5, p6, p7, p2[0]);
        lemma_held_part_is_said(report_parts(r), p2[0]);
    }
    if r.spill_runs_removed > 0 {
        lemma_part_of_sum(p1, p2, p3, p4, p5, p6, p7, p3[0]);
        lemma_held_part_is_said(report_parts(r), p3[0]);
    }
    if r.ingress_rows_removed > 0 {
        lemma_part_of_sum(p1, p2, p3, p4, p5, p6, p7, p4[0]);
        lemma_held_part_is_said(report_parts(r), p4[0]);
    }
    if r.jobs_reaped > 0 {
        lemma_part_of_sum(p1, p2, p3, p4, p5, p6, p7, p5[0]);
        lemma_held_part_is_said(report_parts(r), p5[0]);
    }
    if r.log_rotated {
        lemma_part_of_sum(p1, p2, p3, p4, p5, p6, p7, p6[0]);
        lemma_held_part_is_said(report_parts(r), p6[0]);
    }
    if r.logs_discarded > 0 {
        lemma_part_of_sum(p1, p2, p3, p4, p5, p6, p7, p7[0]);
        lemma_held_part_is_said(report_parts(r), p7[0]);
    }
}

proof fn lemma_part_of_two(a: Seq<Seq<char>>, b: Seq<Seq<char>>, part: Seq<char>)
    requires
        a.contains(part) || b.contains(part),
    ensures
        (a + b).contains(part),
{
    if a.contains(part) {
        let k = choose|k: int| 0 <= k < a.len() && a[k] == part;
        assert((a + b)[k] == part);
    } else {
        let k = choose|k: int| 0 <= k < b.len() && b[k] == part;
        assert((a + b)[a.len() + k] == part);
    }
}

proof fn lemma_part_of_sum(
    p1: Seq<Seq<char>>,
    p2: Seq<Seq<char>>,
    p3: Seq<Seq<char>>,
    p4: Seq<Seq<char>>,
    p5: Seq<Seq<char>>,
    p6: Seq<Seq<char>>,
    p7: Seq<Seq<char>>,
    part: Seq<char>,
)
    requires
        p1.contains(part) || p2.contains(part) || p3.contains(part) || p4.contains(part)
            || p5.contains(part) || p6.contains(part) || p7.contains(part),
    ensures
        (p1 + p2 + p3 + p4 + p5 + p6 + p7).contains(part),
{
    if p1.contains(part) || p2.contains(part) {
        lemma_part_of_two(p1, p2, part);
    }
    if (p1 + p2).contains(part) || p3.contains(part) {
        lemma_part_of_two(p1 + p2, p3, part);
    }
    if (p1 + p2 + p3).contains(part) || p4.contains(part) {
        lemma_part_of_two(p1 + p2 + p3, p4, part);
    }
    if (p1 + p2 + p3 + p4).contains(part) || p5.contains(part) {
        lemma_part_of_two(p1 + p2 + p3 + p4, p5, part);
    }
    if (p1 + p2 + p3 + p4 + p5).contains(part) || p6.contains(part) {
        lemma_part_of_two(p1 + p2 + p3 + p4 + p5, p6, part);
    }
    lemma_part_of_two(p1 + p2 + p3 + p4 + p5 + p6, p7, part);
}

proof fn lemma_held_part_is_said(parts: Seq<Seq<char>>, part: Seq<char>)
    requires
        parts.contains(part),
    ensures
        parts.len() > 0,
        holds(joined(parts, ", "@), part),
{
    let k = choose|k: int| 0 <= k < parts.len() && parts[k] == part;
    lemma_part_is_said(parts, ", "@, k);
}

/// A date is a cutoff unless it is before the Unix epoch, and a refusal names
/// the date as it was written.
pub proof fn a_date_is_a_cutoff(date: Seq<char>, second: i64, why: Seq<char>)
    ensures
        second >= 0 ==> cutoff(date, Ok(second)) == Ok::<u64, Seq<char>>(second as u64),
        second < 0 ==> (cutoff(date, Ok(second)) matches Err(text) && begins(
            text,
            "'"@ + date + "'"@,
        )),
        cutoff(date, Err(why)) matches Err(text) && begins(text, "'"@ + date + "'"@),
{
    let named = "'"@ + date + "'"@;
    reveal_strlit("'");
    reveal_strlit("' is before the Unix epoch");
    reveal_strlit("' is not a YYYY-MM-DD date: ");
    let early = "'"@ + date + "' is before the Unix epoch"@;
    let other = "'"@ + date + "' is not a YYYY-MM-DD date: "@ + why;
    assert(early =~= named + "' is before the Unix epoch"@.skip(1));
    assert(other =~= named + ("' is not a YYYY-MM-DD date: "@.skip(1) + why));
    ends_of_a_text(named, named, "' is before the Unix epoch"@.skip(1));
    ends_of_a_text(named, named, "' is not a YYYY-MM-DD date: "@.skip(1) + why);
}

} // verus!
