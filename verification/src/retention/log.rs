//! Size-based rotation for the gateway's own log file.
//!
//! The live file is renamed aside and older rotations shift along; whatever
//! would end up past the ones to keep is removed first. The steps are decided
//! here and performed by the caller.

use crate::text::{decimal, push_decimal};
use vstd::prelude::*;

verus! {

/// How far past `keep` a single pass will clean up.
pub const MAX_EXTRA_ROTATIONS: usize = 64;

/// What one rotation did.
#[derive(Clone, Copy, Debug, PartialEq, Eq, Structural)]
pub struct RotationCount {
    /// Whether the live log was rotated out this pass.
    pub rotated: bool,
    /// Rotated files deleted for being past `keep`.
    pub discarded: usize,
}

/// One step of a rotation.
#[derive(Clone, Copy, Debug, PartialEq, Eq, Structural)]
pub enum RotationStep {
    /// Remove the rotation with this number.
    Discard(usize),
    /// Rename the rotation with this number to the next, if it is there.
    Shift(usize),
    /// Rename the live log to the first rotation.
    Live,
    /// Nothing left to do.
    Done,
}

/// A rotation under way.
pub struct Rotation {
    pub keep: usize,
    pub step: RotationStep,
    pub count: RotationCount,
}

/// The step after the discards: shift from the oldest kept down, or rotate the
/// live log when only one is kept.
pub open spec fn after_discards(keep: usize) -> RotationStep {
    if keep > 1 {
        RotationStep::Shift((keep - 1) as usize)
    } else {
        RotationStep::Live
    }
}

/// What follows a step, whether or not it succeeded. A number that is missing
/// says nothing about the next: every number up to the last one is tried.
pub open spec fn step_after(keep: usize, step: RotationStep) -> RotationStep {
    match step {
        RotationStep::Discard(index) => if index + 1 <= keep + MAX_EXTRA_ROTATIONS {
            RotationStep::Discard((index + 1) as usize)
        } else {
            after_discards(keep)
        },
        RotationStep::Shift(index) => if index > 1 {
            RotationStep::Shift((index - 1) as usize)
        } else {
            RotationStep::Live
        },
        RotationStep::Live => RotationStep::Done,
        RotationStep::Done => RotationStep::Done,
    }
}

impl Rotation {
    /// Whether the step under way is one a rotation takes.
    pub open spec fn wf(&self) -> bool {
        &&& 0 < self.keep <= usize::MAX - MAX_EXTRA_ROTATIONS - 1
        &&& self.step matches RotationStep::Discard(index) ==> self.keep <= index <= self.keep
            + MAX_EXTRA_ROTATIONS && self.count.discarded <= index - self.keep
        &&& self.step matches RotationStep::Shift(index) ==> 1 <= index < self.keep
    }

    /// Starts a rotation when the log has reached `max_bytes`. `None` when it
    /// has not, is not there, or rotation is off.
    pub fn start(len: Option<u64>, max_bytes: u64, keep: usize) -> (out: Option<Rotation>)
        requires
            keep <= usize::MAX - MAX_EXTRA_ROTATIONS - 1,
        ensures
            out is Some <==> max_bytes > 0 && keep > 0 && (len matches Some(size) && size
                >= max_bytes),
            out matches Some(rotation) ==> rotation.wf() && rotation.keep == keep && rotation.step
                == RotationStep::Discard(keep) && rotation.count == (RotationCount {
                rotated: false,
                discarded: 0,
            }),
    {
        if max_bytes == 0 || keep == 0 {
            return None;
        }
        match len {
            Some(size) => {
                if size < max_bytes {
                    return None;
                }
            },
            None => {
                return None;
            },
        }
        Some(
            Rotation {
                keep,
                step: RotationStep::Discard(keep),
                count: RotationCount { rotated: false, discarded: 0 },
            },
        )
    }

    /// Records whether the step under way succeeded, and moves to the next.
    pub fn settle(&mut self, succeeded: bool)
        requires
            old(self).wf(),
        ensures
            final(self).wf(),
            final(self).keep == old(self).keep,
            final(self).step == step_after(old(self).keep, old(self).step),
            final(self).count == counted(old(self).count, old(self).step, succeeded),
    {
        let first = if self.keep > 1 {
            RotationStep::Shift(self.keep - 1)
        } else {
            RotationStep::Live
        };
        match self.step {
            RotationStep::Discard(index) => {
                if succeeded {
                    self.count = RotationCount {
                        rotated: self.count.rotated,
                        discarded: self.count.discarded + 1,
                    };
                }
                self.step = if index + 1 <= self.keep + MAX_EXTRA_ROTATIONS {
                    RotationStep::Discard(index + 1)
                } else {
                    first
                };
            },
            RotationStep::Shift(index) => {
                self.step = if index > 1 {
                    RotationStep::Shift(index - 1)
                } else {
                    RotationStep::Live
                };
            },
            RotationStep::Live => {
                self.count = RotationCount { rotated: succeeded, discarded: self.count.discarded };
                self.step = RotationStep::Done;
            },
            RotationStep::Done => {},
        }
    }
}

/// How many steps a rotation has left at most.
pub open spec fn steps_left(rotation: Rotation) -> int {
    match rotation.step {
        RotationStep::Discard(index) => rotation.keep + MAX_EXTRA_ROTATIONS - index + 1
            + rotation.keep + 1,
        RotationStep::Shift(index) => index + 1,
        RotationStep::Live => 1,
        RotationStep::Done => 0,
    }
}

/// A rotation ends: every step leaves fewer to take.
pub proof fn rotation_ends(rotation: Rotation, next: Rotation)
    requires
        rotation.wf(),
        rotation.step != RotationStep::Done,
        next.keep == rotation.keep,
        next.step == step_after(rotation.keep, rotation.step),
    ensures
        0 <= steps_left(next) < steps_left(rotation),
{
}

/// Rotations shift from the oldest down, so a rename never lands on a file
/// that has not been moved or removed: after `Shift(i)` comes `Shift(i - 1)`,
/// whose target `i` was just vacated.
pub proof fn shifts_run_downwards(keep: usize, index: usize)
    requires
        1 < index < keep,
    ensures
        step_after(keep, RotationStep::Shift(index)) == RotationStep::Shift(
            (index - 1) as usize,
        ),
{
}

/// The files of a log: the live one is number 0, its rotations have theirs.
pub type LogFiles = Map<nat, Seq<u8>>;

/// Whether a step succeeds on files that can all be removed and renamed.
pub open spec fn works(files: LogFiles, step: RotationStep) -> bool {
    match step {
        RotationStep::Discard(index) => files.dom().contains(index as nat),
        RotationStep::Shift(index) => files.dom().contains(index as nat),
        RotationStep::Live => files.dom().contains(0),
        RotationStep::Done => true,
    }
}

/// What a step makes of the files.
pub open spec fn performed(files: LogFiles, step: RotationStep) -> LogFiles {
    if !works(files, step) {
        files
    } else {
        match step {
            RotationStep::Discard(index) => files.remove(index as nat),
            RotationStep::Shift(index) => files.remove(index as nat).insert(
                (index + 1) as nat,
                files[index as nat],
            ),
            RotationStep::Live => files.remove(0).insert(1, files[0]),
            RotationStep::Done => files,
        }
    }
}

/// What a count becomes with a step.
pub open spec fn counted(count: RotationCount, step: RotationStep, succeeded: bool) -> RotationCount {
    match step {
        RotationStep::Discard(_) => RotationCount {
            discarded: (count.discarded + if succeeded {
                1int
            } else {
                0int
            }) as usize,
            ..count
        },
        RotationStep::Live => RotationCount { rotated: succeeded, ..count },
        _ => count,
    }
}

/// How many numbers from `from` up to but not `to` are present.
pub open spec fn present(files: LogFiles, from: nat, to: nat) -> nat
    decreases to - from,
{
    if from >= to {
        0
    } else {
        present(files, from + 1, to) + if files.dom().contains(from) {
            1nat
        } else {
            0nat
        }
    }
}

/// A rotation after the step under way.
pub open spec fn settled(rotation: Rotation, succeeded: bool) -> Rotation {
    Rotation {
        keep: rotation.keep,
        step: step_after(rotation.keep, rotation.step),
        count: counted(rotation.count, rotation.step, succeeded),
    }
}

/// The files, and the count, once a rotation was carried out to its end.
pub open spec fn carried_out(files: LogFiles, rotation: Rotation) -> (LogFiles, RotationCount)
    decreases steps_left(rotation),
{
    if !rotation.wf() || rotation.step == RotationStep::Done {
        (files, rotation.count)
    } else {
        carried_out(
            performed(files, rotation.step),
            settled(rotation, works(files, rotation.step)),
        )
    }
}

/// The files a rotation leaves when everything can be removed and renamed: the
/// live log is the first rotation, the others moved up by one, and what would
/// be past the number kept is gone, as far as a pass goes.
pub open spec fn rotated_files(files: LogFiles, keep: nat) -> LogFiles {
    Map::new(
        |n: nat|
            if n == 0 {
                false
            } else if n <= keep {
                files.dom().contains((n - 1) as nat)
            } else {
                n > keep + MAX_EXTRA_ROTATIONS && files.dom().contains(n)
            },
        |n: nat|
            if n <= keep {
                files[(n - 1) as nat]
            } else {
                files[n]
            },
    )
}

/// Whether files are between two passes of shifting: the numbers above `index`
/// moved up already, those up to it did not, and number `index + 1` is free.
pub open spec fn is_shifted_above(
    now: LogFiles,
    files: LogFiles,
    keep: nat,
    index: nat,
) -> bool {
    forall|n: nat|
        #![trigger now.dom().contains(n)]
        #![trigger now[n]]
        if n <= index {
            now.dom().contains(n) == files.dom().contains(n) && (now.dom().contains(n) ==> now[n]
                == files[n])
        } else if n == index + 1 {
            !now.dom().contains(n)
        } else if n <= keep {
            now.dom().contains(n) == files.dom().contains((n - 1) as nat) && (now.dom().contains(n)
                ==> now[n] == files[(n - 1) as nat])
        } else {
            now.dom().contains(n) == (n > keep + MAX_EXTRA_ROTATIONS && files.dom().contains(n))
                && (now.dom().contains(n) ==> now[n] == files[n])
        }
}

proof fn lemma_shifts(now: LogFiles, files: LogFiles, rotation: Rotation, index: nat)
    requires
        rotation.wf(),
        index < rotation.keep,
        rotation.step == if index > 0 {
            RotationStep::Shift(index as usize)
        } else {
            RotationStep::Live
        },
        files.dom().contains(0),
        is_shifted_above(now, files, rotation.keep as nat, index),
    ensures
        carried_out(now, rotation) == (
            rotated_files(files, rotation.keep as nat),
            (RotationCount { rotated: true, ..rotation.count }),
        ),
    decreases index,
{
    let next = settled(rotation, works(now, rotation.step));
    let after = performed(now, rotation.step);
    assert(now.dom().contains(0) == files.dom().contains(0));
    if index > 0 {
        assert(now.dom().contains(index) == files.dom().contains(index));
        assert(!now.dom().contains(index + 1));
        assert(is_shifted_above(after, files, rotation.keep as nat, (index - 1) as nat));
        lemma_shifts(after, files, next, (index - 1) as nat);
    } else {
        assert(!now.dom().contains(1));
        assert(next.step == RotationStep::Done);
        let expected = rotated_files(files, rotation.keep as nat);
        assert forall|n: nat| after.dom().contains(n) == #[trigger] expected.dom().contains(n)
            && (after.dom().contains(n) ==> after[n] == expected[n]) by {
            assert(now.dom().contains(n) || !now.dom().contains(n));
        }
        assert(after =~= expected);
        assert(carried_out(after, next) == (after, next.count));
    }
}

/// Whether files are between two removals: the numbers from `keep` up to but
/// not `index` are gone.
pub open spec fn is_cleared_below(now: LogFiles, files: LogFiles, keep: nat, index: nat) -> bool {
    forall|n: nat|
        #![trigger now.dom().contains(n)]
        #![trigger now[n]]
        now.dom().contains(n) == (files.dom().contains(n) && !(keep <= n < index)) && (
        now.dom().contains(n) ==> now[n] == files[n])
}

proof fn lemma_present_within(files: LogFiles, from: nat, to: nat)
    requires
        from <= to,
    ensures
        present(files, from, to) <= to - from,
    decreases to - from,
{
    if from < to {
        lemma_present_within(files, from + 1, to);
    }
}

proof fn lemma_discards(now: LogFiles, files: LogFiles, rotation: Rotation, index: nat)
    requires
        rotation.wf(),
        rotation.step == RotationStep::Discard(index as usize),
        index <= usize::MAX,
        files.dom().contains(0),
        is_cleared_below(now, files, rotation.keep as nat, index),
    ensures
        ({
            let end = (rotation.keep + MAX_EXTRA_ROTATIONS + 1) as nat;
            carried_out(now, rotation) == (
                rotated_files(files, rotation.keep as nat),
                (RotationCount {
                    rotated: true,
                    discarded: (rotation.count.discarded + present(files, index, end)) as usize,
                }),
            )
        }),
    decreases rotation.keep + MAX_EXTRA_ROTATIONS - index,
{
    let keep = rotation.keep as nat;
    let end = (keep + MAX_EXTRA_ROTATIONS + 1) as nat;
    let next = settled(rotation, works(now, rotation.step));
    let after = performed(now, rotation.step);
    assert(now.dom().contains(index) == files.dom().contains(index));
    lemma_present_within(files, index + 1, end);
    assert(is_cleared_below(after, files, keep, index + 1));
    if index + 1 < end {
        lemma_discards(after, files, next, index + 1);
    } else {
        assert(present(files, index + 1, end) == 0);
        assert(is_shifted_above(after, files, keep, (keep - 1) as nat));
        lemma_shifts(after, files, next, (keep - 1) as nat);
    }
}

/// What a pass leaves: where everything can be removed and renamed, the live
/// log becomes the first rotation, the kept ones move up by one, and every
/// number past the ones kept was tried and is gone, wherever others are
/// missing. The count is of those that were there.
pub proof fn nothing_past_the_kept_is_left(files: LogFiles, rotation: Rotation)
    requires
        rotation.wf(),
        rotation.step == RotationStep::Discard(rotation.keep),
        rotation.count == (RotationCount { rotated: false, discarded: 0 }),
        files.dom().contains(0),
    ensures
        carried_out(files, rotation) == (
            rotated_files(files, rotation.keep as nat),
            (RotationCount {
                rotated: true,
                discarded: present(
                    files,
                    rotation.keep as nat,
                    (rotation.keep + MAX_EXTRA_ROTATIONS + 1) as nat,
                ) as usize,
            }),
        ),
{
    lemma_discards(files, files, rotation, rotation.keep as nat);
}

/// The name of a numbered rotation.
pub fn numbered(path: &str, index: usize) -> (out: String)
    ensures
        out@ == path@ + "."@ + decimal(index as nat),
{
    let mut out = path.to_owned();
    out.push_str(".");
    push_decimal(&mut out, index as u64);
    out
}

/// A rotation loses none of the logs it keeps: the live log and each rotation
/// but the last move up by one, nothing stays under the live log's name, and of
/// the sixty-four numbers past the kept none is left.
pub proof fn a_rotation_keeps_what_it_should(files: LogFiles, keep: nat, n: nat)
    ensures
        n < keep ==> (rotated_files(files, keep).dom().contains(n + 1) <==> files.dom().contains(
            n,
        )),
        n < keep && files.dom().contains(n) ==> rotated_files(files, keep)[n + 1] == files[n],
        !rotated_files(files, keep).dom().contains(0),
        keep < n <= keep + 64 ==> !rotated_files(files, keep).dom().contains(n),
{
}

} // verus!
