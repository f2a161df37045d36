//! Carrying out a reflection, one action at a time.
//!
//! For each promotion: the fact is written, its sources are linked to it, the
//! facts it replaces are looked for and superseded, and, where the episodes
//! make a procedure, that is written and linked too. Whoever holds the store
//! performs each action and reports what came of it.

use super::hydration::records_view;
use super::query::{Record, RecordView};
use super::reflection::{
    fact_metadata, procedural_candidate, procedure_metadata, promoted_body, promotions_view,
    semantic_fact, stale, stale_semantic_records, LexicalIndexReport, PromotedRecord, Promotion, PromotionReport,
    PromotionView, ReflectionPlan, ReflectionReport,
};
use crate::json::{entries_view, ordered};
use crate::lists::copy_texts;
use crate::text::texts;
use vstd::prelude::*;

verus! {

/// Where a reflection stands.
pub enum ReflectionStep {
    /// The fact of the current promotion is to be written.
    WriteFact,
    /// The sources are to be linked to the fact.
    LinkFact(String),
    /// The facts it may replace are to be looked for.
    ScanFacts(String),
    /// These facts are to be superseded by it.
    Supersede(String, Vec<String>),
    /// The procedure is to be written.
    WriteProcedure,
    /// The sources are to be linked to the procedure.
    LinkProcedure(String),
    Finished,
}

/// What a [`ReflectionStep`] stands for.
pub enum StepView {
    WriteFact,
    LinkFact(Seq<char>),
    ScanFacts(Seq<char>),
    Supersede(Seq<char>, Seq<Seq<char>>),
    WriteProcedure,
    LinkProcedure(Seq<char>),
    Finished,
}

impl View for ReflectionStep {
    type V = StepView;

    open spec fn view(&self) -> StepView {
        match *self {
            ReflectionStep::WriteFact => StepView::WriteFact,
            ReflectionStep::LinkFact(id) => StepView::LinkFact(id@),
            ReflectionStep::ScanFacts(id) => StepView::ScanFacts(id@),
            ReflectionStep::Supersede(id, ids) => StepView::Supersede(id@, texts(ids@)),
            ReflectionStep::WriteProcedure => StepView::WriteProcedure,
            ReflectionStep::LinkProcedure(id) => StepView::LinkProcedure(id@),
            ReflectionStep::Finished => StepView::Finished,
        }
    }
}

/// What a [`PromotionReport`] stands for.
#[verifier::ext_equal]
pub struct Promoted {
    pub record_id: Seq<char>,
    pub source_record_ids: Seq<Seq<char>>,
    pub summary: Seq<char>,
}

/// The promotions of a report.
pub open spec fn promoted_view(reports: Seq<PromotionReport>) -> Seq<Promoted> {
    reports.map_values(
        |r: PromotionReport|
            Promoted {
                record_id: r.record_id@,
                source_record_ids: texts(r.source_record_ids@),
                summary: r.summary@,
            },
    )
}

/// What a reflection has come to.
#[verifier::ext_equal]
pub struct RunView {
    pub plan: Seq<PromotionView>,
    /// The promotion under way.
    pub at: int,
    pub step: StepView,
    pub promoted: Seq<Promoted>,
    pub procedures: Seq<Promoted>,
    pub superseded: Seq<Seq<char>>,
    /// How many episodes were looked at.
    pub episode_candidates: nat,
}

/// What a promotion that got an id is reported as.
pub open spec fn reported(promotion: PromotionView, id: Seq<char>) -> Promoted {
    Promoted {
        record_id: id,
        source_record_ids: promotion.source_record_ids,
        summary: promotion.summary,
    }
}

/// The step a promotion starts with, when there is one.
pub open spec fn opening(plan: Seq<PromotionView>, at: int) -> StepView {
    if at < plan.len() {
        StepView::WriteFact
    } else {
        StepView::Finished
    }
}

/// A reflection moved on to its next promotion.
pub open spec fn advanced(run: RunView) -> RunView {
    RunView { at: run.at + 1, step: opening(run.plan, run.at + 1), ..run }
}

/// What a write leaves.
pub open spec fn after_write(run: RunView, id: Seq<char>) -> RunView {
    let entry = reported(run.plan[run.at], id);
    match run.step {
        StepView::WriteFact => RunView {
            promoted: run.promoted.push(entry),
            step: StepView::LinkFact(id),
            ..run
        },
        _ => RunView {
            procedures: run.procedures.push(entry),
            step: StepView::LinkProcedure(id),
            ..run
        },
    }
}

/// What looking for older facts leaves.
pub open spec fn after_scan(run: RunView, records: Seq<RecordView>) -> RunView {
    let id = run.step->ScanFacts_0;
    RunView {
        step: StepView::Supersede(
            id,
            stale(records, run.plan[run.at].summary, id, records.len() as int),
        ),
        ..run
    }
}

/// What linking or superseding leaves.
pub open spec fn after_done(run: RunView) -> RunView {
    match run.step {
        StepView::LinkFact(id) => RunView { step: StepView::ScanFacts(id), ..run },
        StepView::Supersede(_, ids) => {
            let done = RunView { superseded: run.superseded + ids, ..run };
            if run.plan[run.at].procedural {
                RunView { step: StepView::WriteProcedure, ..done }
            } else {
                advanced(done)
            }
        },
        _ => advanced(run),
    }
}

/// What to do next.
pub enum ReflectionAction {
    /// Write this record to the semantic scope.
    WriteFact(PromotedRecord),
    /// Write this record to the procedural scope.
    WriteProcedure(PromotedRecord),
    /// Link each source to the target.
    Link { sources: Vec<String>, target: String, relation: &'static str },
    /// Search the semantic scope for a summary.
    Scan { summary: String },
    /// Mark each record superseded and link it to its replacement.
    Supersede { records: Vec<String>, replacement: String },
    /// Nothing: every promotion is made.
    Finish,
}

/// Whether an action is what a step asks for.
pub open spec fn is_asked(run: RunView, action: ReflectionAction) -> bool {
    let promotion = run.plan[run.at];
    let evidence = promotion.source_record_ids.len();
    match run.step {
        StepView::WriteFact => action matches ReflectionAction::WriteFact(record) && record.body@
            == promoted_body(
            "semantic_fact"@,
            "Repeated episode: "@,
            promotion.summary,
            evidence,
        ) && entries_view(record.metadata@) == fact_metadata(evidence) && ordered(
            entries_view(record.metadata@),
        ) && record.reason@ == "reflection_semantic_promotion"@,
        StepView::WriteProcedure => action matches ReflectionAction::WriteProcedure(record)
            && record.body@ == promoted_body(
            "procedural_candidate"@,
            "Repeated successful trajectory: "@,
            promotion.summary,
            evidence,
        ) && entries_view(record.metadata@) == procedure_metadata(evidence) && ordered(
            entries_view(record.metadata@),
        ) && record.reason@ == "reflection_procedural_candidate"@,
        StepView::LinkFact(id) => action matches ReflectionAction::Link {
            sources,
            target,
            relation,
        } && texts(sources@) == promotion.source_record_ids && target@ == id && relation@
            == "promoted_to"@,
        StepView::LinkProcedure(id) => action matches ReflectionAction::Link {
            sources,
            target,
            relation,
        } && texts(sources@) == promotion.source_record_ids && target@ == id && relation@
            == "candidate_for"@,
        StepView::ScanFacts(_) => action matches ReflectionAction::Scan { summary } && summary@
            == promotion.summary,
        StepView::Supersede(id, ids) => action matches ReflectionAction::Supersede {
            records,
            replacement,
        } && texts(records@) == ids && replacement@ == id,
        StepView::Finished => action is Finish,
    }
}

/// The procedural ones among the first `n` promotions, in order.
pub open spec fn procedural_among(plan: Seq<PromotionView>, n: int) -> Seq<PromotionView>
    decreases n,
{
    if n <= 0 {
        Seq::empty()
    } else if plan[n - 1].procedural {
        procedural_among(plan, n - 1).push(plan[n - 1])
    } else {
        procedural_among(plan, n - 1)
    }
}

/// The promotions whose procedures a reflection has written.
pub open spec fn procedures_written(run: RunView) -> Seq<PromotionView> {
    procedural_among(
        run.plan,
        run.at + if run.step is LinkProcedure {
            1int
        } else {
            0int
        },
    )
}

/// Whether reports are those of promotions, one each and in order.
pub open spec fn report_each(reports: Seq<Promoted>, promotions: Seq<PromotionView>) -> bool {
    &&& reports.len() == promotions.len()
    &&& forall|i: int|
        0 <= i < reports.len() ==> (#[trigger] reports[i]) == reported(
            promotions[i],
            reports[i].record_id,
        )
}

/// Whether the fact of the current promotion is written.
pub open spec fn fact_written(step: StepView) -> bool {
    !(step is WriteFact || step is Finished)
}

/// What holds of a reflection all along: every promotion before the current
/// one is made and reported, in order, with its sources, and so is the
/// procedure of every procedural one.
pub open spec fn is_sound(run: RunView) -> bool {
    &&& 0 <= run.at <= run.plan.len()
    &&& run.step is Finished <==> run.at == run.plan.len()
    &&& run.step is WriteProcedure || run.step is LinkProcedure ==> run.plan[run.at].procedural
    &&& run.promoted.len() == run.at + if fact_written(run.step) {
        1int
    } else {
        0int
    }
    &&& forall|i: int|
        0 <= i < run.promoted.len() ==> (#[trigger] run.promoted[i]) == reported(
            run.plan[i],
            run.promoted[i].record_id,
        )
    &&& report_each(run.procedures, procedures_written(run))
}

/// A reflection under way.
pub struct ReflectionRun {
    pub plan: Vec<Promotion>,
    pub at: usize,
    pub step: ReflectionStep,
    pub episode_candidates: usize,
    pub promoted: Vec<PromotionReport>,
    pub procedures: Vec<PromotionReport>,
    pub superseded: Vec<String>,
}

impl View for ReflectionRun {
    type V = RunView;

    open spec fn view(&self) -> RunView {
        RunView {
            plan: promotions_view(self.plan@),
            at: self.at as int,
            step: self.step@,
            promoted: promoted_view(self.promoted@),
            procedures: promoted_view(self.procedures@),
            superseded: texts(self.superseded@),
            episode_candidates: self.episode_candidates as nat,
        }
    }
}

impl ReflectionRun {
    /// Starts to carry out a plan.
    pub fn start(plan: ReflectionPlan) -> (out: ReflectionRun)
        ensures
            is_sound(out@),
            out@.plan == promotions_view(plan.promotions@),
            out@.at == 0,
            out.episode_candidates == plan.episode_candidates,
            out@.promoted.len() == 0,
            out@.procedures.len() == 0,
            out@.superseded.len() == 0,
    {
        let step = if plan.promotions.len() > 0 {
            ReflectionStep::WriteFact
        } else {
            ReflectionStep::Finished
        };
        ReflectionRun {
            plan: plan.promotions,
            at: 0,
            step,
            episode_candidates: plan.episode_candidates,
            promoted: Vec::new(),
            procedures: Vec::new(),
            superseded: Vec::new(),
        }
    }

    /// What to do next.
    pub fn action(&self) -> (action: ReflectionAction)
        requires
            is_sound(self@),
        ensures
            is_asked(self@, action),
    {
        if self.at == self.plan.len() {
            return ReflectionAction::Finish;
        }
        let promotion: &Promotion = &self.plan[self.at];
        assert(self@.plan[self@.at] == promotion@);
        let evidence: usize = promotion.source_record_ids.len();
        assert(promotion@.source_record_ids.len() == evidence);
        match &self.step {
            ReflectionStep::WriteFact => ReflectionAction::WriteFact(
                semantic_fact(promotion.summary.as_str(), evidence),
            ),
            ReflectionStep::WriteProcedure => ReflectionAction::WriteProcedure(
                procedural_candidate(promotion.summary.as_str(), evidence),
            ),
            ReflectionStep::LinkFact(id) => ReflectionAction::Link {
                sources: copy_texts(&promotion.source_record_ids),
                target: id.clone(),
                relation: "promoted_to",
            },
            ReflectionStep::LinkProcedure(id) => ReflectionAction::Link {
                sources: copy_texts(&promotion.source_record_ids),
                target: id.clone(),
                relation: "candidate_for",
            },
            ReflectionStep::ScanFacts(_) => ReflectionAction::Scan {
                summary: promotion.summary.clone(),
            },
            ReflectionStep::Supersede(id, ids) => ReflectionAction::Supersede {
                records: copy_texts(ids),
                replacement: id.clone(),
            },
            ReflectionStep::Finished => ReflectionAction::Finish,
        }
    }

    /// Takes the id a written record got.
    pub fn written(&mut self, id: &str)
        requires
            is_sound(old(self)@),
            old(self)@.step is WriteFact || old(self)@.step is WriteProcedure,
        ensures
            final(self)@ == after_write(old(self)@, id@),
            is_sound(final(self)@),
            final(self).episode_candidates == old(self).episode_candidates,
    {
        let ghost before = self@;
        let promotion: &Promotion = &self.plan[self.at];
        assert(before.plan[before.at] == promotion@);
        let report = PromotionReport {
            record_id: id.to_owned(),
            source_record_ids: copy_texts(&promotion.source_record_ids),
            summary: promotion.summary.clone(),
        };
        let fact = match &self.step {
            ReflectionStep::WriteFact => true,
            _ => false,
        };
        if fact {
            self.promoted.push(report);
            self.step = ReflectionStep::LinkFact(id.to_owned());
            assert(self@.promoted =~= after_write(before, id@).promoted);
        } else {
            self.procedures.push(report);
            self.step = ReflectionStep::LinkProcedure(id.to_owned());
            assert(self@.procedures =~= after_write(before, id@).procedures);
        }
        assert(self@ =~= after_write(before, id@));
        proof {
            writes_stay_sound(before, id@);
        }
    }

    /// Takes what a search for older facts returned.
    pub fn scanned(&mut self, records: &Vec<Record>)
        requires
            is_sound(old(self)@),
            old(self)@.step is ScanFacts,
        ensures
            final(self)@ == after_scan(old(self)@, records_view(records@)),
            is_sound(final(self)@),
            final(self).episode_candidates == old(self).episode_candidates,
    {
        let ghost before = self@;
        let id = match &self.step {
            ReflectionStep::ScanFacts(id) => id.clone(),
            _ => {
                return;
            },
        };
        assert(before.plan[before.at] == self.plan@[self.at as int]@);
        let ids = stale_semantic_records(
            records,
            self.plan[self.at].summary.as_str(),
            id.as_str(),
        );
        assert(records_view(records@).len() == records@.len());
        self.step = ReflectionStep::Supersede(id, ids);
        assert(self@ =~= after_scan(before, records_view(records@)));
    }

    /// Takes that linking or superseding is done.
    pub fn done(&mut self)
        requires
            is_sound(old(self)@),
            old(self)@.step is LinkFact || old(self)@.step is LinkProcedure || old(self)@.step
                is Supersede,
        ensures
            final(self)@ == after_done(old(self)@),
            is_sound(final(self)@),
            final(self).episode_candidates == old(self).episode_candidates,
    {
        let ghost before = self@;
        assert(before.plan[before.at] == self.plan@[self.at as int]@);
        let planned: usize = self.plan.len();
        assert(before.plan.len() == planned);
        let mut advance = true;
        let mut next = ReflectionStep::Finished;
        match &self.step {
            ReflectionStep::LinkFact(id) => {
                advance = false;
                next = ReflectionStep::ScanFacts(id.clone());
            },
            ReflectionStep::Supersede(_, ids) => {
                let mut more = copy_texts(ids);
                let ghost added = texts(more@);
                self.superseded.append(&mut more);
                assert(texts(self.superseded@) =~= before.superseded + added);
                if self.plan[self.at].procedural {
                    advance = false;
                    next = ReflectionStep::WriteProcedure;
                }
            },
            _ => {},
        }
        if advance {
            self.at = self.at + 1;
            if self.at < planned {
                next = ReflectionStep::WriteFact;
            }
        }
        self.step = next;
        assert(self@ =~= after_done(before));
        proof {
            progress_stays_sound(before);
        }
    }

    /// What the reflection did; retention and the index are reported
    /// separately.
    pub fn report(self) -> (out: ReflectionReport)
        ensures
            out.episode_candidates == self.episode_candidates,
            out.promoted_records == self.promoted,
            out.procedural_candidates == self.procedures,
            out.superseded_records == self.superseded,
            out.retention.checked_records == 0,
            out.retention.archived@.len() == 0,
            out.retention.pruned_records@.len() == 0,
            out.index == (LexicalIndexReport { rebuilt: false, indexed_records: 0 }),
    {
        let empty = ReflectionReport::default();
        ReflectionReport {
            episode_candidates: self.episode_candidates,
            promoted_records: self.promoted,
            procedural_candidates: self.procedures,
            superseded_records: self.superseded,
            retention: empty.retention,
            index: empty.index,
        }
    }
}

/// A write keeps a reflection sound.
pub proof fn writes_stay_sound(run: RunView, id: Seq<char>)
    requires
        is_sound(run),
        run.step is WriteFact || run.step is WriteProcedure,
    ensures
        is_sound(after_write(run, id)),
{
    let after = after_write(run, id);
    assert forall|i: int| 0 <= i < after.promoted.len() implies (#[trigger] after.promoted[i])
        == reported(after.plan[i], after.promoted[i].record_id) by {
        if i < run.promoted.len() {
            assert(after.promoted[i] == run.promoted[i]);
        }
    }
}

/// Linking and superseding keep a reflection sound.
pub proof fn progress_stays_sound(run: RunView)
    requires
        is_sound(run),
        run.step is LinkFact || run.step is LinkProcedure || run.step is Supersede,
    ensures
        is_sound(after_done(run)),
{
    let after = after_done(run);
    assert(after.promoted == run.promoted);
    assert(after.procedures == run.procedures);
}

/// A finished reflection made every promotion it planned, once and in order,
/// each with its own sources, and the procedures of the procedural ones among
/// them, once and in order, each with its own sources too.
pub proof fn a_finished_reflection_made_every_promotion(run: RunView)
    requires
        is_sound(run),
        run.step is Finished,
    ensures
        run.promoted.len() == run.plan.len(),
        forall|i: int|
            0 <= i < run.plan.len() ==> (#[trigger] run.promoted[i]).summary == run.plan[i].summary
                && run.promoted[i].source_record_ids == run.plan[i].source_record_ids,
        report_each(run.procedures, procedural_among(run.plan, run.plan.len() as int)),
{
    assert forall|i: int| 0 <= i < run.plan.len() implies (#[trigger] run.promoted[i]).summary
        == run.plan[i].summary && run.promoted[i].source_record_ids
        == run.plan[i].source_record_ids by {
        assert(run.promoted[i] == reported(run.plan[i], run.promoted[i].record_id));
    }
}

/// The procedural promotions are picked, all of them and in order.
pub proof fn procedural_promotions_are_picked(plan: Seq<PromotionView>, n: int)
    requires
        0 <= n <= plan.len(),
    ensures
        procedural_among(plan, n) == plan.take(n).filter(|p: PromotionView| p.procedural),
    decreases n,
{
    reveal(Seq::filter);
    if n > 0 {
        procedural_promotions_are_picked(plan, n - 1);
        assert(plan.take(n).drop_last() =~= plan.take(n - 1));
    }
}

/// A promotion takes its steps in order: a fact that was written is linked to
/// its sources, then the facts it replaces are looked for and superseded, and
/// then the procedure is written and linked where there is one; after that the
/// next promotion begins.
pub proof fn a_promotion_takes_its_steps_in_order(
    run: RunView,
    id: Seq<char>,
    records: Seq<RecordView>,
    ids: Seq<Seq<char>>,
)
    ensures
        run.step is WriteFact ==> after_write(run, id).step == StepView::LinkFact(id) && after_write(
            run,
            id,
        ).promoted == run.promoted.push(
            Promoted {
                record_id: id,
                source_record_ids: run.plan[run.at].source_record_ids,
                summary: run.plan[run.at].summary,
            },
        ),
        run.step is WriteProcedure ==> after_write(run, id).step == StepView::LinkProcedure(id)
            && after_write(run, id).procedures == run.procedures.push(
            Promoted {
                record_id: id,
                source_record_ids: run.plan[run.at].source_record_ids,
                summary: run.plan[run.at].summary,
            },
        ),
        run.step == StepView::LinkFact(id) ==> after_done(run).step == StepView::ScanFacts(id)
            && after_done(run).at == run.at,
        run.step == StepView::ScanFacts(id) ==> (after_scan(run, records).step matches
            StepView::Supersede(by, _) && by == id) && after_scan(run, records).at == run.at,
        run.step == StepView::Supersede(id, ids) ==> after_done(run).superseded == run.superseded
            + ids,
        run.step == StepView::Supersede(id, ids) && run.plan[run.at].procedural ==> after_done(
            run,
        ).step is WriteProcedure && after_done(run).at == run.at,
        run.step == StepView::Supersede(id, ids) && !run.plan[run.at].procedural ==> after_done(
            run,
        ).at == run.at + 1,
        run.step is LinkProcedure ==> after_done(run).at == run.at + 1,
        after_done(run).at == run.at + 1 ==> (after_done(run).step is WriteFact <==> run.at + 1
            < run.plan.len()),
        after_done(run).plan == run.plan,
        after_write(run, id).plan == run.plan,
        after_scan(run, records).plan == run.plan,
        after_scan(run, records).superseded == run.superseded,
{
}

/// What is asked for is what the step needs: a link ties the promotion's own
/// sources to the record just written, a search looks for its summary, and what
/// was found is superseded by the record just written.
pub proof fn a_step_asks_for_what_it_needs(run: RunView, action: ReflectionAction, id: Seq<char>)
    requires
        is_asked(run, action),
    ensures
        run.step == StepView::LinkFact(id) ==> (action matches ReflectionAction::Link {
            sources,
            target,
            relation,
        } && texts(sources@) == run.plan[run.at].source_record_ids && target@ == id && relation@
            == "promoted_to"@),
        run.step == StepView::LinkProcedure(id) ==> (action matches ReflectionAction::Link {
            sources,
            target,
            relation,
        } && texts(sources@) == run.plan[run.at].source_record_ids && target@ == id && relation@
            == "candidate_for"@),
        run.step is ScanFacts ==> (action matches ReflectionAction::Scan { summary } && summary@
            == run.plan[run.at].summary),
        run.step matches StepView::Supersede(by, ids) ==> (action matches
            ReflectionAction::Supersede { records, replacement } && texts(records@) == ids
            && replacement@ == by),
        run.step is Finished <==> action is Finish,
        run.step is WriteFact <==> action is WriteFact,
        run.step is WriteProcedure <==> action is WriteProcedure,
        action matches ReflectionAction::WriteFact(record) ==> record.reason@
            == "reflection_semantic_promotion"@,
        action matches ReflectionAction::WriteProcedure(record) ==> record.reason@
            == "reflection_procedural_candidate"@,
{
}

} // verus!
