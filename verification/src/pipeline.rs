//! The ingestion pipeline's decision core.  The loop that polls a source on
//! a background context is plain I/O and lives outside the library; what is
//! verified here is every decision it takes: the two-state lifecycle with
//! its transition table, and the batch step that parses polled raw strings
//! and places the survivors on the bounded hand-off queue, dropping the
//! newest entries instead of blocking when it is full.

use vstd::prelude::*;

use crate::formatter::LogParser;
use crate::log_item::ItemModel;
use crate::log_item::item_obeys;
use crate::queue::HandoffQueue;
use crate::queue::queue_entries;
use crate::queue::queue_capacity;

verus! {

/// The pipeline's lifecycle states.
#[derive(Clone, Copy, PartialEq, Eq, Structural, Debug)]
pub enum PipelineState {
    /// The source has not been started yet.
    NotStarted,
    /// The source started; the loop polls it.
    Running,
    /// The loop ended, by a stop request or because the start failed.
    Stopped,
}

/// What happened since the last decision.
#[derive(Clone, Copy, PartialEq, Eq, Structural, Debug)]
pub enum PipelineEvent {
    /// `start()` on the source returned without error.
    StartSucceeded,
    /// `start()` on the source failed: fatal.
    StartFailed,
    /// The shared stop flag was observed set.
    StopRequested,
    /// `poll()` returned a batch of raw strings (possibly empty).
    BatchArrived,
    /// `poll()` failed: transient, polling continues.
    PollFailed,
}

/// What the loop must do next.
#[derive(Clone, Copy, PartialEq, Eq, Structural, Debug)]
pub enum PipelineAction {
    /// Poll the source, then sleep for the poll interval.
    PollSource,
    /// Call `stop()` on the source, best effort, then terminate.
    StopSource,
    /// Terminate the execution context without touching the source.
    Terminate,
}

/// The full transition table of the ingestion loop.
pub open spec fn spec_pipeline_step(state: PipelineState, event: PipelineEvent) -> (
    PipelineState,
    PipelineAction,
) {
    match (state, event) {
        (PipelineState::NotStarted, PipelineEvent::StartSucceeded) => (
            PipelineState::Running,
            PipelineAction::PollSource,
        ),
        (PipelineState::NotStarted, PipelineEvent::StartFailed) => (
            PipelineState::Stopped,
            PipelineAction::Terminate,
        ),
        (PipelineState::Running, PipelineEvent::StopRequested) => (
            PipelineState::Stopped,
            PipelineAction::StopSource,
        ),
        (PipelineState::Running, PipelineEvent::BatchArrived) => (
            PipelineState::Running,
            PipelineAction::PollSource,
        ),
        (PipelineState::Running, PipelineEvent::PollFailed) => (
            PipelineState::Running,
            PipelineAction::PollSource,
        ),
        _ => (PipelineState::Stopped, PipelineAction::Terminate),
    }
}

/// One decision of the ingestion loop.  A failed start is fatal and never
/// reaches `Running`; a failed poll keeps polling; only a stop request
/// releases the source.
pub fn pipeline_step(state: PipelineState, event: PipelineEvent) -> (r: (
    PipelineState,
    PipelineAction,
))
    ensures
        r == spec_pipeline_step(state, event),
        event == PipelineEvent::StartFailed ==> r.0 != PipelineState::Running,
        r.0 == PipelineState::Running ==> state == PipelineState::NotStarted || state
            == PipelineState::Running,
{
    match (state, event) {
        (PipelineState::NotStarted, PipelineEvent::StartSucceeded) => (
            PipelineState::Running,
            PipelineAction::PollSource,
        ),
        (PipelineState::NotStarted, PipelineEvent::StartFailed) => (
            PipelineState::Stopped,
            PipelineAction::Terminate,
        ),
        (PipelineState::Running, PipelineEvent::StopRequested) => (
            PipelineState::Stopped,
            PipelineAction::StopSource,
        ),
        (PipelineState::Running, PipelineEvent::BatchArrived) => (
            PipelineState::Running,
            PipelineAction::PollSource,
        ),
        (PipelineState::Running, PipelineEvent::PollFailed) => (
            PipelineState::Running,
            PipelineAction::PollSource,
        ),
        _ => (PipelineState::Stopped, PipelineAction::Terminate),
    }
}

/// The models of the entries a parser accepts from a batch of raw strings,
/// in batch order; intentionally filtered lines contribute nothing.
pub open spec fn parsed_models<P: LogParser>(p: &P, raws: Seq<String>) -> Seq<ItemModel>
    decreases raws.len(),
{
    if raws.len() == 0 {
        Seq::empty()
    } else {
        let rest = parsed_models(p, raws.drop_first());
        match p.parse_model(raws[0]@) {
            Some(m) => seq![m] + rest,
            None => rest,
        }
    }
}

proof fn lemma_parsed_models_len<P: LogParser>(p: &P, raws: Seq<String>)
    ensures
        parsed_models(p, raws).len() <= raws.len(),
    decreases raws.len(),
{
    if raws.len() > 0 {
        lemma_parsed_models_len(p, raws.drop_first());
    }
}

/// Parse one polled batch and hand the accepted entries to the queue in
/// order.  While there is room each accepted entry is appended; once the
/// queue is full the remaining entries are dropped, newest first to go,
/// without blocking.  Returns `(pushed, dropped)`.
pub fn ingest_batch<P: LogParser>(parser: &P, q: &mut HandoffQueue, raws: &Vec<String>) -> (counts: (
    usize,
    usize,
))
    requires
        queue_entries(*old(q)).len() <= queue_capacity(*old(q)),
    ensures
        queue_capacity(*final (q)) == queue_capacity(*old(q)),
        queue_entries(*final (q)).len() <= queue_capacity(*old(q)),
        counts.0 + counts.1 == parsed_models(parser, raws@).len(),
        queue_entries(*final (q)).len() == queue_entries(*old(q)).len() + counts.0,
        counts.1 > 0 ==> queue_entries(*final (q)).len() == queue_capacity(*old(q)),
        forall|i: int|
            0 <= i < queue_entries(*old(q)).len() ==> queue_entries(*final (q))[i]
                == queue_entries(*old(q))[i],
        forall|i: int|
            0 <= i < counts.0 ==> item_obeys(
                #[trigger] queue_entries(*final (q))[queue_entries(*old(q)).len() + i],
                parsed_models(parser, raws@)[i],
            ),
{
    let ghost entries0 = queue_entries(*old(q));
    let ghost cap0 = queue_capacity(*old(q));
    let ghost all_models = parsed_models(parser, raws@);
    let mut pushed: usize = 0;
    let mut dropped: usize = 0;
    let mut k: usize = 0;
    proof {
        assert(raws@.skip(0) =~= raws@);
        assert(parsed_models(parser, raws@.skip(0)) == all_models);
        lemma_parsed_models_len(parser, raws@);
        assert(raws.len() == raws@.len());
    }
    while k < raws.len()
        invariant
            0 <= k <= raws@.len(),
            raws@.len() <= usize::MAX,
            all_models.len() <= raws@.len(),
            queue_capacity(*q) == cap0,
            queue_entries(*q).len() <= cap0,
            all_models == parsed_models(parser, raws@),
            all_models.len() == pushed + dropped + parsed_models(
                parser,
                raws@.skip(k as int),
            ).len(),
            queue_entries(*q).len() == entries0.len() + pushed,
            dropped > 0 ==> queue_entries(*q).len() == cap0,
            forall|i: int| 0 <= i < entries0.len() ==> queue_entries(*q)[i] == entries0[i],
            forall|i: int|
                0 <= i < pushed ==> item_obeys(
                    #[trigger] queue_entries(*q)[entries0.len() + i],
                    all_models[i],
                ),
            forall|i: int|
                0 <= i < parsed_models(parser, raws@.skip(k as int)).len()
                    ==> #[trigger] parsed_models(parser, raws@.skip(k as int))[i] == all_models[
                    pushed + dropped + i
                ],
        decreases raws@.len() - k,
    {
        let ghost tail = raws@.skip(k as int);
        proof {
            assert(tail[0] == raws@[k as int]);
            assert(tail.drop_first() =~= raws@.skip(k + 1 as int));
        }
        let parsed = parser.parse(raws[k].as_str());
        match parsed {
            Some(item) => {
                proof {
                    assert(parsed_models(parser, tail) == seq![
                        parser.parse_model(raws@[k as int]@).unwrap(),
                    ] + parsed_models(parser, tail.drop_first()));
                    assert(parsed_models(parser, tail)[0] == parser.parse_model(
                        raws@[k as int]@,
                    ).unwrap());
                    assert(parsed_models(parser, tail)[0] == all_models[pushed + dropped]);
                }
                let ghost pre_entries = queue_entries(*q);
                let accepted = q.try_push(item);
                if accepted {
                    proof {
                        assert(queue_entries(*q) == pre_entries.push(item));
                        assert(queue_entries(*q)[entries0.len() + pushed] == item);
                        assert(item_obeys(item, all_models[pushed as int + dropped]));
                        assert(dropped == 0) by {
                            if dropped > 0 {
                                assert(pre_entries.len() == cap0);
                            }
                        }
                    }
                    pushed = pushed + 1;
                } else {
                    dropped = dropped + 1;
                }
                proof {
                    assert forall|i: int|
                        0 <= i < parsed_models(parser, raws@.skip(k + 1 as int)).len()
                            implies #[trigger] parsed_models(parser, raws@.skip(k + 1 as int))[i]
                        == all_models[pushed + dropped + i] by {
                        assert(parsed_models(parser, tail)[i + 1] == parsed_models(
                            parser,
                            tail.drop_first(),
                        )[i]);
                    }
                }
            },
            None => {
                proof {
                    assert(parsed_models(parser, tail) == parsed_models(parser, tail.drop_first()));
                }
            },
        }
        k = k + 1;
    }
    proof {
        assert(raws@.skip(raws@.len() as int) =~= Seq::<String>::empty());
    }
    (pushed, dropped)
}

} // verus!
