//! What a run leaves behind: a summary, and for a failed run a full report.

use crate::checker::PropertyId;
use crate::history::{
    self, History, OpArgs, OpArgsView, OpResponse, OpResponseView, RecordedOp, RecordedOpView,
};
use crate::runtime::Outcome;
use crate::scenario::ScenarioParameters;
use crate::scheduler::VirtualInstant;
use crate::text;
use vstd::prelude::*;

verus! {

/// Where reports go unless told otherwise.
pub const DEFAULT_ARTIFACT_DIR: &'static str = "target/dst-artifacts";

/// The environment variable that says where reports go.
pub const ARTIFACT_DIR_ENV: &'static str = "VELA_DST_ARTIFACT_DIR";

/// The directory for reports, given what the environment says: its value as it is,
/// unless it is absent or blank.
pub fn artifact_dir(value: Option<String>) -> (r: String)
    ensures
        r@ == (match value {
            Some(dir) => if text::trimmed(dir@).len() == 0 {
                "target/dst-artifacts"@
            } else {
                dir@
            },
            None => "target/dst-artifacts"@,
        }),
{
    match value {
        Some(dir) => {
            let (lo, hi) = text::trim_bounds(dir.as_str());
            if lo < hi {
                return dir;
            }
        },
        None => {},
    }
    DEFAULT_ARTIFACT_DIR.to_owned()
}

/// How many operations got each kind of answer.
#[derive(Clone, Copy, Debug, PartialEq, Eq)]
pub struct HistoryStats {
    pub total_ops: usize,
    pub produce_ok: usize,
    pub consume_ok: usize,
    pub create_topic_ok: usize,
    pub delete_topic_ok: usize,
    pub redirects: usize,
    pub unresolved_redirections: usize,
    pub no_leader: usize,
    pub io_errors: usize,
    pub other_errors: usize,
}

impl Default for HistoryStats {
    fn default() -> (r: Self)
        ensures
            r == HistoryStats::zero(),
    {
        HistoryStats {
            total_ops: 0,
            produce_ok: 0,
            consume_ok: 0,
            create_topic_ok: 0,
            delete_topic_ok: 0,
            redirects: 0,
            unresolved_redirections: 0,
            no_leader: 0,
            io_errors: 0,
            other_errors: 0,
        }
    }
}

/// The kinds of answers.
pub enum Answer {
    ProduceOk,
    ConsumeOk,
    CreateTopicOk,
    DeleteTopicOk,
    Redirect,
    UnresolvedRedirection,
    NoLeader,
    IoError,
    Error,
}

/// The kind of an answer.
pub open spec fn answer(response: OpResponse) -> Answer {
    match response {
        OpResponse::ProduceOk { .. } => Answer::ProduceOk,
        OpResponse::ConsumeOk { .. } => Answer::ConsumeOk,
        OpResponse::CreateTopicOk { .. } => Answer::CreateTopicOk,
        OpResponse::DeleteTopicOk { .. } => Answer::DeleteTopicOk,
        OpResponse::Redirect { .. } => Answer::Redirect,
        OpResponse::UnresolvedRedirection => Answer::UnresolvedRedirection,
        OpResponse::NoLeader => Answer::NoLeader,
        OpResponse::IoError { .. } => Answer::IoError,
        OpResponse::Error { .. } => Answer::Error,
    }
}

/// How many operations got an answer of kind `a`.
pub open spec fn answered(ops: Seq<RecordedOp>, a: Answer) -> nat
    decreases ops.len(),
{
    if ops.len() == 0 {
        0
    } else {
        answered(ops.drop_last(), a) + if answer(ops.last().response) == a {
            1nat
        } else {
            0nat
        }
    }
}

proof fn lemma_answered_bound(ops: Seq<RecordedOp>, a: Answer)
    ensures
        answered(ops, a) <= ops.len(),
    decreases ops.len(),
{
    if ops.len() > 0 {
        lemma_answered_bound(ops.drop_last(), a);
    }
}

impl HistoryStats {
    pub open spec fn zero() -> HistoryStats {
        HistoryStats {
            total_ops: 0,
            produce_ok: 0,
            consume_ok: 0,
            create_topic_ok: 0,
            delete_topic_ok: 0,
            redirects: 0,
            unresolved_redirections: 0,
            no_leader: 0,
            io_errors: 0,
            other_errors: 0,
        }
    }

    /// The counts of `ops`.
    pub open spec fn of(ops: Seq<RecordedOp>) -> HistoryStats {
        HistoryStats {
            total_ops: ops.len() as usize,
            produce_ok: answered(ops, Answer::ProduceOk) as usize,
            consume_ok: answered(ops, Answer::ConsumeOk) as usize,
            create_topic_ok: answered(ops, Answer::CreateTopicOk) as usize,
            delete_topic_ok: answered(ops, Answer::DeleteTopicOk) as usize,
            redirects: answered(ops, Answer::Redirect) as usize,
            unresolved_redirections: answered(ops, Answer::UnresolvedRedirection) as usize,
            no_leader: answered(ops, Answer::NoLeader) as usize,
            io_errors: answered(ops, Answer::IoError) as usize,
            other_errors: answered(ops, Answer::Error) as usize,
        }
    }

    /// Whether the answer counts are those of `ops`.
    pub open spec fn counts(self, ops: Seq<RecordedOp>) -> bool {
        &&& self.produce_ok == answered(ops, Answer::ProduceOk)
        &&& self.consume_ok == answered(ops, Answer::ConsumeOk)
        &&& self.create_topic_ok == answered(ops, Answer::CreateTopicOk)
        &&& self.delete_topic_ok == answered(ops, Answer::DeleteTopicOk)
        &&& self.redirects == answered(ops, Answer::Redirect)
        &&& self.unresolved_redirections == answered(ops, Answer::UnresolvedRedirection)
        &&& self.no_leader == answered(ops, Answer::NoLeader)
        &&& self.io_errors == answered(ops, Answer::IoError)
        &&& self.other_errors == answered(ops, Answer::Error)
    }

    /// The counts of a history.
    pub fn from_history(history: &History) -> (r: Self)
        ensures
            r == HistoryStats::of(history.ops@),
            r.total_ops == history.ops@.len(),
            r.counts(history.ops@),
    {
        let ghost ops = history.ops@;
        let total: usize = history.len();
        let mut stats = HistoryStats { total_ops: total, ..HistoryStats::default() };
        let mut i: usize = 0;
        assert(ops.take(0) =~= Seq::empty());
        while i < history.ops.len()
            invariant
                i <= ops.len(),
                total == ops.len(),
                ops == history.ops@,
                stats.total_ops == total,
                stats.counts(ops.take(i as int)),
            decreases ops.len() - i,
        {
            proof {
                let next = ops.take(i + 1);
                let seen = ops.take(i as int);
                assert(next.drop_last() =~= seen);
                assert(next.last() == ops[i as int]);
                lemma_answered_bound(seen, Answer::ProduceOk);
                lemma_answered_bound(seen, Answer::ConsumeOk);
                lemma_answered_bound(seen, Answer::CreateTopicOk);
                lemma_answered_bound(seen, Answer::DeleteTopicOk);
                lemma_answered_bound(seen, Answer::Redirect);
                lemma_answered_bound(seen, Answer::UnresolvedRedirection);
                lemma_answered_bound(seen, Answer::NoLeader);
                lemma_answered_bound(seen, Answer::IoError);
                lemma_answered_bound(seen, Answer::Error);
            }
            match &history.ops[i].response {
                OpResponse::ProduceOk { .. } => {
                    stats.produce_ok += 1;
                },
                OpResponse::ConsumeOk { .. } => {
                    stats.consume_ok += 1;
                },
                OpResponse::CreateTopicOk { .. } => {
                    stats.create_topic_ok += 1;
                },
                OpResponse::DeleteTopicOk { .. } => {
                    stats.delete_topic_ok += 1;
                },
                OpResponse::Redirect { .. } => {
                    stats.redirects += 1;
                },
                OpResponse::UnresolvedRedirection => {
                    stats.unresolved_redirections += 1;
                },
                OpResponse::NoLeader => {
                    stats.no_leader += 1;
                },
                OpResponse::IoError { .. } => {
                    stats.io_errors += 1;
                },
                OpResponse::Error { .. } => {
                    stats.other_errors += 1;
                },
            }
            i += 1;
        }
        assert(ops.take(i as int) =~= ops);
        stats
    }

    /// `out` with the counts below it.
    pub open spec fn below(self, out: Seq<char>) -> Seq<char> {
        out + "  total_ops              = "@ + text::decimal(self.total_ops as nat) + "\n"@
            + "  produce_ok             = "@ + text::decimal(self.produce_ok as nat) + "\n"@
            + "  consume_ok             = "@ + text::decimal(self.consume_ok as nat) + "\n"@
            + "  create_topic_ok        = "@ + text::decimal(self.create_topic_ok as nat) + "\n"@
            + "  delete_topic_ok        = "@ + text::decimal(self.delete_topic_ok as nat) + "\n"@
            + "  redirects              = "@ + text::decimal(self.redirects as nat) + "\n"@
            + "  unresolved_redirection = "@ + text::decimal(self.unresolved_redirections as nat)
            + "\n"@ + "  no_leader              = "@ + text::decimal(self.no_leader as nat)
            + "\n"@ + "  io_errors              = "@ + text::decimal(self.io_errors as nat)
            + "\n"@ + "  other_errors           = "@ + text::decimal(self.other_errors as nat)
    }

    pub fn render_into(&self, out: &mut String)
        ensures
            final(out)@ == self.below(old(out)@),
    {
        push_line(out, "  total_ops              = ", self.total_ops as u64);
        push_line(out, "  produce_ok             = ", self.produce_ok as u64);
        push_line(out, "  consume_ok             = ", self.consume_ok as u64);
        push_line(out, "  create_topic_ok        = ", self.create_topic_ok as u64);
        push_line(out, "  delete_topic_ok        = ", self.delete_topic_ok as u64);
        push_line(out, "  redirects              = ", self.redirects as u64);
        push_line(out, "  unresolved_redirection = ", self.unresolved_redirections as u64);
        push_line(out, "  no_leader              = ", self.no_leader as u64);
        push_line(out, "  io_errors              = ", self.io_errors as u64);
        text::push_str(out, "  other_errors           = ");
        text::push_decimal(out, self.other_errors as u64);
    }
}

/// The counts of answers add up to the number of operations.
pub proof fn law_answers_add_up(ops: Seq<RecordedOp>)
    ensures
        answered(ops, Answer::ProduceOk) + answered(ops, Answer::ConsumeOk) + answered(
            ops,
            Answer::CreateTopicOk,
        ) + answered(ops, Answer::DeleteTopicOk) + answered(ops, Answer::Redirect) + answered(
            ops,
            Answer::UnresolvedRedirection,
        ) + answered(ops, Answer::NoLeader) + answered(ops, Answer::IoError) + answered(
            ops,
            Answer::Error,
        ) == ops.len(),
    decreases ops.len(),
{
    if ops.len() > 0 {
        law_answers_add_up(ops.drop_last());
    }
}

/// Append a label, a number and a line end.
fn push_line(out: &mut String, label: &str, n: u64)
    ensures
        final(out)@ == old(out)@ + label@ + text::decimal(n as nat) + "\n"@,
{
    text::push_str(out, label);
    text::push_decimal(out, n);
    text::push_str(out, "\n");
}

/// Append a label, a text and a line end.
fn push_text_line(out: &mut String, label: &str, value: &str)
    ensures
        final(out)@ == old(out)@ + label@ + value@ + "\n"@,
{
    text::push_str(out, label);
    text::push_str(out, value);
    text::push_str(out, "\n");
}

/// The label of an outcome.
pub open spec fn label(outcome: Outcome) -> Seq<char> {
    match outcome {
        Outcome::Passed => "PASSED"@,
        Outcome::Failed { .. } => "FAILED"@,
        Outcome::Invalid { .. } => "INVALID"@,
    }
}

pub fn outcome_label(outcome: &Outcome) -> (r: &'static str)
    ensures
        r@ == label(*outcome),
{
    match outcome {
        Outcome::Passed => "PASSED",
        Outcome::Failed { .. } => "FAILED",
        Outcome::Invalid { .. } => "INVALID",
    }
}

/// The fault intensities that are no whole numbers, as they are printed.
#[derive(Debug)]
pub struct FaultTexts {
    pub reorder_prob: String,
    pub drop_prob: String,
    pub duplicate_prob: String,
    pub partition_prob: String,
    pub crash_prob: String,
    pub max_skew_rate: String,
    pub torn_write_prob: String,
    pub io_error_prob: String,
}

/// `out` with the parameters below it.
pub open spec fn params_below(
    out: Seq<char>,
    params: ScenarioParameters,
    texts: FaultTexts,
) -> Seq<char> {
    out + "  node_count             = "@ + text::decimal(params.node_count as nat) + "\n"@
        + "  replication_factor     = "@ + text::decimal(params.replication_factor as nat) + "\n"@
        + "  partition_count        = "@ + text::decimal(params.partition_count as nat) + "\n"@
        + "  workload_size          = "@ + text::decimal(params.workload_size as nat) + "\n"@
        + "  budget.max_events      = "@ + text::decimal(params.budget.max_events as nat) + "\n"@
        + "  budget.max_virtual_ns  = "@ + text::decimal(params.budget.max_virtual_nanos as nat)
        + "\n"@ + "  faults.base_latency_ns = "@ + text::decimal(
        params.faults.base_latency_nanos as nat,
    ) + "\n"@ + "  faults.reorder_prob    = "@ + texts.reorder_prob@ + "\n"@
        + "  faults.max_reorder_ns  = "@ + text::decimal(params.faults.max_reorder_nanos as nat)
        + "\n"@ + "  faults.drop_prob       = "@ + texts.drop_prob@ + "\n"@
        + "  faults.duplicate_prob  = "@ + texts.duplicate_prob@ + "\n"@
        + "  faults.partition_prob  = "@ + texts.partition_prob@ + "\n"@
        + "  faults.crash_prob      = "@ + texts.crash_prob@ + "\n"@
        + "  faults.max_skew_ns     = "@ + text::decimal(
        params.faults.max_clock_skew_nanos as nat,
    ) + "\n"@ + "  faults.max_skew_rate   = "@ + texts.max_skew_rate@ + "\n"@
        + "  faults.torn_write_prob = "@ + texts.torn_write_prob@ + "\n"@
        + "  faults.io_error_prob   = "@ + texts.io_error_prob@
}

fn render_params_into(params: &ScenarioParameters, texts: &FaultTexts, out: &mut String)
    ensures
        final(out)@ == params_below(old(out)@, *params, *texts),
{
    push_line(out, "  node_count             = ", params.node_count as u64);
    push_line(out, "  replication_factor     = ", params.replication_factor as u64);
    push_line(out, "  partition_count        = ", params.partition_count as u64);
    push_line(out, "  workload_size          = ", params.workload_size as u64);
    push_line(out, "  budget.max_events      = ", params.budget.max_events);
    push_line(out, "  budget.max_virtual_ns  = ", params.budget.max_virtual_nanos);
    push_line(out, "  faults.base_latency_ns = ", params.faults.base_latency_nanos);
    push_text_line(out, "  faults.reorder_prob    = ", texts.reorder_prob.as_str());
    push_line(out, "  faults.max_reorder_ns  = ", params.faults.max_reorder_nanos);
    push_text_line(out, "  faults.drop_prob       = ", texts.drop_prob.as_str());
    push_text_line(out, "  faults.duplicate_prob  = ", texts.duplicate_prob.as_str());
    push_text_line(out, "  faults.partition_prob  = ", texts.partition_prob.as_str());
    push_text_line(out, "  faults.crash_prob      = ", texts.crash_prob.as_str());
    push_line(out, "  faults.max_skew_ns     = ", params.faults.max_clock_skew_nanos);
    push_text_line(out, "  faults.max_skew_rate   = ", texts.max_skew_rate.as_str());
    push_text_line(out, "  faults.torn_write_prob = ", texts.torn_write_prob.as_str());
    text::push_str(out, "  faults.io_error_prob   = ");
    text::push_str(out, texts.io_error_prob.as_str());
}

/// The summary of a run.
#[derive(Debug, PartialEq)]
pub struct RunSummary {
    pub seed: u64,
    pub params: ScenarioParameters,
    pub property: Option<PropertyId>,
    pub detected_at: Option<VirtualInstant>,
    pub detail: Option<String>,
    pub outcome: &'static str,
    pub history: HistoryStats,
}

impl Clone for RunSummary {
    fn clone(&self) -> (r: Self)
        ensures
            r == *self,
    {
        RunSummary {
            seed: self.seed,
            params: self.params,
            property: self.property,
            detected_at: self.detected_at,
            detail: match &self.detail {
                Some(detail) => Some(detail.clone()),
                None => None,
            },
            outcome: self.outcome,
            history: self.history,
        }
    }
}

impl RunSummary {
    /// Whether this is the summary of a run.
    pub open spec fn summarizes(
        self,
        seed: u64,
        params: ScenarioParameters,
        outcome: Outcome,
        ops: Seq<RecordedOp>,
    ) -> bool {
        &&& self.seed == seed
        &&& self.params == params
        &&& self.outcome@ == label(outcome)
        &&& self.history == HistoryStats::of(ops)
        &&& match outcome {
            Outcome::Passed => self.property is None && self.detected_at is None
                && self.detail is None,
            Outcome::Failed { property, at, detail } => self.property == Some(property)
                && self.detected_at == Some(at) && self.detail == Some(detail),
            Outcome::Invalid { detail } => self.property is None && self.detected_at is None
                && self.detail == Some(detail),
        }
    }

    /// The summary's text.
    pub open spec fn text(self, texts: FaultTexts) -> Seq<char> {
        self.history.below(
            params_below(self.head() + "\n## scenario parameters\n"@, self.params, texts)
                + "\n## history\n"@,
        ) + "\n"@
    }

    /// The summary of an outcome.
    pub fn from_outcome(
        seed: u64,
        params: ScenarioParameters,
        outcome: &Outcome,
        history: &History,
    ) -> (r: Self)
        ensures
            r.summarizes(seed, params, *outcome, history.ops@),
    {
        let (property, detected_at, detail) = match outcome {
            Outcome::Passed => (None, None, None),
            Outcome::Failed { property, at, detail } => (
                Some(*property),
                Some(*at),
                Some(detail.clone()),
            ),
            Outcome::Invalid { detail } => (None, None, Some(detail.clone())),
        };
        RunSummary {
            seed,
            params,
            property,
            detected_at,
            detail,
            outcome: outcome_label(outcome),
            history: HistoryStats::from_history(history),
        }
    }

    /// The name of the summary's file.
    pub fn filename(&self) -> (r: String)
        ensures
            r@ == "dst-run-"@ + text::hex(self.seed as nat, 16) + ".summary.txt"@,
    {
        let mut out = "dst-run-".to_owned();
        text::push_hex16(&mut out, self.seed);
        text::push_str(&mut out, ".summary.txt");
        out
    }

    /// The head of the summary: what there is of property, instant and detail, a line
    /// each.
    pub open spec fn head(self) -> Seq<char> {
        let a = "# Vela DST run summary\n"@ + "seed     = "@ + text::decimal(self.seed as nat)
            + " (0x"@ + text::hex(self.seed as nat, 16) + ")\n"@ + "outcome  = "@ + self.outcome@
            + "\n"@;
        let b = match self.property {
            Some(property) => a + "property = "@ + property.text() + "\n"@,
            None => a,
        };
        let c = match self.detected_at {
            Some(at) => b + "detected_at_nanos = "@ + text::decimal(at.0 as nat) + "\n"@,
            None => b,
        };
        match self.detail {
            Some(detail) => c + "detail   = "@ + detail@ + "\n"@,
            None => c,
        }
    }

    /// The summary's text.
    pub fn render(&self, texts: &FaultTexts) -> (r: String)
        ensures
            r@ == self.text(*texts),
    {
        let mut out = "# Vela DST run summary\n".to_owned();
        text::push_str(&mut out, "seed     = ");
        text::push_decimal(&mut out, self.seed);
        text::push_str(&mut out, " (0x");
        text::push_hex16(&mut out, self.seed);
        text::push_str(&mut out, ")\n");
        push_text_line(&mut out, "outcome  = ", self.outcome);
        match self.property {
            Some(property) => {
                push_text_line(&mut out, "property = ", property.name());
            },
            None => {},
        }
        match self.detected_at {
            Some(at) => {
                push_line(&mut out, "detected_at_nanos = ", at.as_nanos());
            },
            None => {},
        }
        match &self.detail {
            Some(detail) => {
                push_text_line(&mut out, "detail   = ", detail.as_str());
            },
            None => {},
        }
        assert(out@ =~= self.head());
        text::push_str(&mut out, "\n## scenario parameters\n");
        render_params_into(&self.params, texts, &mut out);
        text::push_str(&mut out, "\n## history\n");
        self.history.render_into(&mut out);
        text::push_str(&mut out, "\n");
        out
    }
}

/// The full report of a failed run.
#[derive(Debug, PartialEq)]
pub struct FailureArtifact {
    pub seed: u64,
    pub params: ScenarioParameters,
    pub property: PropertyId,
    pub detected_at: VirtualInstant,
    pub detail: String,
    pub history: History,
}

/// What the client asked for, in words.
pub open spec fn args_text(args: OpArgsView) -> Seq<char> {
    match args {
        OpArgsView::CreateTopic { topic, partitions, replication_factor } => "create topic="@
            + topic + " partitions="@ + text::decimal(partitions as nat) + " rf="@ + text::decimal(
            replication_factor as nat,
        ),
        OpArgsView::DeleteTopic { topic } => "delete topic="@ + topic,
        OpArgsView::Produce { topic, partition, key, value } => "produce topic="@ + topic + " p="@
            + text::decimal(partition.0 as nat) + " key_len="@ + text::decimal(
            match key {
                Some(k) => k.len(),
                None => 0,
            },
        ) + " value_len="@ + text::decimal(value.len()),
        OpArgsView::Consume { topic, partition, start_offset, max_records } => "consume topic="@
            + topic + " p="@ + text::decimal(partition.0 as nat) + " start="@ + text::decimal(
            start_offset as nat,
        ) + " max="@ + text::decimal(max_records as nat),
    }
}

/// What the client was answered, in words.
pub open spec fn response_text(response: OpResponseView) -> Seq<char> {
    match response {
        OpResponseView::ProduceOk { topic, partition, value, offset } => "ProduceOk p="@
            + text::decimal(partition.0 as nat) + " offset="@ + text::decimal(offset as nat),
        OpResponseView::ConsumeOk { topic, partition, start_offset, records } => "ConsumeOk p="@
            + text::decimal(partition.0 as nat) + " start="@ + text::decimal(start_offset as nat)
            + " records="@ + text::decimal(records.len()),
        OpResponseView::CreateTopicOk { topic } => "CreateTopicOk topic="@ + topic,
        OpResponseView::DeleteTopicOk { topic } => "DeleteTopicOk topic="@ + topic,
        OpResponseView::Redirect { leader } => "Redirect leader="@ + leader,
        OpResponseView::UnresolvedRedirection => "UnresolvedRedirection"@,
        OpResponseView::NoLeader => "NoLeader"@,
        OpResponseView::IoError { message } => "IoError("@ + message + ")"@,
        OpResponseView::Error { message } => "Error("@ + message + ")"@,
    }
}

/// An operation in words.
pub open spec fn op_text(op: RecordedOpView) -> Seq<char> {
    "t["@ + text::decimal(op.invoked_at.0 as nat) + ".."@ + text::decimal(op.responded_at.0 as nat)
        + "] "@ + args_text(op.args) + " -> "@ + response_text(op.response)
}

fn render_args(args: &OpArgs) -> (r: String)
    ensures
        r@ == args_text(args@),
{
    match args {
        OpArgs::CreateTopic { topic, partitions, replication_factor } => {
            let mut out = "create topic=".to_owned();
            text::push_str(&mut out, topic.as_str());
            text::push_str(&mut out, " partitions=");
            text::push_decimal(&mut out, *partitions as u64);
            text::push_str(&mut out, " rf=");
            text::push_decimal(&mut out, *replication_factor as u64);
            out
        },
        OpArgs::DeleteTopic { topic } => {
            let mut out = "delete topic=".to_owned();
            text::push_str(&mut out, topic.as_str());
            out
        },
        OpArgs::Produce { topic, partition, key, value } => {
            let mut out = "produce topic=".to_owned();
            text::push_str(&mut out, topic.as_str());
            text::push_str(&mut out, " p=");
            text::push_decimal(&mut out, partition.0 as u64);
            text::push_str(&mut out, " key_len=");
            let key_len: usize = match key {
                Some(k) => k.len(),
                None => 0,
            };
            text::push_decimal(&mut out, key_len as u64);
            text::push_str(&mut out, " value_len=");
            text::push_decimal(&mut out, value.len() as u64);
            out
        },
        OpArgs::Consume { topic, partition, start_offset, max_records } => {
            let mut out = "consume topic=".to_owned();
            text::push_str(&mut out, topic.as_str());
            text::push_str(&mut out, " p=");
            text::push_decimal(&mut out, partition.0 as u64);
            text::push_str(&mut out, " start=");
            text::push_decimal(&mut out, *start_offset);
            text::push_str(&mut out, " max=");
            text::push_decimal(&mut out, *max_records as u64);
            out
        },
    }
}

fn render_response(response: &OpResponse) -> (r: String)
    ensures
        r@ == response_text(response@),
{
    match response {
        OpResponse::ProduceOk { topic, partition, value, offset } => {
            let mut out = "ProduceOk p=".to_owned();
            text::push_decimal(&mut out, partition.0 as u64);
            text::push_str(&mut out, " offset=");
            text::push_decimal(&mut out, *offset);
            out
        },
        OpResponse::ConsumeOk { topic, partition, start_offset, records } => {
            let mut out = "ConsumeOk p=".to_owned();
            text::push_decimal(&mut out, partition.0 as u64);
            text::push_str(&mut out, " start=");
            text::push_decimal(&mut out, *start_offset);
            text::push_str(&mut out, " records=");
            text::push_decimal(&mut out, records.len() as u64);
            out
        },
        OpResponse::CreateTopicOk { topic } => {
            let mut out = "CreateTopicOk topic=".to_owned();
            text::push_str(&mut out, topic.as_str());
            out
        },
        OpResponse::DeleteTopicOk { topic } => {
            let mut out = "DeleteTopicOk topic=".to_owned();
            text::push_str(&mut out, topic.as_str());
            out
        },
        OpResponse::Redirect { leader } => {
            let mut out = "Redirect leader=".to_owned();
            text::push_str(&mut out, leader.as_str());
            out
        },
        OpResponse::UnresolvedRedirection => "UnresolvedRedirection".to_owned(),
        OpResponse::NoLeader => "NoLeader".to_owned(),
        OpResponse::IoError { message } => {
            let mut out = "IoError(".to_owned();
            text::push_str(&mut out, message.as_str());
            text::push_str(&mut out, ")");
            out
        },
        OpResponse::Error { message } => {
            let mut out = "Error(".to_owned();
            text::push_str(&mut out, message.as_str());
            text::push_str(&mut out, ")");
            out
        },
    }
}

/// An operation in words, on one line.
pub fn render_op(op: &RecordedOp) -> (r: String)
    ensures
        r@ == op_text(op@),
{
    let args = render_args(&op.args);
    let response = render_response(&op.response);
    let mut out = "t[".to_owned();
    text::push_decimal(&mut out, op.invoked_at.as_nanos());
    text::push_str(&mut out, "..");
    text::push_decimal(&mut out, op.responded_at.as_nanos());
    text::push_str(&mut out, "] ");
    text::push_str(&mut out, args.as_str());
    text::push_str(&mut out, " -> ");
    text::push_str(&mut out, response.as_str());
    out
}

/// `out` with the first `n` operations below it, a line each.
pub open spec fn ops_below(out: Seq<char>, ops: Seq<RecordedOp>, n: nat) -> Seq<char>
    decreases n,
{
    if n == 0 {
        out
    } else {
        ops_below(out, ops, (n - 1) as nat) + "  ["@ + text::decimal((n - 1) as nat) + "] "@
            + op_text(ops[n - 1]@) + "\n"@
    }
}

impl Clone for FailureArtifact {
    fn clone(&self) -> (r: Self)
        ensures
            r == (FailureArtifact { history: r.history, ..*self }),
            history::op_views(r.history.ops@) == history::op_views(self.history.ops@),
    {
        FailureArtifact {
            seed: self.seed,
            params: self.params,
            property: self.property,
            detected_at: self.detected_at,
            detail: self.detail.clone(),
            history: self.history.clone(),
        }
    }
}

impl FailureArtifact {
    /// Whether this is the report of a failed run.
    pub open spec fn reports(
        self,
        seed: u64,
        params: ScenarioParameters,
        outcome: Outcome,
        ops: Seq<RecordedOp>,
    ) -> bool {
        &&& self.seed == seed
        &&& self.params == params
        &&& outcome matches Outcome::Failed { property, at, detail } && self.property == property
            && self.detected_at == at && self.detail == detail
        &&& history::op_views(self.history.ops@) == history::op_views(ops)
    }

    /// The report of an outcome: there is one exactly for a failure.
    pub fn from_outcome(
        seed: u64,
        params: ScenarioParameters,
        outcome: &Outcome,
        history: &History,
    ) -> (r: Option<Self>)
        ensures
            match outcome {
                Outcome::Failed { .. } => r matches Some(a) && a.reports(
                    seed,
                    params,
                    *outcome,
                    history.ops@,
                ),
                _ => r is None,
            },
    {
        match outcome {
            Outcome::Failed { property, at, detail } => Some(
                FailureArtifact {
                    seed,
                    params,
                    property: *property,
                    detected_at: *at,
                    detail: detail.clone(),
                    history: history.clone(),
                },
            ),
            _ => None,
        }
    }

    /// The name of the report's file.
    pub fn filename(&self) -> (r: String)
        ensures
            r@ == "dst-failure-"@ + text::hex(self.seed as nat, 16) + ".txt"@,
    {
        let mut out = "dst-failure-".to_owned();
        text::push_hex16(&mut out, self.seed);
        text::push_str(&mut out, ".txt");
        out
    }

    /// The head of the report, with how to replay the run.
    pub open spec fn head(self) -> Seq<char> {
        "# Vela DST failure artifact\n"@ + "seed              = "@ + text::decimal(
            self.seed as nat,
        ) + " (0x"@ + text::hex(self.seed as nat, 16) + ")\n"@ + "violated_property = "@
            + self.property.text() + "\n"@ + "detected_at_nanos = "@ + text::decimal(
            self.detected_at.0 as nat,
        ) + "\n"@ + "detail            = "@ + self.detail@ + "\n"@ + "\n## replay\n"@
            + "A Vela DST run is a pure function of (seed, params): re-running\n"@
            + "SimRuntime::run(RunConfig { seed, params }) with the seed and\n"@
            + "parameters above reproduces this exact failing Outcome and the same\n"@
            + "violated property. No separate event-by-event trace is required; the\n"@
            + "recorded History below is included so the failure can be read without\n"@
            + "a re-run.\n"@
    }

    /// The report's text, but for the operations.
    pub open spec fn preamble(self, texts: FaultTexts) -> Seq<char> {
        HistoryStats::of(self.history.ops@).below(
            params_below(self.head() + "\n## scenario parameters\n"@, self.params, texts)
                + "\n## history ("@ + text::decimal(self.history.ops@.len()) + " ops)\n"@,
        ) + "\n"@
    }

    /// The report's text.
    pub open spec fn text(self, texts: FaultTexts) -> Seq<char> {
        if self.history.ops@.len() == 0 {
            self.preamble(texts) + "\n  (no client operations were recorded)\n"@
        } else {
            ops_below(
                self.preamble(texts) + "\n## recorded operations\n"@,
                self.history.ops@,
                self.history.ops@.len(),
            )
        }
    }

    /// The report's text.
    pub fn render(&self, texts: &FaultTexts) -> (r: String)
        ensures
            r@ == self.text(*texts),
    {
        let mut out = "# Vela DST failure artifact\n".to_owned();
        text::push_str(&mut out, "seed              = ");
        text::push_decimal(&mut out, self.seed);
        text::push_str(&mut out, " (0x");
        text::push_hex16(&mut out, self.seed);
        text::push_str(&mut out, ")\n");
        push_text_line(&mut out, "violated_property = ", self.property.name());
        push_line(&mut out, "detected_at_nanos = ", self.detected_at.as_nanos());
        push_text_line(&mut out, "detail            = ", self.detail.as_str());
        text::push_str(&mut out, "\n## replay\n");
        text::push_str(
            &mut out,
            "A Vela DST run is a pure function of (seed, params): re-running\n",
        );
        text::push_str(
            &mut out,
            "SimRuntime::run(RunConfig { seed, params }) with the seed and\n",
        );
        text::push_str(
            &mut out,
            "parameters above reproduces this exact failing Outcome and the same\n",
        );
        text::push_str(
            &mut out,
            "violated property. No separate event-by-event trace is required; the\n",
        );
        text::push_str(
            &mut out,
            "recorded History below is included so the failure can be read without\n",
        );
        text::push_str(&mut out, "a re-run.\n");
        assert(out@ == self.head());
        text::push_str(&mut out, "\n## scenario parameters\n");
        render_params_into(&self.params, texts, &mut out);
        text::push_str(&mut out, "\n## history (");
        text::push_decimal(&mut out, self.history.len() as u64);
        text::push_str(&mut out, " ops)\n");
        let stats = HistoryStats::from_history(&self.history);
        stats.render_into(&mut out);
        text::push_str(&mut out, "\n");
        assert(out@ == self.preamble(*texts));
        if self.history.is_empty() {
            text::push_str(&mut out, "\n  (no client operations were recorded)\n");
        } else {
            text::push_str(&mut out, "\n## recorded operations\n");
            let ghost base = out@;
            let ghost ops = self.history.ops@;
            let mut i: usize = 0;
            while i < self.history.ops.len()
                invariant
                    i <= ops.len(),
                    ops == self.history.ops@,
                    out@ == ops_below(base, ops, i as nat),
                decreases ops.len() - i,
            {
                text::push_str(&mut out, "  [");
                text::push_decimal(&mut out, i as u64);
                text::push_str(&mut out, "] ");
                let line = render_op(&self.history.ops[i]);
                text::push_str(&mut out, line.as_str());
                text::push_str(&mut out, "\n");
                i += 1;
            }
        }
        out
    }
}

/// A file to write: its name and its text.
#[derive(Debug)]
pub struct ReportFile {
    pub name: String,
    pub text: String,
}

/// The files that a run leaves behind: its summary, and a failure report for a run
/// that failed.
pub fn run_reports(
    seed: u64,
    params: ScenarioParameters,
    texts: &FaultTexts,
    outcome: &Outcome,
    history: &History,
) -> (r: (ReportFile, Option<ReportFile>))
    ensures
        r.0.name@ == "dst-run-"@ + text::hex(seed as nat, 16) + ".summary.txt"@,
        exists|s: RunSummary| #[trigger]
            s.summarizes(seed, params, *outcome, history.ops@) && r.0.text@ == s.text(*texts),
        r.1 is Some == outcome is Failed,
        r.1 matches Some(f) ==> {
            &&& f.name@ == "dst-failure-"@ + text::hex(seed as nat, 16) + ".txt"@
            &&& exists|a: FailureArtifact| #[trigger]
                a.reports(seed, params, *outcome, history.ops@) && f.text@ == a.text(*texts)
        },
{
    let summary = RunSummary::from_outcome(seed, params, outcome, history);
    let first = ReportFile { name: summary.filename(), text: summary.render(texts) };
    let second = match FailureArtifact::from_outcome(seed, params, outcome, history) {
        Some(artifact) => Some(
            ReportFile { name: artifact.filename(), text: artifact.render(texts) },
        ),
        None => None,
    };
    (first, second)
}

/// Two seeds never share a report file.
pub proof fn law_report_names_tell_seeds_apart(a: u64, b: u64)
    requires
        text::hex(a as nat, 16) == text::hex(b as nat, 16),
    ensures
        a == b,
{
    text::law_hex_injective(a as nat, b as nat, 16);
    assert(text::power16(16) == 0x1_0000_0000_0000_0000) by {
        reveal_with_fuel(text::power16, 17);
    }
}

} // verus!
