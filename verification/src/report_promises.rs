//! What the reports of a run hold, in the words of its outcome and its history.

use crate::artifact::{self, Answer, FailureArtifact, FaultTexts, HistoryStats, RunSummary};
use crate::history::{self, OpArgsView, OpResponseView, RecordedOp, RecordedOpView};
use crate::runtime::Outcome;
use crate::scenario::ScenarioParameters;
use crate::text;
use vstd::prelude::*;

verus! {

/// The statistics count the operations by what they were told, each kind of answer by
/// itself.
pub proof fn law_statistics_count_the_answers(ops: Seq<RecordedOp>)
    requires
        ops.len() <= usize::MAX,
    ensures
        HistoryStats::of(ops).total_ops == ops.len(),
        HistoryStats::of(ops).produce_ok == ops.filter(|op: RecordedOp| op.response is ProduceOk).len(),
        HistoryStats::of(ops).consume_ok == ops.filter(|op: RecordedOp| op.response is ConsumeOk).len(),
        HistoryStats::of(ops).create_topic_ok == ops.filter(|op: RecordedOp| op.response is CreateTopicOk).len(),
        HistoryStats::of(ops).delete_topic_ok == ops.filter(|op: RecordedOp| op.response is DeleteTopicOk).len(),
        HistoryStats::of(ops).redirects == ops.filter(|op: RecordedOp| op.response is Redirect).len(),
        HistoryStats::of(ops).unresolved_redirections == ops.filter(|op: RecordedOp| op.response is UnresolvedRedirection).len(),
        HistoryStats::of(ops).no_leader == ops.filter(|op: RecordedOp| op.response is NoLeader).len(),
        HistoryStats::of(ops).io_errors == ops.filter(|op: RecordedOp| op.response is IoError).len(),
        HistoryStats::of(ops).other_errors == ops.filter(|op: RecordedOp| op.response is Error).len(),
{
    lemma_answers_filtered(ops);
}

proof fn lemma_answers_filtered(ops: Seq<RecordedOp>)
    ensures
        artifact::answered(ops, Answer::ProduceOk) == ops.filter(|op: RecordedOp| op.response is ProduceOk).len(),
        artifact::answered(ops, Answer::ProduceOk) <= ops.len(),
        artifact::answered(ops, Answer::ConsumeOk) == ops.filter(|op: RecordedOp| op.response is ConsumeOk).len(),
        artifact::answered(ops, Answer::ConsumeOk) <= ops.len(),
        artifact::answered(ops, Answer::CreateTopicOk) == ops.filter(|op: RecordedOp| op.response is CreateTopicOk).len(),
        artifact::answered(ops, Answer::CreateTopicOk) <= ops.len(),
        artifact::answered(ops, Answer::DeleteTopicOk) == ops.filter(|op: RecordedOp| op.response is DeleteTopicOk).len(),
        artifact::answered(ops, Answer::DeleteTopicOk) <= ops.len(),
        artifact::answered(ops, Answer::Redirect) == ops.filter(|op: RecordedOp| op.response is Redirect).len(),
        artifact::answered(ops, Answer::Redirect) <= ops.len(),
        artifact::answered(ops, Answer::UnresolvedRedirection) == ops.filter(|op: RecordedOp| op.response is UnresolvedRedirection).len(),
        artifact::answered(ops, Answer::UnresolvedRedirection) <= ops.len(),
        artifact::answered(ops, Answer::NoLeader) == ops.filter(|op: RecordedOp| op.response is NoLeader).len(),
        artifact::answered(ops, Answer::NoLeader) <= ops.len(),
        artifact::answered(ops, Answer::IoError) == ops.filter(|op: RecordedOp| op.response is IoError).len(),
        artifact::answered(ops, Answer::IoError) <= ops.len(),
        artifact::answered(ops, Answer::Error) == ops.filter(|op: RecordedOp| op.response is Error).len(),
        artifact::answered(ops, Answer::Error) <= ops.len(),
    decreases ops.len(),
{
    reveal(Seq::filter);
    if ops.len() > 0 {
        lemma_answers_filtered(ops.drop_last());
    }
}

/// A report lists every operation in its turn, on a line of its own under its number. The
/// result is what stands before the line and behind it.
pub proof fn law_every_operation_is_listed(
    out: Seq<char>,
    ops: Seq<RecordedOp>,
    n: nat,
    i: int,
) -> (around: (Seq<char>, Seq<char>))
    requires
        0 <= i < n <= ops.len(),
    ensures
        artifact::ops_below(out, ops, n) == around.0 + ("  ["@ + text::decimal(i as nat) + "] "@
            + artifact::op_text(ops[i]@) + "\n"@) + around.1,
    decreases n,
{
    let p = (n - 1) as nat;
    let fore = artifact::ops_below(out, ops, p);
    lemma_line(fore, "  ["@, text::decimal(p), "] "@, artifact::op_text(ops[p as int]@), "\n"@);
    let last = "  ["@ + text::decimal(p) + "] "@ + artifact::op_text(ops[p as int]@) + "\n"@;
    if i == p {
        assert(fore + last =~= fore + last + Seq::<char>::empty());
        (fore, Seq::empty())
    } else {
        let around = law_every_operation_is_listed(out, ops, p, i);
        let line = "  ["@ + text::decimal(i as nat) + "] "@ + artifact::op_text(ops[i]@) + "\n"@;
        lemma_grouped(around.0 + line, around.1, last);
        (around.0, around.1 + last)
    }
}

proof fn lemma_line(
    fore: Seq<char>,
    a: Seq<char>,
    b: Seq<char>,
    c: Seq<char>,
    d: Seq<char>,
    e: Seq<char>,
)
    ensures
        fore + a + b + c + d + e == fore + (a + b + c + d + e),
{
    assert(fore + a + b + c + d + e =~= fore + (a + b + c + d + e));
}

proof fn lemma_grouped(a: Seq<char>, b: Seq<char>, c: Seq<char>)
    ensures
        a + b + c == a + (b + c),
{
    assert(a + b + c =~= a + (b + c));
}

/// An operation's line says when it was invoked and when it was answered, what it asked
/// for and what it was told.
pub proof fn law_lines_say_what_was_asked_and_told(op: RecordedOpView)
    ensures
        artifact::op_text(op) == "t["@ + text::decimal(op.invoked_at.0 as nat) + ".."@
            + text::decimal(op.responded_at.0 as nat) + "] "@ + artifact::args_text(op.args)
            + " -> "@ + artifact::response_text(op.response),
        match op.args {
            OpArgsView::CreateTopic { topic, partitions, replication_factor } => {
                artifact::args_text(op.args) == "create topic="@ + topic + " partitions="@
                    + text::decimal(partitions as nat) + " rf="@ + text::decimal(
                    replication_factor as nat,
                )
            },
            OpArgsView::DeleteTopic { topic } => artifact::args_text(op.args) == "delete topic="@
                + topic,
            OpArgsView::Produce { topic, partition, key, value } => artifact::args_text(op.args)
                == "produce topic="@ + topic + " p="@ + text::decimal(partition.0 as nat)
                + " key_len="@ + text::decimal(
                if key is Some {
                    (key->0).len()
                } else {
                    0
                },
            ) + " value_len="@ + text::decimal(value.len()),
            OpArgsView::Consume { topic, partition, start_offset, max_records } => {
                artifact::args_text(op.args) == "consume topic="@ + topic + " p="@ + text::decimal(
                    partition.0 as nat,
                ) + " start="@ + text::decimal(start_offset as nat) + " max="@ + text::decimal(
                    max_records as nat,
                )
            },
        },
{
}

/// How an operation's answer reads.
pub proof fn law_answers_are_spelled_out(response: OpResponseView)
    ensures
        match response {
            OpResponseView::ProduceOk { partition, offset, .. } => artifact::response_text(response)
                == "ProduceOk p="@ + text::decimal(partition.0 as nat) + " offset="@
                + text::decimal(offset as nat),
            OpResponseView::ConsumeOk { partition, start_offset, records, .. } => artifact::response_text(
                response,
            ) == "ConsumeOk p="@ + text::decimal(partition.0 as nat) + " start="@ + text::decimal(
                start_offset as nat,
            ) + " records="@ + text::decimal(records.len()),
            OpResponseView::CreateTopicOk { topic } => artifact::response_text(response)
                == "CreateTopicOk topic="@ + topic,
            OpResponseView::DeleteTopicOk { topic } => artifact::response_text(response)
                == "DeleteTopicOk topic="@ + topic,
            OpResponseView::Redirect { leader } => artifact::response_text(response) == "Redirect leader="@
                + leader,
            OpResponseView::UnresolvedRedirection => artifact::response_text(response)
                == "UnresolvedRedirection"@,
            OpResponseView::NoLeader => artifact::response_text(response) == "NoLeader"@,
            OpResponseView::IoError { message } => artifact::response_text(response) == "IoError("@ + message
                + ")"@,
            OpResponseView::Error { message } => artifact::response_text(response) == "Error("@ + message
                + ")"@,
        },
{
}

/// A summary says how the run ended: its seed, passed, failed or invalid, and for a failure
/// what was violated and when.
pub proof fn law_summaries_say_how_a_run_ended(
    s: RunSummary,
    seed: u64,
    params: ScenarioParameters,
    outcome: Outcome,
    ops: Seq<RecordedOp>,
)
    requires
        s.summarizes(seed, params, outcome, ops),
    ensures
        s.seed == seed,
        s.params == params,
        outcome is Passed ==> s.outcome@ == "PASSED"@ && s.property is None && s.detected_at is None,
        outcome is Failed ==> s.outcome@ == "FAILED"@,
        outcome is Invalid ==> s.outcome@ == "INVALID"@ && s.property is None,
        outcome matches Outcome::Failed { property, at, detail } ==> s.property == Some(property)
            && s.detected_at == Some(at) && s.detail == Some(detail),
        outcome matches Outcome::Invalid { detail } ==> s.detail == Some(detail),
        s.history == HistoryStats::of(ops),
{
}

/// A failure report is that of its run: its seed and parameters, what was violated, when
/// and how, and every operation as it was recorded.
pub proof fn law_failure_reports_are_complete(
    a: FailureArtifact,
    seed: u64,
    params: ScenarioParameters,
    outcome: Outcome,
    ops: Seq<RecordedOp>,
    i: int,
)
    requires
        a.reports(seed, params, outcome, ops),
        0 <= i < ops.len(),
    ensures
        a.seed == seed,
        a.params == params,
        outcome is Failed,
        a.property == outcome->Failed_property,
        a.detected_at == outcome->Failed_at,
        a.detail == outcome->Failed_detail,
        a.history.ops@.len() == ops.len(),
        a.history.ops@[i]@ == ops[i]@,
{
    let mine = history::op_views(a.history.ops@);
    let theirs = history::op_views(ops);
    assert(mine.len() == theirs.len());
    assert(mine[i] == theirs[i]);
}

/// Whether `piece` stands in `whole` from `k` on.
pub open spec fn stands_at(whole: Seq<char>, piece: Seq<char>, k: int) -> bool {
    &&& 0 <= k <= whole.len() - piece.len()
    &&& whole.subrange(k, k + piece.len()) == piece
}

/// Whether `piece` stands somewhere in `whole`.
#[verifier::opaque]
pub open spec fn shows(whole: Seq<char>, piece: Seq<char>) -> bool {
    exists|k: int| stands_at(whole, piece, k)
}

/// Whether every parameter stands in `whole` under its name.
pub open spec fn lists_parameters(
    whole: Seq<char>,
    params: ScenarioParameters,
    texts: FaultTexts,
) -> bool {
    &&& shows(whole, "  node_count             = "@ + text::decimal(params.node_count as nat) + "\n"@)
    &&& shows(whole, "  replication_factor     = "@ + text::decimal(params.replication_factor as nat) + "\n"@)
    &&& shows(whole, "  partition_count        = "@ + text::decimal(params.partition_count as nat) + "\n"@)
    &&& shows(whole, "  workload_size          = "@ + text::decimal(params.workload_size as nat) + "\n"@)
    &&& shows(whole, "  budget.max_events      = "@ + text::decimal(params.budget.max_events as nat) + "\n"@)
    &&& shows(whole, "  budget.max_virtual_ns  = "@ + text::decimal(params.budget.max_virtual_nanos as nat) + "\n"@)
    &&& shows(whole, "  faults.base_latency_ns = "@ + text::decimal(params.faults.base_latency_nanos as nat) + "\n"@)
    &&& shows(whole, "  faults.reorder_prob    = "@ + texts.reorder_prob@ + "\n"@)
    &&& shows(whole, "  faults.max_reorder_ns  = "@ + text::decimal(params.faults.max_reorder_nanos as nat) + "\n"@)
    &&& shows(whole, "  faults.drop_prob       = "@ + texts.drop_prob@ + "\n"@)
    &&& shows(whole, "  faults.duplicate_prob  = "@ + texts.duplicate_prob@ + "\n"@)
    &&& shows(whole, "  faults.partition_prob  = "@ + texts.partition_prob@ + "\n"@)
    &&& shows(whole, "  faults.crash_prob      = "@ + texts.crash_prob@ + "\n"@)
    &&& shows(whole, "  faults.max_skew_ns     = "@ + text::decimal(params.faults.max_clock_skew_nanos as nat) + "\n"@)
    &&& shows(whole, "  faults.max_skew_rate   = "@ + texts.max_skew_rate@ + "\n"@)
    &&& shows(whole, "  faults.torn_write_prob = "@ + texts.torn_write_prob@ + "\n"@)
    &&& shows(whole, "  faults.io_error_prob   = "@ + texts.io_error_prob@)
}

/// Whether every count stands in `whole` under its name.
pub open spec fn lists_counts(whole: Seq<char>, stats: HistoryStats) -> bool {
    &&& shows(whole, "  total_ops              = "@ + text::decimal(stats.total_ops as nat) + "\n"@)
    &&& shows(whole, "  produce_ok             = "@ + text::decimal(stats.produce_ok as nat) + "\n"@)
    &&& shows(whole, "  consume_ok             = "@ + text::decimal(stats.consume_ok as nat) + "\n"@)
    &&& shows(whole, "  create_topic_ok        = "@ + text::decimal(stats.create_topic_ok as nat) + "\n"@)
    &&& shows(whole, "  delete_topic_ok        = "@ + text::decimal(stats.delete_topic_ok as nat) + "\n"@)
    &&& shows(whole, "  redirects              = "@ + text::decimal(stats.redirects as nat) + "\n"@)
    &&& shows(whole, "  unresolved_redirection = "@ + text::decimal(stats.unresolved_redirections as nat) + "\n"@)
    &&& shows(whole, "  no_leader              = "@ + text::decimal(stats.no_leader as nat) + "\n"@)
    &&& shows(whole, "  io_errors              = "@ + text::decimal(stats.io_errors as nat) + "\n"@)
    &&& shows(whole, "  other_errors           = "@ + text::decimal(stats.other_errors as nat))
}

/// What is appended stands in the whole, and what stood before still does.
proof fn lemma_appended(w: Seq<char>, x: Seq<char>)
    ensures
        shows(w + x, x),
        forall|p: Seq<char>| shows(w, p) ==> #[trigger] shows(w + x, p),
{
    reveal(shows);
    assert((w + x).subrange(w.len() as int, (w.len() + x.len()) as int) =~= x);
    assert(stands_at(w + x, x, w.len() as int));
    assert forall|p: Seq<char>| shows(w, p) implies #[trigger] shows(w + x, p) by {
        let k = choose|k: int| stands_at(w, p, k);
        assert((w + x).subrange(k, k + p.len()) =~= w.subrange(k, k + p.len()));
        assert(stands_at(w + x, p, k));
    }
}

proof fn lemma_value_shown(w: Seq<char>, name: Seq<char>, value: Seq<char>) -> (r: Seq<char>)
    ensures
        r == w + name + value,
        shows(r, name + value),
        forall|p: Seq<char>| shows(w, p) ==> #[trigger] shows(r, p),
{
    lemma_appended(w, name + value);
    assert(w + name + value =~= w + (name + value));
    w + name + value
}

proof fn lemma_line_shown(
    w: Seq<char>,
    name: Seq<char>,
    value: Seq<char>,
    end: Seq<char>,
) -> (r: Seq<char>)
    ensures
        r == w + name + value + end,
        shows(r, name + value + end),
        forall|p: Seq<char>| shows(w, p) ==> #[trigger] shows(r, p),
{
    lemma_appended(w, name + value + end);
    assert(w + name + value + end =~= w + (name + value + end));
    w + name + value + end
}

proof fn lemma_seed_shown(w: Seq<char>, name: Seq<char>, dec: Seq<char>, hex: Seq<char>) -> (r: Seq<
    char,
>)
    ensures
        r == w + name + dec + " (0x"@ + hex + ")\n"@,
        shows(r, name + dec + " (0x"@ + hex + ")\n"@),
        forall|p: Seq<char>| shows(w, p) ==> #[trigger] shows(r, p),
{
    let x = name + dec + " (0x"@ + hex + ")\n"@;
    lemma_appended(w, x);
    assert(w + name + dec + " (0x"@ + hex + ")\n"@ =~= w + x);
    w + name + dec + " (0x"@ + hex + ")\n"@
}

/// The line of operation `i`, under its number.
pub open spec fn operation_line(ops: Seq<RecordedOp>, i: int) -> Seq<char> {
    "  ["@ + text::decimal(i as nat) + "] "@ + artifact::op_text(ops[i]@) + "\n"@
}

proof fn lemma_operations_below(out: Seq<char>, ops: Seq<RecordedOp>, n: nat)
    ensures
        forall|i: int|
            0 <= i < n ==> shows(
                artifact::ops_below(out, ops, n),
                #[trigger] operation_line(ops, i),
            ),
        forall|p: Seq<char>| shows(out, p) ==> #[trigger] shows(artifact::ops_below(out, ops, n), p),
    decreases n,
{
    if n > 0 {
        let m = (n - 1) as nat;
        lemma_operations_below(out, ops, m);
        let w = artifact::ops_below(out, ops, m);
        lemma_line(w, "  ["@, text::decimal(m), "] "@, artifact::op_text(ops[m as int]@), "\n"@);
        lemma_appended(w, operation_line(ops, m as int));
        assert(artifact::ops_below(out, ops, n) == w + operation_line(ops, m as int));
    }
}

/// Every parameter is listed under its name, below what stood there already.
pub proof fn law_parameters_are_listed(
    out: Seq<char>,
    params: ScenarioParameters,
    texts: FaultTexts,
)
    ensures
        lists_parameters(artifact::params_below(out, params, texts), params, texts),
        forall|p: Seq<char>|
            shows(out, p) ==> #[trigger] shows(artifact::params_below(out, params, texts), p),
{
    let w1 = lemma_line_shown(out, "  node_count             = "@, text::decimal(params.node_count as nat), "\n"@);
    let w2 = lemma_line_shown(w1, "  replication_factor     = "@, text::decimal(params.replication_factor as nat), "\n"@);
    let w3 = lemma_line_shown(w2, "  partition_count        = "@, text::decimal(params.partition_count as nat), "\n"@);
    let w4 = lemma_line_shown(w3, "  workload_size          = "@, text::decimal(params.workload_size as nat), "\n"@);
    let w5 = lemma_line_shown(w4, "  budget.max_events      = "@, text::decimal(params.budget.max_events as nat), "\n"@);
    let w6 = lemma_line_shown(w5, "  budget.max_virtual_ns  = "@, text::decimal(params.budget.max_virtual_nanos as nat), "\n"@);
    let w7 = lemma_line_shown(w6, "  faults.base_latency_ns = "@, text::decimal(params.faults.base_latency_nanos as nat), "\n"@);
    let w8 = lemma_line_shown(w7, "  faults.reorder_prob    = "@, texts.reorder_prob@, "\n"@);
    let w9 = lemma_line_shown(w8, "  faults.max_reorder_ns  = "@, text::decimal(params.faults.max_reorder_nanos as nat), "\n"@);
    let w10 = lemma_line_shown(w9, "  faults.drop_prob       = "@, texts.drop_prob@, "\n"@);
    let w11 = lemma_line_shown(w10, "  faults.duplicate_prob  = "@, texts.duplicate_prob@, "\n"@);
    let w12 = lemma_line_shown(w11, "  faults.partition_prob  = "@, texts.partition_prob@, "\n"@);
    let w13 = lemma_line_shown(w12, "  faults.crash_prob      = "@, texts.crash_prob@, "\n"@);
    let w14 = lemma_line_shown(w13, "  faults.max_skew_ns     = "@, text::decimal(params.faults.max_clock_skew_nanos as nat), "\n"@);
    let w15 = lemma_line_shown(w14, "  faults.max_skew_rate   = "@, texts.max_skew_rate@, "\n"@);
    let w16 = lemma_line_shown(w15, "  faults.torn_write_prob = "@, texts.torn_write_prob@, "\n"@);
    let w17 = lemma_value_shown(w16, "  faults.io_error_prob   = "@, texts.io_error_prob@);
    assert(w17 == artifact::params_below(out, params, texts));
}

/// Every count is listed under its name, below what stood there already.
pub proof fn law_counts_are_listed(out: Seq<char>, stats: HistoryStats)
    ensures
        lists_counts(stats.below(out), stats),
        forall|p: Seq<char>| shows(out, p) ==> #[trigger] shows(stats.below(out), p),
{
    let w1 = lemma_line_shown(out, "  total_ops              = "@, text::decimal(stats.total_ops as nat), "\n"@);
    let w2 = lemma_line_shown(w1, "  produce_ok             = "@, text::decimal(stats.produce_ok as nat), "\n"@);
    let w3 = lemma_line_shown(w2, "  consume_ok             = "@, text::decimal(stats.consume_ok as nat), "\n"@);
    let w4 = lemma_line_shown(w3, "  create_topic_ok        = "@, text::decimal(stats.create_topic_ok as nat), "\n"@);
    let w5 = lemma_line_shown(w4, "  delete_topic_ok        = "@, text::decimal(stats.delete_topic_ok as nat), "\n"@);
    let w6 = lemma_line_shown(w5, "  redirects              = "@, text::decimal(stats.redirects as nat), "\n"@);
    let w7 = lemma_line_shown(w6, "  unresolved_redirection = "@, text::decimal(stats.unresolved_redirections as nat), "\n"@);
    let w8 = lemma_line_shown(w7, "  no_leader              = "@, text::decimal(stats.no_leader as nat), "\n"@);
    let w9 = lemma_line_shown(w8, "  io_errors              = "@, text::decimal(stats.io_errors as nat), "\n"@);
    let w10 = lemma_value_shown(w9, "  other_errors           = "@, text::decimal(stats.other_errors as nat));
    assert(w10 == stats.below(out));
}

/// A summary shows the seed and the outcome; what was violated, when and how, where there
/// is that to say; every parameter and every count.
pub proof fn law_summaries_show_what_they_hold(s: RunSummary, texts: FaultTexts)
    ensures
        shows(
            s.text(texts),
            "seed     = "@ + text::decimal(s.seed as nat) + " (0x"@ + text::hex(s.seed as nat, 16)
                + ")\n"@,
        ),
        shows(s.text(texts), "outcome  = "@ + s.outcome@ + "\n"@),
        s.property is Some ==> shows(
            s.text(texts),
            "property = "@ + (s.property->0).text() + "\n"@,
        ),
        s.detected_at is Some ==> shows(
            s.text(texts),
            "detected_at_nanos = "@ + text::decimal((s.detected_at->0).0 as nat) + "\n"@,
        ),
        s.detail is Some ==> shows(s.text(texts), "detail   = "@ + (s.detail->0)@ + "\n"@),
        lists_parameters(s.text(texts), s.params, texts),
        lists_counts(s.text(texts), s.history),
{
    let title = "# Vela DST run summary\n"@;
    let seed = lemma_seed_shown(
        title,
        "seed     = "@,
        text::decimal(s.seed as nat),
        text::hex(s.seed as nat, 16),
    );
    let a = lemma_line_shown(seed, "outcome  = "@, s.outcome@, "\n"@);
    let b = if s.property is Some {
        lemma_line_shown(a, "property = "@, (s.property->0).text(), "\n"@)
    } else {
        a
    };
    let c = if s.detected_at is Some {
        lemma_line_shown(
            b,
            "detected_at_nanos = "@,
            text::decimal((s.detected_at->0).0 as nat),
            "\n"@,
        )
    } else {
        b
    };
    let d = if s.detail is Some {
        lemma_line_shown(c, "detail   = "@, (s.detail->0)@, "\n"@)
    } else {
        c
    };
    assert(d == s.head());
    lemma_appended(d, "\n## scenario parameters\n"@);
    let e = d + "\n## scenario parameters\n"@;
    law_parameters_are_listed(e, s.params, texts);
    let f = artifact::params_below(e, s.params, texts);
    lemma_appended(f, "\n## history\n"@);
    let g = f + "\n## history\n"@;
    law_counts_are_listed(g, s.history);
    lemma_appended(s.history.below(g), "\n"@);
    assert(s.text(texts) == s.history.below(g) + "\n"@);
}

/// A failure report shows the seed, what was violated, when and how; every parameter, the
/// counts of its operations and every operation under its number.
pub proof fn law_failure_reports_show_what_they_hold(a: FailureArtifact, texts: FaultTexts)
    ensures
        shows(
            a.text(texts),
            "seed              = "@ + text::decimal(a.seed as nat) + " (0x"@ + text::hex(
                a.seed as nat,
                16,
            ) + ")\n"@,
        ),
        shows(a.text(texts), "violated_property = "@ + a.property.text() + "\n"@),
        shows(
            a.text(texts),
            "detected_at_nanos = "@ + text::decimal(a.detected_at.0 as nat) + "\n"@,
        ),
        shows(a.text(texts), "detail            = "@ + a.detail@ + "\n"@),
        lists_parameters(a.text(texts), a.params, texts),
        shows(a.text(texts), "\n## history ("@ + text::decimal(a.history.ops@.len()) + " ops)\n"@),
        lists_counts(a.text(texts), HistoryStats::of(a.history.ops@)),
        forall|i: int|
            0 <= i < a.history.ops@.len() ==> shows(
                a.text(texts),
                #[trigger] operation_line(a.history.ops@, i),
            ),
{
    let title = "# Vela DST failure artifact\n"@;
    let w1 = lemma_seed_shown(
        title,
        "seed              = "@,
        text::decimal(a.seed as nat),
        text::hex(a.seed as nat, 16),
    );
    let w2 = lemma_line_shown(w1, "violated_property = "@, a.property.text(), "\n"@);
    let w3 = lemma_line_shown(
        w2,
        "detected_at_nanos = "@,
        text::decimal(a.detected_at.0 as nat),
        "\n"@,
    );
    let w4 = lemma_line_shown(w3, "detail            = "@, a.detail@, "\n"@);
    lemma_appended(w4, "\n## replay\n"@);
    let w5 = w4 + "\n## replay\n"@;
    lemma_appended(w5, "A Vela DST run is a pure function of (seed, params): re-running\n"@);
    let w6 = w5 + "A Vela DST run is a pure function of (seed, params): re-running\n"@;
    lemma_appended(w6, "SimRuntime::run(RunConfig { seed, params }) with the seed and\n"@);
    let w7 = w6 + "SimRuntime::run(RunConfig { seed, params }) with the seed and\n"@;
    lemma_appended(w7, "parameters above reproduces this exact failing Outcome and the same\n"@);
    let w8 = w7 + "parameters above reproduces this exact failing Outcome and the same\n"@;
    lemma_appended(w8, "violated property. No separate event-by-event trace is required; the\n"@);
    let w9 = w8 + "violated property. No separate event-by-event trace is required; the\n"@;
    lemma_appended(w9, "recorded History below is included so the failure can be read without\n"@);
    let w10 = w9 + "recorded History below is included so the failure can be read without\n"@;
    lemma_appended(w10, "a re-run.\n"@);
    let w11 = w10 + "a re-run.\n"@;
    assert(w11 == a.head());
    lemma_appended(w11, "\n## scenario parameters\n"@);
    let e = w11 + "\n## scenario parameters\n"@;
    law_parameters_are_listed(e, a.params, texts);
    let f = artifact::params_below(e, a.params, texts);
    let n = a.history.ops@.len();
    let g = lemma_line_shown(f, "\n## history ("@, text::decimal(n), " ops)\n"@);
    let stats = HistoryStats::of(a.history.ops@);
    law_counts_are_listed(g, stats);
    lemma_appended(stats.below(g), "\n"@);
    let h = stats.below(g) + "\n"@;
    assert(h == a.preamble(texts));
    if n == 0 {
        lemma_appended(h, "\n  (no client operations were recorded)\n"@);
    } else {
        lemma_appended(h, "\n## recorded operations\n"@);
        let j = h + "\n## recorded operations\n"@;
        lemma_operations_below(j, a.history.ops@, n);
    }
}

} // verus!
