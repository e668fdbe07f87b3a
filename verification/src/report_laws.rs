//! What a report says, said of the runs that it is about.

use crate::corpus;
use crate::corpus::SnapshotText;
use crate::eval;
use crate::float::Float64;
use crate::history;
use crate::history::{EvalRun, QueryResult};
use crate::report;
use crate::report::{LineNumbers, LineText, QueryRow, RowNumbers};
use crate::run_laws;
use crate::text;
use vstd::prelude::*;

verus! {

/// Text is filled up with blanks to its width, and never cut.
pub proof fn padding_fills_up_with_blanks(s: Seq<char>, width: nat, i: int)
    ensures
        s.len() >= width ==> report::padded(s, width) == s,
        s.len() < width ==> report::padded(s, width).len() == width,
        s.is_prefix_of(report::padded(s, width)),
        s.len() <= i < report::padded(s, width).len() ==> report::padded(s, width)[i] == ' ',
{
}

/// The lines of the summary: the recall at each depth, the mean reciprocal rank, and the
/// gain at the largest depth, where there are depths. Each stands beside the same value of
/// the run before, where the two compare.
pub proof fn summaries_have_a_line_for_each_metric(run: EvalRun, previous: Option<&EvalRun>, i: int)
    ensures
        ({
            let ks = run.fingerprint.k_values@;
            let n = ks.len() as int;
            let lines = report::summary_lines(run, previous);
            let shown = previous is Some && previous->0.fingerprint@.compatible(run.fingerprint@);
            &&& lines.len() == (if n == 0 {
                1
            } else {
                n + 2
            })
            &&& 0 <= i < n ==> {
                &&& lines[i].label == "recall@"@ + text::decimal(ks[i] as nat)
                &&& lines[i].now == run_laws::value_or_nothing(run.aggregate.recall_at_k@, ks[i])
                &&& lines[i].prev == (if shown {
                    Some(
                        run_laws::value_or_nothing(previous->0.aggregate.recall_at_k@, ks[i]),
                    )
                } else {
                    None
                })
            }
            &&& lines[n].label == "MRR"@
            &&& lines[n].now == run.aggregate.mrr
            &&& lines[n].prev == (if shown {
                Some(previous->0.aggregate.mrr)
            } else {
                None
            })
            &&& n > 0 ==> exists|k: usize|
                ks.contains(k) && (forall|j: int| 0 <= j < n ==> #[trigger] ks[j] <= k)
                    && #[trigger] gain_line(run, previous, k, lines[n + 1])
        }),
{
    let ks = run.fingerprint.k_values@;
    run_laws::the_largest_depth_is_one_of_them(ks);
    if ks.len() > 0 {
        let k = eval::largest(ks)->0;
        let n = ks.len() as int;
        assert(gain_line(run, previous, k, report::summary_lines(run, previous)[n + 1]));
    }
}

/// The line of the gain at depth `k`.
pub open spec fn gain_line(
    run: EvalRun,
    previous: Option<&EvalRun>,
    k: usize,
    line: LineText,
) -> bool {
    let shown = previous is Some && previous->0.fingerprint@.compatible(run.fingerprint@);
    &&& line.label == "nDCG@"@ + text::decimal(k as nat)
    &&& line.now == run_laws::value_or_nothing(run.aggregate.ndcg_at_k@, k)
    &&& line.prev == (if shown {
        Some(run_laws::value_or_nothing(previous->0.aggregate.ndcg_at_k@, k))
    } else {
        None
    })
}

/// Each line of the summary is printed with its own numbers, in order.
pub proof fn lines_are_printed_in_order(
    lines: Seq<LineText>,
    numbers: Seq<LineNumbers>,
    threshold: Float64,
    use_color: bool,
)
    requires
        lines.len() == numbers.len(),
    ensures
        report::printed_lines(lines, numbers, threshold, use_color) == Seq::new(
            lines.len(),
            |i: int| report::printed_line(lines[i], numbers[i], threshold, use_color),
        ).flatten(),
    decreases lines.len(),
{
    let all = Seq::new(
        lines.len(),
        |i: int| report::printed_line(lines[i], numbers[i], threshold, use_color),
    );
    if lines.len() > 0 {
        let a = lines.drop_last();
        let b = numbers.drop_last();
        lines_are_printed_in_order(a, b, threshold, use_color);
        let front = Seq::new(
            a.len(),
            |i: int| report::printed_line(a[i], b[i], threshold, use_color),
        );
        let last = report::printed_line(lines.last(), numbers.last(), threshold, use_color);
        assert(all =~= front.push(last));
        front.lemma_flatten_push(last);
    }
}

/// What a line of the summary says: its label, filled up to eleven characters, its value,
/// and its change.
pub proof fn lines_say_label_value_and_change(
    line: LineText,
    numbers: LineNumbers,
    threshold: Float64,
    use_color: bool,
)
    ensures
        report::printed_line(line, numbers, threshold, use_color) == "  "@ + report::padded(
            line.label,
            11,
        ) + numbers.value@ + report::change_text(
            report::change_view(numbers.change),
            threshold,
            use_color,
        ) + "\n"@,
        numbers.change is None ==> report::change_text(
            report::change_view(numbers.change),
            threshold,
            use_color,
        ).len() == 0,
{
}

/// What is said of a change: nothing of none, a dash of one below a billionth, and else an
/// arrow, up for a rise, and the size. In color a fall beyond the threshold is red, a rise
/// beyond it green, and any other change grey.
pub proof fn changes_are_shown_by_arrow_and_color(
    d: Float64,
    size: Seq<char>,
    threshold: Float64,
    use_color: bool,
)
    ensures
        ({
            let shown = report::change_text(Some((d, size)), threshold, use_color);
            let small = d.magnitude() < 0x3e11_2e0b_e826_d695;
            let arrow = if !d.is_nan() && d.rank() > 0 {
                "↑"@
            } else {
                "↓"@
            };
            let both = !d.is_nan() && !threshold.is_nan();
            let fall = both && d.rank() < -threshold.rank();
            let rise = both && threshold.rank() < d.rank();
            &&& small ==> shown == "  (—       )"@
            &&& !small && !use_color ==> shown == "  ("@ + ""@ + arrow + " "@ + size + ""@ + ")"@
            &&& !small && use_color && fall ==> shown == "  ("@ + "\x1b[31m"@ + arrow + " "@ + size
                + "\x1b[0m"@ + ")"@
            &&& !small && use_color && !fall && rise ==> shown == "  ("@ + "\x1b[32m"@ + arrow
                + " "@ + size + "\x1b[0m"@ + ")"@
            &&& !small && use_color && !fall && !rise ==> shown == "  ("@ + "\x1b[90m"@ + arrow
                + " "@ + size + "\x1b[0m"@ + ")"@
        }),
{
}

// ---------------------------------------------------------------------------
// Single queries
// ---------------------------------------------------------------------------

/// The result of a query is looked up by its id, and the first with that id is taken.
pub proof fn results_are_looked_up_by_id(qs: Seq<QueryResult>, id: Seq<char>, i: int)
    requires
        0 <= i <= qs.len(),
        forall|k: int| 0 <= k < i ==> (#[trigger] qs[k]).id@ != id,
    ensures
        i < qs.len() && qs[i].id@ == id ==> report::result_with(qs, id) == Some(qs[i]),
        i == qs.len() ==> report::result_with(qs, id) is None,
    decreases qs.len(),
{
    if qs.len() > 0 && i > 0 {
        let rest = qs.skip(1);
        assert(qs[0].id@ != id);
        assert forall|k: int| 0 <= k < i - 1 implies (#[trigger] rest[k]).id@ != id by {
            assert(rest[k] == qs[k + 1]);
        }
        if i < qs.len() {
            assert(rest[i - 1] == qs[i]);
        }
        results_are_looked_up_by_id(rest, id, i - 1);
    }
}

/// The recall of a query is shown at the largest depth, or at 10 where there are no depths,
/// beside that of the query with the same id in the run before, where the two compare.
pub proof fn rows_show_recall_at_the_largest_depth(run: EvalRun, previous: Option<&EvalRun>, i: int)
    ensures
        ({
            let k = report::row_depth(run);
            let ks = run.fingerprint.k_values@;
            let row = report::row_of(run, previous, i);
            let shown = previous is Some && previous->0.fingerprint@.compatible(run.fingerprint@);
            let before = report::result_with(previous->0.per_query@, run.per_query@[i].id@);
            &&& ks.len() == 0 ==> k == 10
            &&& ks.len() > 0 ==> ks.contains(k) && forall|j: int|
                0 <= j < ks.len() ==> #[trigger] ks[j] <= k
            &&& row.now == run_laws::value_or_nothing(
                run.per_query@[i].metrics.recall_at_k@,
                k,
            )
            &&& row.prev is Some <==> shown && before is Some
            &&& row.prev is Some ==> row.prev->0 == run_laws::value_or_nothing(
                before->0.metrics.recall_at_k@,
                k,
            )
        }),
{
    run_laws::the_largest_depth_is_one_of_them(run.fingerprint.k_values@);
}

/// Which queries have a line: those that expect nothing, found nothing, or fell by more than
/// the threshold. The mark says which, what found nothing before what fell.
pub proof fn misses_and_falls_have_a_line(
    q: QueryResult,
    row: QueryRow,
    numbers: RowNumbers,
    k: usize,
    threshold: Float64,
)
    ensures
        ({
            let line = report::printed_row(q, row, numbers, k, threshold);
            let nothing = !row.now.is_nan() && row.now.rank() == 0;
            let fell = numbers.prev is Some && threshold.below((numbers.prev->0).1);
            let mark = if nothing {
                "✗"@
            } else if fell {
                "↓"@
            } else {
                "·"@
            };
            let shown = if numbers.prev is Some {
                (numbers.prev->0).0@ + " → "@ + numbers.now@
            } else {
                numbers.now@
            };
            &&& line is Some <==> q.expected@.len() == 0 || nothing || fell
            &&& line is Some ==> line->0 == "  "@ + mark + " "@ + report::padded(q.id@, 24)
                + " recall@"@ + text::decimal(k as nat) + ": "@ + shown + "\n"@
        }),
{
}

/// The lines that queries have, in the order of the queries.
pub open spec fn lines_of_queries(
    qs: Seq<QueryResult>,
    rows: Seq<QueryRow>,
    numbers: Seq<RowNumbers>,
    k: usize,
    threshold: Float64,
) -> Seq<Seq<char>> {
    Seq::new(
        qs.len(),
        |i: int| report::printed_row(qs[i], rows[i], numbers[i], k, threshold),
    ).filter(|line: Option<Seq<char>>| line is Some).map_values(
        |line: Option<Seq<char>>| line->0,
    )
}

/// Every query that has a line is printed, one after the other, and counted.
pub proof fn every_line_is_printed_and_counted(
    qs: Seq<QueryResult>,
    rows: Seq<QueryRow>,
    numbers: Seq<RowNumbers>,
    k: usize,
    threshold: Float64,
)
    requires
        qs.len() == rows.len() == numbers.len(),
    ensures
        report::printed_rows(qs, rows, numbers, k, threshold).0 == lines_of_queries(
            qs,
            rows,
            numbers,
            k,
            threshold,
        ).flatten(),
        report::printed_rows(qs, rows, numbers, k, threshold).1 == lines_of_queries(
            qs,
            rows,
            numbers,
            k,
            threshold,
        ).len(),
    decreases qs.len(),
{
    reveal(Seq::filter);
    let there = |line: Option<Seq<char>>| line is Some;
    let inner = |line: Option<Seq<char>>| line->0;
    let all = Seq::new(
        qs.len(),
        |i: int| report::printed_row(qs[i], rows[i], numbers[i], k, threshold),
    );
    if qs.len() > 0 {
        let (a, b, c) = (qs.drop_last(), rows.drop_last(), numbers.drop_last());
        every_line_is_printed_and_counted(a, b, c, k, threshold);
        let front = Seq::new(
            a.len(),
            |i: int| report::printed_row(a[i], b[i], c[i], k, threshold),
        );
        assert(all.drop_last() =~= front);
        let before = front.filter(there).map_values(inner);
        match all.last() {
            Some(line) => {
                assert(front.filter(there).push(Some(line)).map_values(inner) =~= before.push(
                    line,
                ));
                before.lemma_flatten_push(line);
            },
            None => {},
        }
    }
}

// ---------------------------------------------------------------------------
// Heading and corpus
// ---------------------------------------------------------------------------

/// What stands above the summary: nothing of a run before where there is none, its time
/// where the two compare, and else why they do not: other golden queries, or other
/// conditions.
pub proof fn headings_say_why_runs_do_not_compare(
    run: EvalRun,
    previous: Option<&EvalRun>,
    earlier: Seq<char>,
)
    ensures
        ({
            let shown = report::summary_heading(run, previous, earlier);
            let same = previous is Some && previous->0.fingerprint@.compatible(run.fingerprint@);
            let golden = previous is Some && previous->0.fingerprint.golden_hash@
                == run.fingerprint.golden_hash@;
            &&& previous is None ==> shown == "Aggregate\n"@
            &&& previous is Some && same ==> shown == "Aggregate (previous run: "@ + earlier
                + ")\n"@
            &&& previous is Some && !same && !golden ==> shown
                == "⚠️ golden changed since last run, diff disabled\nAggregate\n"@
            &&& previous is Some && !same && golden ==> shown
                == "⚠️ config or metric version changed since last run, diff disabled\nAggregate\n"@
        }),
{
}

/// What is said of a change of the corpus: nothing where one of the two is not known or
/// both are the same; that the contents differ, where the counts do not; and else the
/// counts, those before first.
pub proof fn corpus_changes_are_told_by_counts(
    now: Option<SnapshotText>,
    prev: Option<SnapshotText>,
)
    ensures
        ({
            let shown = corpus::corpus_change(now, prev);
            let known = now is Some && prev is Some;
            let n = now->0;
            let p = prev->0;
            &&& shown is Some <==> known && n != p
            &&& known && n != p && n.documents == p.documents && n.chunks == p.chunks ==> shown
                == Some("same document and chunk counts, different contents"@)
            &&& known && (n.documents != p.documents || n.chunks != p.chunks) ==> shown == Some(
                text::decimal(p.documents as nat) + " -> "@ + text::decimal(n.documents as nat)
                    + " documents, "@ + text::decimal(p.chunks as nat) + " -> "@ + text::decimal(
                    n.chunks as nat,
                ) + " chunks"@,
            )
        }),
{
}

/// A report is its banner, the corpus, an empty line, the heading, the summary and the
/// queries, in this order. It is shown where the times in it can be.
pub proof fn reports_are_made_of_their_parts(
    run: EvalRun,
    previous: Option<&EvalRun>,
    use_color: bool,
    threshold: Float64,
    lines: Seq<LineNumbers>,
    rows: Seq<RowNumbers>,
)
    ensures
        ({
            let shown = report::report(run, previous, use_color, threshold, lines, rows);
            let same = history::diff_enabled(run, previous);
            let time = run.timestamp.text();
            let earlier = previous->0.timestamp.text();
            let printed = report::printed_rows(
                run.per_query@,
                Seq::new(run.per_query@.len(), |i: int| report::row_of(run, previous, i)),
                rows,
                report::row_depth(run),
                threshold,
            );
            &&& shown is Some <==> time is Some && (same ==> earlier is Some)
            &&& shown is Some ==> shown->0 == report::banner(run, time->0) + report::corpus_lines(
                run.corpus,
                report::corpus_of(previous),
            ) + "\n"@ + report::summary_heading(
                run,
                previous,
                if same {
                    earlier->0
                } else {
                    Seq::empty()
                },
            ) + report::printed_lines(
                report::summary_lines(run, previous),
                lines,
                threshold,
                use_color,
            ) + report::queries_part(printed, run.per_query@.len())
            &&& printed.1 == 0 ==> report::queries_part(printed, run.per_query@.len()).len() == 0
        }),
{
}

} // verus!
