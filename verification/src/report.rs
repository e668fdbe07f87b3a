//! The report on an evaluation run.

use crate::corpus;
use crate::corpus::{describe_corpus_change, CorpusSnapshot};
use crate::eval;
use crate::eval::largest_depth;
use crate::float::Float64;
use crate::history;
use crate::history::{is_diff_enabled, value_or_zero, EvalRun, QueryResult};
use crate::text;
use crate::text::{push_decimal, same_text, to_text};
use vstd::prelude::*;
use vstd::string::{StrSliceExecFns, StringExecFns};

verus! {

/// A change that is shown as none: less than a billionth.
pub open spec fn negligible(d: Float64) -> bool {
    d.magnitude() < 0x3e11_2e0b_e826_d695
}

/// What is said of a change. `magnitude` is its size as text.
pub open spec fn change_text(
    change: Option<(Float64, Seq<char>)>,
    threshold: Float64,
    use_color: bool,
) -> Seq<char> {
    match change {
        None => Seq::empty(),
        Some((d, magnitude)) => if negligible(d) {
            "  (—       )"@
        } else {
            "  ("@ + change_color(d, threshold, use_color) + change_arrow(d) + " "@ + magnitude + (
            if use_color {
                "\x1b[0m"@
            } else {
                ""@
            }) + ")"@
        },
    }
}

/// The arrow of a change.
pub open spec fn change_arrow(d: Float64) -> Seq<char> {
    if Float64::zero().below(d) {
        "↑"@
    } else {
        "↓"@
    }
}

/// The color of a change: red where it is a fall beyond the threshold, green where
/// it is a rise beyond it, else gray.
pub open spec fn change_color(d: Float64, threshold: Float64, use_color: bool) -> Seq<char> {
    if !use_color {
        ""@
    } else if d.below_negative(threshold) {
        "\x1b[31m"@
    } else if threshold.below(d) {
        "\x1b[32m"@
    } else {
        "\x1b[90m"@
    }
}

/// A change with its size as text.
pub open spec fn change_view(change: Option<(Float64, String)>) -> Option<(Float64, Seq<char>)> {
    match change {
        Some((d, s)) => Some((d, s@)),
        None => None,
    }
}

/// What is said of a change.
pub fn render_diff(change: &Option<(Float64, String)>, threshold: Float64, use_color: bool) -> (r:
    String)
    ensures
        r@ == change_text(change_view(*change), threshold, use_color),
{
    match change {
        None => {
            proof {
                reveal_strlit("");
                assert(""@ =~= Seq::empty());
            }
            to_text("")
        },
        Some(c) => {
            let d = c.0;
            if d.is_negligible() {
                return to_text("  (—       )");
            }
            let mut out = to_text("  (");
            if use_color {
                if d.less_than_negative(threshold) {
                    out.append("\x1b[31m");
                } else if threshold.less(d) {
                    out.append("\x1b[32m");
                } else {
                    out.append("\x1b[90m");
                }
            } else {
                out.append("");
            }
            if Float64::from_bits(0).less(d) {
                out.append("↑");
            } else {
                out.append("↓");
            }
            out.append(" ");
            out.append(c.1.as_str());
            if use_color {
                out.append("\x1b[0m");
            } else {
                out.append("");
            }
            out.append(")");
            out
        },
    }
}

/// `n` spaces.
pub open spec fn spaces(n: nat) -> Seq<char> {
    Seq::new(n, |i: int| ' ')
}

/// A text with spaces behind it, up to a width.
pub open spec fn padded(s: Seq<char>, width: nat) -> Seq<char> {
    if s.len() < width {
        s + spaces((width - s.len()) as nat)
    } else {
        s
    }
}

fn push_padded(out: &mut String, s: &str, width: usize)
    ensures
        final(out)@ == old(out)@ + padded(s@, width as nat),
{
    out.append(s);
    let mut n: usize = s.unicode_len();
    let ghost start = out@;
    assert(start + spaces(0) =~= start);
    while n < width
        invariant
            s@.len() <= n,
            n <= width || n == s@.len(),
            start == old(out)@ + s@,
            out@ == start + spaces((n - s@.len()) as nat),
        decreases width - n,
    {
        out.append(" ");
        proof {
            reveal_strlit(" ");
            assert(out@ =~= start + spaces((n + 1 - s@.len()) as nat));
        }
        n += 1;
    }
    assert(out@ =~= old(out)@ + padded(s@, width as nat));
}

/// A line of the summary: its label and the value now and before.
#[derive(Debug, Clone)]
pub struct MetricLine {
    pub label: String,
    pub now: Float64,
    pub prev: Option<Float64>,
}

/// A line of the summary as characters.
pub struct LineText {
    pub label: Seq<char>,
    pub now: Float64,
    pub prev: Option<Float64>,
}

impl View for MetricLine {
    type V = LineText;

    open spec fn view(&self) -> LineText {
        LineText { label: self.label@, now: self.now, prev: self.prev }
    }
}

/// The lines of a list as characters.
pub open spec fn line_texts(v: Seq<MetricLine>) -> Seq<LineText> {
    Seq::new(v.len(), |i: int| v[i]@)
}

/// The value before, where the runs compare.
pub open spec fn before(
    run: EvalRun,
    previous: Option<&EvalRun>,
    value: spec_fn(EvalRun) -> Float64,
) -> Option<Float64> {
    if history::diff_enabled(run, previous) {
        Some(value(*previous->0))
    } else {
        None
    }
}

/// The line of a recall.
pub open spec fn recall_line(run: EvalRun, previous: Option<&EvalRun>, k: usize) -> LineText {
    LineText {
        label: "recall@"@ + text::decimal(k as nat),
        now: history::value_at(run.aggregate.recall_at_k@, k),
        prev: before(
            run,
            previous,
            |p: EvalRun| history::value_at(p.aggregate.recall_at_k@, k),
        ),
    }
}

/// The line of the mean reciprocal rank.
pub open spec fn mrr_line(run: EvalRun, previous: Option<&EvalRun>) -> LineText {
    LineText {
        label: "MRR"@,
        now: run.aggregate.mrr,
        prev: before(run, previous, |p: EvalRun| p.aggregate.mrr),
    }
}

/// The line of a gain.
pub open spec fn ndcg_line(run: EvalRun, previous: Option<&EvalRun>, k: usize) -> LineText {
    LineText {
        label: "nDCG@"@ + text::decimal(k as nat),
        now: history::value_at(run.aggregate.ndcg_at_k@, k),
        prev: before(
            run,
            previous,
            |p: EvalRun| history::value_at(p.aggregate.ndcg_at_k@, k),
        ),
    }
}

/// The lines of the summary: the recall at each depth, the mean reciprocal rank,
/// and the gain at the largest depth.
pub open spec fn summary_lines(run: EvalRun, previous: Option<&EvalRun>) -> Seq<LineText> {
    let ks = run.fingerprint.k_values@;
    let recalls = Seq::new(ks.len(), |i: int| recall_line(run, previous, ks[i]));
    let with_mrr = recalls.push(mrr_line(run, previous));
    match eval::largest(ks) {
        Some(k) => with_mrr.push(ndcg_line(run, previous, k)),
        None => with_mrr,
    }
}

/// The lines of the summary.
pub fn metric_lines(run: &EvalRun, previous: Option<&EvalRun>) -> (r: Vec<MetricLine>)
    ensures
        line_texts(r@) == summary_lines(*run, previous),
{
    let enabled = is_diff_enabled(run, previous);
    let mut out: Vec<MetricLine> = Vec::new();
    let mut i: usize = 0;
    while i < run.fingerprint.k_values.len()
        invariant
            i <= run.fingerprint.k_values@.len(),
            enabled == history::diff_enabled(*run, previous),
            out@.len() == i,
            forall|n: int|
                0 <= n < i ==> (#[trigger] out@[n])@ == recall_line(
                    *run,
                    previous,
                    run.fingerprint.k_values@[n],
                ),
        decreases run.fingerprint.k_values@.len() - i,
    {
        let k = run.fingerprint.k_values[i];
        let mut label = to_text("recall@");
        push_decimal(&mut label, k as u64);
        let prev = match previous {
            Some(p) => if enabled {
                Some(value_or_zero(&p.aggregate.recall_at_k, k))
            } else {
                None
            },
            None => None,
        };
        out.push(
            MetricLine { label, now: value_or_zero(&run.aggregate.recall_at_k, k), prev },
        );
        i += 1;
    }
    let prev_mrr = match previous {
        Some(p) => if enabled {
            Some(p.aggregate.mrr)
        } else {
            None
        },
        None => None,
    };
    out.push(MetricLine { label: to_text("MRR"), now: run.aggregate.mrr, prev: prev_mrr });
    if let Some(k) = largest_depth(&run.fingerprint.k_values) {
        let mut label = to_text("nDCG@");
        push_decimal(&mut label, k as u64);
        let prev = match previous {
            Some(p) => if enabled {
                Some(value_or_zero(&p.aggregate.ndcg_at_k, k))
            } else {
                None
            },
            None => None,
        };
        out.push(MetricLine { label, now: value_or_zero(&run.aggregate.ndcg_at_k, k), prev });
    }
    assert(line_texts(out@) =~= summary_lines(*run, previous));
    out
}

/// The numbers of a line as text: the value, and the change with its size.
#[derive(Debug, Clone)]
pub struct LineNumbers {
    pub value: String,
    pub change: Option<(Float64, String)>,
}

/// A line of the summary as it is printed.
pub open spec fn printed_line(
    line: LineText,
    numbers: LineNumbers,
    threshold: Float64,
    use_color: bool,
) -> Seq<char> {
    "  "@ + padded(line.label, 11) + numbers.value@ + change_text(
        change_view(numbers.change),
        threshold,
        use_color,
    ) + "\n"@
}

/// The lines of the summary as they are printed.
pub open spec fn printed_lines(
    lines: Seq<LineText>,
    numbers: Seq<LineNumbers>,
    threshold: Float64,
    use_color: bool,
) -> Seq<char>
    decreases lines.len(),
{
    if lines.len() == 0 || numbers.len() == 0 {
        Seq::empty()
    } else {
        printed_lines(lines.drop_last(), numbers.drop_last(), threshold, use_color)
            + printed_line(lines.last(), numbers.last(), threshold, use_color)
    }
}

fn push_lines(
    out: &mut String,
    lines: &Vec<MetricLine>,
    numbers: &Vec<LineNumbers>,
    threshold: Float64,
    use_color: bool,
)
    requires
        lines@.len() == numbers@.len(),
    ensures
        final(out)@ == old(out)@ + printed_lines(
            line_texts(lines@),
            numbers@,
            threshold,
            use_color,
        ),
{
    let ghost start = out@;
    let ghost all = line_texts(lines@);
    let mut i: usize = 0;
    assert(start + printed_lines(all.take(0), numbers@.take(0), threshold, use_color) =~= start);
    while i < lines.len()
        invariant
            i <= lines@.len() == numbers@.len(),
            all == line_texts(lines@),
            out@ == start + printed_lines(
                all.take(i as int),
                numbers@.take(i as int),
                threshold,
                use_color,
            ),
        decreases lines@.len() - i,
    {
        assert(all.take(i + 1).drop_last() =~= all.take(i as int));
        assert(numbers@.take(i + 1).drop_last() =~= numbers@.take(i as int));
        out.append("  ");
        push_padded(out, lines[i].label.as_str(), 11);
        out.append(numbers[i].value.as_str());
        let change = render_diff(&numbers[i].change, threshold, use_color);
        out.append(change.as_str());
        out.append("\n");
        assert(out@ =~= start + printed_lines(
            all.take(i + 1),
            numbers@.take(i + 1),
            threshold,
            use_color,
        ));
        i += 1;
    }
    assert(all.take(i as int) =~= all);
    assert(numbers@.take(i as int) =~= numbers@);
}

/// The first result with an id.
pub open spec fn result_with(qs: Seq<QueryResult>, id: Seq<char>) -> Option<QueryResult>
    decreases qs.len(),
{
    if qs.len() == 0 {
        None
    } else if qs[0].id@ == id {
        Some(qs[0])
    } else {
        result_with(qs.skip(1), id)
    }
}

fn find_result<'a>(qs: &'a Vec<QueryResult>, id: &str) -> (r: Option<&'a QueryResult>)
    ensures
        match r {
            Some(q) => result_with(qs@, id@) == Some(*q),
            None => result_with(qs@, id@) is None,
        },
{
    let mut i: usize = 0;
    assert(qs@.skip(0) =~= qs@);
    while i < qs.len()
        invariant
            i <= qs@.len(),
            result_with(qs@, id@) == result_with(qs@.skip(i as int), id@),
        decreases qs@.len() - i,
    {
        assert(qs@.skip(i as int)[0] == qs@[i as int]);
        assert(qs@.skip(i as int).skip(1) =~= qs@.skip(i + 1));
        if same_text(qs[i].id.as_str(), id) {
            return Some(&qs[i]);
        }
        i += 1;
    }
    None
}

/// The recall of a query now and before.
#[derive(Debug, Clone, Copy, PartialEq, Eq, Structural)]
pub struct QueryRow {
    pub now: Float64,
    pub prev: Option<Float64>,
}

/// The depth at which the recall of single queries is reported.
pub open spec fn row_depth(run: EvalRun) -> usize {
    match eval::largest(run.fingerprint.k_values@) {
        Some(k) => k,
        None => 10,
    }
}

/// The recall of a query now and, where the runs compare and the run before had
/// the query, before.
pub open spec fn row_of(run: EvalRun, previous: Option<&EvalRun>, i: int) -> QueryRow {
    let k = row_depth(run);
    QueryRow {
        now: history::value_at(run.per_query@[i].metrics.recall_at_k@, k),
        prev: if history::diff_enabled(run, previous) {
            match result_with(previous->0.per_query@, run.per_query@[i].id@) {
                Some(q) => Some(history::value_at(q.metrics.recall_at_k@, k)),
                None => None,
            }
        } else {
            None
        },
    }
}

/// The recall of each query now and before.
pub fn query_rows(run: &EvalRun, previous: Option<&EvalRun>) -> (r: Vec<QueryRow>)
    ensures
        r@ == Seq::new(run.per_query@.len(), |i: int| row_of(*run, previous, i)),
{
    let enabled = is_diff_enabled(run, previous);
    let k: usize = match largest_depth(&run.fingerprint.k_values) {
        Some(k) => k,
        None => 10,
    };
    let mut out: Vec<QueryRow> = Vec::new();
    let mut i: usize = 0;
    while i < run.per_query.len()
        invariant
            i <= run.per_query@.len(),
            k == row_depth(*run),
            enabled == history::diff_enabled(*run, previous),
            out@ == Seq::new(i as nat, |n: int| row_of(*run, previous, n)),
        decreases run.per_query@.len() - i,
    {
        let prev = match previous {
            Some(p) => if enabled {
                match find_result(&p.per_query, run.per_query[i].id.as_str()) {
                    Some(q) => Some(value_or_zero(&q.metrics.recall_at_k, k)),
                    None => None,
                }
            } else {
                None
            },
            None => None,
        };
        out.push(
            QueryRow { now: value_or_zero(&run.per_query[i].metrics.recall_at_k, k), prev },
        );
        assert(out@ =~= Seq::new((i + 1) as nat, |n: int| row_of(*run, previous, n)));
        i += 1;
    }
    out
}

/// The numbers of a query as text, and by how much its recall fell.
#[derive(Debug, Clone)]
pub struct RowNumbers {
    pub now: String,
    pub prev: Option<(String, Float64)>,
}

/// Whether a query misses: it expects nothing or found nothing.
pub open spec fn misses(q: QueryResult, row: QueryRow) -> bool {
    q.expected@.len() == 0 || row.now.equals(Float64::zero())
}

/// Whether the recall of a query fell by more than the threshold.
pub open spec fn fell(numbers: RowNumbers, threshold: Float64) -> bool {
    numbers.prev matches Some(p) && threshold.below(p.1)
}

/// The line of a query: only misses and falls have one.
pub open spec fn printed_row(
    q: QueryResult,
    row: QueryRow,
    numbers: RowNumbers,
    k: usize,
    threshold: Float64,
) -> Option<Seq<char>> {
    if !misses(q, row) && !fell(numbers, threshold) {
        None
    } else {
        let mark = if row.now.equals(Float64::zero()) {
            "✗"@
        } else if fell(numbers, threshold) {
            "↓"@
        } else {
            "·"@
        };
        let shown = match numbers.prev {
            Some(p) => p.0@ + " → "@ + numbers.now@,
            None => numbers.now@,
        };
        Some(
            "  "@ + mark + " "@ + padded(q.id@, 24) + " recall@"@ + text::decimal(k as nat) + ": "@
                + shown + "\n"@,
        )
    }
}

/// The lines of the queries, and how many there are.
pub open spec fn printed_rows(
    qs: Seq<QueryResult>,
    rows: Seq<QueryRow>,
    numbers: Seq<RowNumbers>,
    k: usize,
    threshold: Float64,
) -> (Seq<char>, nat)
    decreases qs.len(),
{
    if qs.len() == 0 || rows.len() == 0 || numbers.len() == 0 {
        (Seq::empty(), 0)
    } else {
        let (before, n) = printed_rows(
            qs.drop_last(),
            rows.drop_last(),
            numbers.drop_last(),
            k,
            threshold,
        );
        match printed_row(qs.last(), rows.last(), numbers.last(), k, threshold) {
            Some(line) => (before + line, n + 1),
            None => (before, n),
        }
    }
}

/// Appends the mark of a query that has a line.
fn push_mark(out: &mut String, nothing: bool, fallen: bool)
    ensures
        final(out)@ == old(out)@ + (if nothing {
            "✗"@
        } else if fallen {
            "↓"@
        } else {
            "·"@
        }),
{
    if nothing {
        out.append("✗");
    } else if fallen {
        out.append("↓");
    } else {
        out.append("·");
    }
}

/// Appends the recall of a query, with the one before where there is one.
fn push_recall(out: &mut String, numbers: &RowNumbers)
    ensures
        final(out)@ == old(out)@ + (match numbers.prev {
            Some(p) => p.0@ + " → "@ + numbers.now@,
            None => numbers.now@,
        }),
{
    match &numbers.prev {
        Some(p) => {
            out.append(p.0.as_str());
            out.append(" → ");
            out.append(numbers.now.as_str());
            assert(out@ =~= old(out)@ + (p.0@ + " → "@ + numbers.now@));
        },
        None => {
            out.append(numbers.now.as_str());
        },
    }
}

fn push_row(
    out: &mut String,
    q: &QueryResult,
    row: QueryRow,
    numbers: &RowNumbers,
    k: usize,
    threshold: Float64,
) -> (r: bool)
    ensures
        r == (printed_row(*q, row, *numbers, k, threshold) is Some),
        final(out)@ == (match printed_row(*q, row, *numbers, k, threshold) {
            Some(line) => old(out)@ + line,
            None => old(out)@,
        }),
{
    let nothing = row.now.same(Float64::from_bits(0));
    let fallen = match &numbers.prev {
        Some(p) => threshold.less(p.1),
        None => false,
    };
    if q.expected.len() != 0 && !nothing && !fallen {
        return false;
    }
    let ghost start = out@;
    out.append("  ");
    push_mark(out, nothing, fallen);
    out.append(" ");
    push_padded(out, q.id.as_str(), 24);
    out.append(" recall@");
    push_decimal(out, k as u64);
    out.append(": ");
    push_recall(out, numbers);
    out.append("\n");
    assert(out@ =~= start + printed_row(*q, row, *numbers, k, threshold)->0);
    true
}

fn rows_text(
    qs: &Vec<QueryResult>,
    rows: &Vec<QueryRow>,
    numbers: &Vec<RowNumbers>,
    k: usize,
    threshold: Float64,
) -> (r: (String, usize))
    requires
        qs@.len() == rows@.len() == numbers@.len(),
    ensures
        (r.0@, r.1 as nat) == printed_rows(qs@, rows@, numbers@, k, threshold),
{
    let mut out = to_text("");
    let mut shown: usize = 0;
    let mut i: usize = 0;
    proof {
        reveal_strlit("");
        assert(out@ =~= Seq::empty());
    }
    while i < qs.len()
        invariant
            i <= qs@.len() == rows@.len() == numbers@.len(),
            shown <= i,
            (out@, shown as nat) == printed_rows(
                qs@.take(i as int),
                rows@.take(i as int),
                numbers@.take(i as int),
                k,
                threshold,
            ),
        decreases qs@.len() - i,
    {
        assert(qs@.take(i + 1).drop_last() =~= qs@.take(i as int));
        assert(rows@.take(i + 1).drop_last() =~= rows@.take(i as int));
        assert(numbers@.take(i + 1).drop_last() =~= numbers@.take(i as int));
        if push_row(&mut out, &qs[i], rows[i], &numbers[i], k, threshold) {
            shown += 1;
        }
        i += 1;
    }
    assert(qs@.take(i as int) =~= qs@);
    assert(rows@.take(i as int) =~= rows@);
    assert(numbers@.take(i as int) =~= numbers@);
    (out, shown)
}

/// What is said of the index and of how it changed.
pub open spec fn corpus_lines(
    now: Option<CorpusSnapshot>,
    before: Option<corpus::SnapshotText>,
) -> Seq<char> {
    match now {
        None => Seq::empty(),
        Some(c) => {
            let counts = "  corpus: "@ + text::decimal(c.documents as nat) + " docs / "@
                + text::decimal(c.chunks as nat) + " chunks\n"@;
            match corpus::corpus_change(Some(c@), before) {
                Some(change) => counts + "    ⚠️ corpus changed since last run ("@ + change
                    + ")\n       a delta below may reflect that, not retrieval\n"@,
                None => counts,
            }
        },
    }
}

/// The index of a run as characters.
pub open spec fn corpus_of(previous: Option<&EvalRun>) -> Option<corpus::SnapshotText> {
    match previous {
        Some(p) => match p.corpus {
            Some(c) => Some(c@),
            None => None,
        },
        None => None,
    }
}

fn push_corpus(out: &mut String, run: &EvalRun, previous: Option<&EvalRun>)
    ensures
        final(out)@ == old(out)@ + corpus_lines(run.corpus, corpus_of(previous)),
{
    let ghost start = out@;
    match &run.corpus {
        None => {
            assert(start =~= start + corpus_lines(run.corpus, corpus_of(previous)));
        },
        Some(c) => {
            out.append("  corpus: ");
            push_decimal(out, c.documents as u64);
            out.append(" docs / ");
            push_decimal(out, c.chunks as u64);
            out.append(" chunks\n");
            let earlier = match previous {
                Some(p) => match &p.corpus {
                    Some(b) => Some(b),
                    None => None,
                },
                None => None,
            };
            if let Some(change) = describe_corpus_change(Some(c), earlier) {
                out.append("    ⚠️ corpus changed since last run (");
                out.append(change.as_str());
                out.append(")\n       a delta below may reflect that, not retrieval\n");
            }
            assert(out@ =~= start + corpus_lines(run.corpus, corpus_of(previous)));
        },
    }
}

/// The heading of the summary, which says why no change is shown where there is a
/// run before that does not compare. `earlier` is the time of that run.
pub open spec fn summary_heading(
    run: EvalRun,
    previous: Option<&EvalRun>,
    earlier: Seq<char>,
) -> Seq<char> {
    match previous {
        None => "Aggregate\n"@,
        Some(p) => if history::diff_enabled(run, previous) {
            "Aggregate (previous run: "@ + earlier + ")\n"@
        } else if p.fingerprint.golden_hash@ != run.fingerprint.golden_hash@ {
            "⚠️ golden changed since last run, diff disabled\nAggregate\n"@
        } else {
            "⚠️ config or metric version changed since last run, diff disabled\nAggregate\n"@
        },
    }
}

/// The first lines of the report. `time` is the time of the run.
pub open spec fn banner(run: EvalRun, time: Seq<char>) -> Seq<char> {
    "kb-mcp eval — "@ + time + "\n  model: "@ + run.fingerprint.model@ + "    reranker: "@ + (
    match run.fingerprint.reranker {
        Some(r) => r@,
        None => "none"@,
    }) + "    limit: "@ + text::decimal(run.fingerprint.limit as nat) + "    queries: "@
        + text::decimal(run.aggregate.query_count as nat) + "\n"@
}

/// The part on single queries: nothing where no query misses or fell.
pub open spec fn queries_part(rows: (Seq<char>, nat), total: nat) -> Seq<char> {
    if rows.1 == 0 {
        Seq::empty()
    } else {
        "\nPer-query (regressions and misses, "@ + text::decimal(rows.1) + " of "@
            + text::decimal(total) + ")\n"@ + rows.0
    }
}

/// One line for each line of the summary, with a change exactly where there is a
/// value before.
pub open spec fn lines_match(
    run: EvalRun,
    previous: Option<&EvalRun>,
    lines: Seq<LineNumbers>,
) -> bool {
    &&& lines.len() == summary_lines(run, previous).len()
    &&& forall|i: int|
        0 <= i < lines.len() ==> ((#[trigger] lines[i]).change is Some <==> summary_lines(
            run,
            previous,
        )[i].prev is Some)
}

/// One row for each query, with a value before exactly where there is one.
pub open spec fn rows_match(
    run: EvalRun,
    previous: Option<&EvalRun>,
    rows: Seq<RowNumbers>,
) -> bool {
    &&& rows.len() == run.per_query@.len()
    &&& forall|i: int|
        0 <= i < rows.len() ==> ((#[trigger] rows[i]).prev is Some <==> row_of(
            run,
            previous,
            i,
        ).prev is Some)
}

/// The report, given the times in it as text: that of the run, and that of the
/// run before where the two are compared.
pub open spec fn report_given(
    run: EvalRun,
    previous: Option<&EvalRun>,
    time: Seq<char>,
    earlier: Seq<char>,
    use_color: bool,
    threshold: Float64,
    lines: Seq<LineNumbers>,
    rows: Seq<RowNumbers>,
) -> Seq<char> {
    banner(run, time) + corpus_lines(run.corpus, corpus_of(previous)) + "\n"@ + summary_heading(
        run,
        previous,
        earlier,
    ) + printed_lines(summary_lines(run, previous), lines, threshold, use_color) + queries_part(
        printed_rows(
            run.per_query@,
            Seq::new(run.per_query@.len(), |i: int| row_of(run, previous, i)),
            rows,
            row_depth(run),
            threshold,
        ),
        run.per_query@.len(),
    )
}

/// The report. `None` where a time in it cannot be written.
pub open spec fn report(
    run: EvalRun,
    previous: Option<&EvalRun>,
    use_color: bool,
    threshold: Float64,
    lines: Seq<LineNumbers>,
    rows: Seq<RowNumbers>,
) -> Option<Seq<char>> {
    let earlier = if history::diff_enabled(run, previous) {
        previous->0.timestamp.text()
    } else {
        Some(Seq::empty())
    };
    if run.timestamp.text() is None || earlier is None {
        None
    } else {
        Some(
            report_given(
                run,
                previous,
                run.timestamp.text()->0,
                earlier->0,
                use_color,
                threshold,
                lines,
                rows,
            ),
        )
    }
}

fn push_heading(out: &mut String, run: &EvalRun, previous: Option<&EvalRun>, earlier: &str)
    ensures
        final(out)@ == old(out)@ + summary_heading(*run, previous, earlier@),
{
    let ghost start = out@;
    match previous {
        None => {
            out.append("Aggregate\n");
        },
        Some(p) => {
            if is_diff_enabled(run, previous) {
                out.append("Aggregate (previous run: ");
                out.append(earlier);
                out.append(")\n");
                assert(out@ =~= start + summary_heading(*run, previous, earlier@));
            } else if !same_text(
                p.fingerprint.golden_hash.as_str(),
                run.fingerprint.golden_hash.as_str(),
            ) {
                out.append("⚠️ golden changed since last run, diff disabled\nAggregate\n");
            } else {
                out.append(
                    "⚠️ config or metric version changed since last run, diff disabled\nAggregate\n",
                );
            }
        },
    }
}

fn banner_text(run: &EvalRun, time: &str) -> (r: String)
    ensures
        r@ == banner(*run, time@),
{
    let mut out = to_text("kb-mcp eval — ");
    out.append(time);
    out.append("\n  model: ");
    out.append(run.fingerprint.model.as_str());
    out.append("    reranker: ");
    match &run.fingerprint.reranker {
        Some(r) => {
            out.append(r.as_str());
        },
        None => {
            out.append("none");
        },
    }
    out.append("    limit: ");
    push_decimal(&mut out, run.fingerprint.limit as u64);
    out.append("    queries: ");
    push_decimal(&mut out, run.aggregate.query_count as u64);
    out.append("\n");
    out
}

/// The report on a run as text, given the times in it. `lines` holds the numbers of
/// the lines of `metric_lines` as text, `rows` those of `query_rows`.
pub fn format_text_given(
    run: &EvalRun,
    previous: Option<&EvalRun>,
    time: &str,
    earlier: &str,
    use_color: bool,
    regression_threshold: Float64,
    lines: &Vec<LineNumbers>,
    rows: &Vec<RowNumbers>,
) -> (r: String)
    requires
        lines_match(*run, previous, lines@),
        rows_match(*run, previous, rows@),
    ensures
        r@ == report_given(
            *run,
            previous,
            time@,
            earlier@,
            use_color,
            regression_threshold,
            lines@,
            rows@,
        ),
{
    let mut out = banner_text(run, time);
    push_corpus(&mut out, run, previous);
    out.append("\n");
    push_heading(&mut out, run, previous, earlier);
    let metric = metric_lines(run, previous);
    assert(line_texts(metric@).len() == metric@.len());
    push_lines(&mut out, &metric, lines, regression_threshold, use_color);
    let k: usize = match largest_depth(&run.fingerprint.k_values) {
        Some(k) => k,
        None => 10,
    };
    let values = query_rows(run, previous);
    let (shown, count) = rows_text(&run.per_query, &values, rows, k, regression_threshold);
    let ghost so_far = out@;
    if count > 0 {
        out.append("\nPer-query (regressions and misses, ");
        push_decimal(&mut out, count as u64);
        out.append(" of ");
        push_decimal(&mut out, run.per_query.len() as u64);
        out.append(")\n");
        out.append(shown.as_str());
        assert(out@ =~= so_far + queries_part((shown@, count as nat), run.per_query@.len()));
    } else {
        assert(out@ =~= so_far + queries_part((shown@, count as nat), run.per_query@.len()));
    }
    out
}

/// The report on a run as text. `lines` holds the numbers of the lines of
/// `metric_lines` as text, `rows` those of `query_rows`. `None` where a time in it
/// cannot be written; the times from 1970 to 9999 can.
pub fn format_text(
    run: &EvalRun,
    previous: Option<&EvalRun>,
    use_color: bool,
    regression_threshold: Float64,
    lines: &Vec<LineNumbers>,
    rows: &Vec<RowNumbers>,
) -> (r: Option<String>)
    requires
        lines_match(*run, previous, lines@),
        rows_match(*run, previous, rows@),
    ensures
        text::option_text(r) == report(
            *run,
            previous,
            use_color,
            regression_threshold,
            lines@,
            rows@,
        ),
        run.timestamp.ordinary() && (previous matches Some(p) ==> p.timestamp.ordinary())
            ==> r is Some,
{
    let time = match run.timestamp.to_rfc3339() {
        Some(t) => t,
        None => {
            return None;
        },
    };
    let mut earlier = to_text("");
    proof {
        reveal_strlit("");
        assert(earlier@ =~= Seq::empty());
    }
    if is_diff_enabled(run, previous) {
        if let Some(p) = previous {
            match p.timestamp.to_rfc3339() {
                Some(t) => {
                    earlier = t;
                },
                None => {
                    return None;
                },
            }
        }
    }
    Some(
        format_text_given(
            run,
            previous,
            time.as_str(),
            earlier.as_str(),
            use_color,
            regression_threshold,
            lines,
            rows,
        ),
    )
}

/// A change is shown exactly where there is a run before that was made under the
/// same conditions.
pub proof fn changes_need_a_run_that_compares(
    run: EvalRun,
    previous: Option<&EvalRun>,
    lines: Seq<LineNumbers>,
    rows: Seq<RowNumbers>,
)
    requires
        lines_match(run, previous, lines),
        rows_match(run, previous, rows),
    ensures
        forall|i: int|
            0 <= i < lines.len() ==> ((#[trigger] lines[i]).change is Some
                <==> history::diff_enabled(run, previous)),
        forall|i: int|
            0 <= i < rows.len() ==> ((#[trigger] rows[i]).prev is Some ==> history::diff_enabled(
                run,
                previous,
            )),
        forall|i: int|
            0 <= i < summary_lines(run, previous).len() ==> ((#[trigger] summary_lines(
                run,
                previous,
            )[i]).prev is Some <==> history::diff_enabled(run, previous)),
        forall|i: int|
            (#[trigger] row_of(run, previous, i)).prev is Some ==> history::diff_enabled(
                run,
                previous,
            ),
{
}

} // verus!
