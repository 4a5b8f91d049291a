//! Metrics in the Prometheus text format.
use vstd::prelude::*;

use crate::api::{QueueTimeBucket, SchedulerStats, TenantCount};
use crate::model;
use crate::text;
use crate::text::append_decimal;

verus! {

/// Prefix of all names: the namespace, or `firq` if there is none.
pub open spec fn prefix(namespace: Seq<char>) -> Seq<char> {
    if namespace.len() == 0 {
        "firq"@
    } else {
        namespace
    }
}

/// The two lines that introduce a metric.
pub open spec fn heading(ns: Seq<char>, name: Seq<char>, help: Seq<char>, kind: Seq<char>) -> Seq<
    char,
> {
    "# HELP "@ + ns + name + " "@ + help + "\n# TYPE "@ + ns + name + " "@ + kind + "\n"@
}

/// A line with a value.
pub open spec fn value_line(ns: Seq<char>, name: Seq<char>, value: u64) -> Seq<char> {
    ns + name + " "@ + text::decimal(value as nat) + "\n"@
}

/// A metric with a single value.
pub open spec fn metric(
    ns: Seq<char>,
    name: Seq<char>,
    help: Seq<char>,
    kind: Seq<char>,
    value: u64,
) -> Seq<char> {
    heading(ns, name, help, kind) + value_line(ns, name, value)
}

/// The counters and gauges.
pub open spec fn totals(ns: Seq<char>, s: SchedulerStats) -> Seq<char> {
    metric(ns, "_enqueued_total"@, "Total tasks enqueued"@, "counter"@, s.enqueued) + metric(
        ns,
        "_dequeued_total"@,
        "Total tasks dequeued"@,
        "counter"@,
        s.dequeued,
    ) + metric(
        ns,
        "_dropped_total"@,
        "Total tasks dropped by backpressure"@,
        "counter"@,
        s.dropped,
    ) + metric(
        ns,
        "_expired_total"@,
        "Total tasks expired before dequeue"@,
        "counter"@,
        s.expired,
    ) + metric(
        ns,
        "_queue_len_estimate"@,
        "Estimated queue length"@,
        "gauge"@,
        s.queue_len_estimate,
    ) + metric(
        ns,
        "_queue_time_sum_ns"@,
        "Sum of queue time in ns"@,
        "counter"@,
        s.queue_time_sum_ns,
    ) + metric(
        ns,
        "_queue_time_samples"@,
        "Total queue time samples"@,
        "counter"@,
        s.queue_time_samples,
    ) + metric(
        ns,
        "_queue_time_p95_ns"@,
        "Approx p95 queue time in ns"@,
        "gauge"@,
        s.queue_time_p95_ns,
    ) + metric(
        ns,
        "_queue_time_p99_ns"@,
        "Approx p99 queue time in ns"@,
        "gauge"@,
        s.queue_time_p99_ns,
    )
}

/// Upper bound of a bucket as text.
pub open spec fn bound_text(le_ns: u64) -> Seq<char> {
    if le_ns == u64::MAX {
        "+Inf"@
    } else {
        text::decimal(le_ns as nat)
    }
}

/// A line for a bucket, with the observations in it and all before it.
pub open spec fn bucket_line(ns: Seq<char>, le_ns: u64, cumulative: u64) -> Seq<char> {
    ns + "_queue_time_ns_bucket{le=\""@ + bound_text(le_ns) + "\"} "@ + text::decimal(
        cumulative as nat,
    ) + "\n"@
}

/// Lines for all buckets.
pub open spec fn bucket_lines(ns: Seq<char>, buckets: Seq<QueueTimeBucket>) -> Seq<char>
    decreases buckets.len(),
{
    if buckets.len() == 0 {
        Seq::empty()
    } else {
        bucket_lines(ns, buckets.drop_last()) + bucket_line(
            ns,
            buckets.last().le_ns,
            model::sat(model::observations(buckets)) as u64,
        )
    }
}

/// The histogram, if there is one.
pub open spec fn histogram(ns: Seq<char>, s: SchedulerStats) -> Seq<char> {
    if s.queue_time_histogram@.len() == 0 {
        Seq::empty()
    } else {
        heading(ns, "_queue_time_ns"@, "Queue time histogram"@, "histogram"@) + bucket_lines(
            ns,
            s.queue_time_histogram@,
        ) + value_line(ns, "_queue_time_ns_count"@, s.queue_time_samples) + value_line(
            ns,
            "_queue_time_ns_sum"@,
            s.queue_time_sum_ns,
        )
    }
}

/// A line for a tenant.
pub open spec fn tenant_line(ns: Seq<char>, entry: TenantCount) -> Seq<char> {
    ns + "_tenant_dequeued_total{tenant=\""@ + text::decimal(entry.tenant.0 as nat) + "\"} "@
        + text::decimal(entry.count as nat) + "\n"@
}

/// Lines for all tenants.
pub open spec fn tenant_lines(ns: Seq<char>, entries: Seq<TenantCount>) -> Seq<char>
    decreases entries.len(),
{
    if entries.len() == 0 {
        Seq::empty()
    } else {
        tenant_lines(ns, entries.drop_last()) + tenant_line(ns, entries.last())
    }
}

/// The top talkers, if there are any.
pub open spec fn tenants(ns: Seq<char>, s: SchedulerStats) -> Seq<char> {
    if s.top_tenants@.len() == 0 {
        Seq::empty()
    } else {
        heading(
            ns,
            "_tenant_dequeued_total"@,
            "Approx dequeued count per tenant (top talkers)"@,
            "gauge"@,
        ) + tenant_lines(ns, s.top_tenants@)
    }
}

/// All metrics.
pub open spec fn rendered(s: SchedulerStats, namespace: Seq<char>) -> Seq<char> {
    let ns = prefix(namespace);
    totals(ns, s) + histogram(ns, s) + tenants(ns, s)
}

/// Appends the two lines that introduce a metric.
fn append_heading(out: &mut String, ns: &str, name: &str, help: &str, kind: &str)
    ensures
        final(out)@ == old(out)@ + heading(ns@, name@, help@, kind@),
{
    out.append("# HELP ");
    out.append(ns);
    out.append(name);
    out.append(" ");
    out.append(help);
    out.append("\n# TYPE ");
    out.append(ns);
    out.append(name);
    out.append(" ");
    out.append(kind);
    out.append("\n");
    assert(out@ =~= old(out)@ + heading(ns@, name@, help@, kind@));
}

/// Appends a line with a value.
fn append_value_line(out: &mut String, ns: &str, name: &str, value: u64)
    ensures
        final(out)@ == old(out)@ + value_line(ns@, name@, value),
{
    out.append(ns);
    out.append(name);
    out.append(" ");
    append_decimal(out, value);
    out.append("\n");
    assert(out@ =~= old(out)@ + value_line(ns@, name@, value));
}

/// Appends a metric with a single value.
fn append_metric(out: &mut String, ns: &str, name: &str, help: &str, kind: &str, value: u64)
    ensures
        final(out)@ == old(out)@ + metric(ns@, name@, help@, kind@, value),
{
    append_heading(out, ns, name, help, kind);
    append_value_line(out, ns, name, value);
    assert(out@ =~= old(out)@ + metric(ns@, name@, help@, kind@, value));
}

/// Appends the counters and gauges.
fn append_totals(out: &mut String, ns: &str, s: &SchedulerStats)
    ensures
        final(out)@ == old(out)@ + totals(ns@, *s),
{
    append_metric(out, ns, "_enqueued_total", "Total tasks enqueued", "counter", s.enqueued);
    append_metric(out, ns, "_dequeued_total", "Total tasks dequeued", "counter", s.dequeued);
    append_metric(
        out,
        ns,
        "_dropped_total",
        "Total tasks dropped by backpressure",
        "counter",
        s.dropped,
    );
    append_metric(
        out,
        ns,
        "_expired_total",
        "Total tasks expired before dequeue",
        "counter",
        s.expired,
    );
    append_metric(
        out,
        ns,
        "_queue_len_estimate",
        "Estimated queue length",
        "gauge",
        s.queue_len_estimate,
    );
    append_metric(
        out,
        ns,
        "_queue_time_sum_ns",
        "Sum of queue time in ns",
        "counter",
        s.queue_time_sum_ns,
    );
    append_metric(
        out,
        ns,
        "_queue_time_samples",
        "Total queue time samples",
        "counter",
        s.queue_time_samples,
    );
    append_metric(
        out,
        ns,
        "_queue_time_p95_ns",
        "Approx p95 queue time in ns",
        "gauge",
        s.queue_time_p95_ns,
    );
    append_metric(
        out,
        ns,
        "_queue_time_p99_ns",
        "Approx p99 queue time in ns",
        "gauge",
        s.queue_time_p99_ns,
    );
    assert(out@ =~= old(out)@ + totals(ns@, *s));
}

/// Appends a line for a bucket.
fn append_bucket_line(out: &mut String, ns: &str, le_ns: u64, cumulative: u64)
    ensures
        final(out)@ == old(out)@ + bucket_line(ns@, le_ns, cumulative),
{
    out.append(ns);
    out.append("_queue_time_ns_bucket{le=\"");
    if le_ns == u64::MAX {
        out.append("+Inf");
    } else {
        append_decimal(out, le_ns);
    }
    out.append("\"} ");
    append_decimal(out, cumulative);
    out.append("\n");
    assert(out@ =~= old(out)@ + bucket_line(ns@, le_ns, cumulative));
}

/// Appends a line for a tenant.
fn append_tenant_line(out: &mut String, ns: &str, entry: &TenantCount)
    ensures
        final(out)@ == old(out)@ + tenant_line(ns@, *entry),
{
    out.append(ns);
    out.append("_tenant_dequeued_total{tenant=\"");
    append_decimal(out, entry.tenant.as_u64());
    out.append("\"} ");
    append_decimal(out, entry.count);
    out.append("\n");
    assert(out@ =~= old(out)@ + tenant_line(ns@, *entry));
}

/// Appends the histogram, if there is one.
fn append_histogram(out: &mut String, ns: &str, s: &SchedulerStats)
    ensures
        final(out)@ == old(out)@ + histogram(ns@, *s),
{
    let buckets = &s.queue_time_histogram;
    if buckets.len() == 0 {
        assert(out@ =~= old(out)@ + histogram(ns@, *s));
        return;
    }
    append_heading(out, ns, "_queue_time_ns", "Queue time histogram", "histogram");
    let ghost start = out@;
    let mut cumulative: u64 = 0;
    assert(out@ =~= start + bucket_lines(ns@, buckets@.take(0)));
    for i in 0..buckets.len()
        invariant
            out@ == start + bucket_lines(ns@, buckets@.take(i as int)),
            cumulative == model::sat(model::observations(buckets@.take(i as int))),
            0 <= model::observations(buckets@.take(i as int)),
    {
        proof {
            assert(buckets@.take(i + 1).drop_last() =~= buckets@.take(i as int));
            assert(buckets@.take(i + 1).last() == buckets@[i as int]);
        }
        cumulative = cumulative.saturating_add(buckets[i].count);
        append_bucket_line(out, ns, buckets[i].le_ns, cumulative);
        assert(out@ =~= start + bucket_lines(ns@, buckets@.take(i + 1)));
    }
    assert(buckets@.take(buckets@.len() as int) =~= buckets@);
    append_value_line(out, ns, "_queue_time_ns_count", s.queue_time_samples);
    append_value_line(out, ns, "_queue_time_ns_sum", s.queue_time_sum_ns);
    assert(out@ =~= old(out)@ + histogram(ns@, *s));
}

/// Appends the top talkers, if there are any.
fn append_tenants(out: &mut String, ns: &str, s: &SchedulerStats)
    ensures
        final(out)@ == old(out)@ + tenants(ns@, *s),
{
    let entries = &s.top_tenants;
    if entries.len() == 0 {
        assert(out@ =~= old(out)@ + tenants(ns@, *s));
        return;
    }
    append_heading(
        out,
        ns,
        "_tenant_dequeued_total",
        "Approx dequeued count per tenant (top talkers)",
        "gauge",
    );
    let ghost start = out@;
    assert(out@ =~= start + tenant_lines(ns@, entries@.take(0)));
    for i in 0..entries.len()
        invariant
            out@ == start + tenant_lines(ns@, entries@.take(i as int)),
    {
        proof {
            assert(entries@.take(i + 1).drop_last() =~= entries@.take(i as int));
            assert(entries@.take(i + 1).last() == entries@[i as int]);
        }
        append_tenant_line(out, ns, &entries[i]);
        assert(out@ =~= start + tenant_lines(ns@, entries@.take(i + 1)));
    }
    assert(entries@.take(entries@.len() as int) =~= entries@);
    assert(out@ =~= old(out)@ + tenants(ns@, *s));
}

/// All metrics as text; names start with the namespace, or with `firq` if it is
/// empty.
pub fn render_stats(stats: &SchedulerStats, namespace: &str) -> (out: String)
    ensures
        out@ == rendered(*stats, namespace@),
{
    let ns = if namespace.is_empty() {
        "firq"
    } else {
        namespace
    };
    let mut out = String::new();
    append_totals(&mut out, ns, stats);
    append_histogram(&mut out, ns, stats);
    append_tenants(&mut out, ns, stats);
    assert(out@ =~= rendered(*stats, namespace@));
    out
}

/// Without a namespace, names start as with the namespace `firq`.
pub proof fn law_no_namespace_is_the_default(s: SchedulerStats)
    ensures
        rendered(s, ""@) == rendered(s, "firq"@),
{
    reveal_strlit("");
    reveal_strlit("firq");
}

/// The text has no line break.
pub open spec fn plain(text: Seq<char>) -> bool {
    forall|i: int| 0 <= i < text.len() ==> #[trigger] text[i] != '\n'
}

/// A line about a name that starts with the prefix and an underscore.
pub open spec fn line_about(ns: Seq<char>, head: Seq<char>, rest: Seq<char>) -> Seq<char> {
    head + ns + "_"@ + rest + "\n"@
}

/// The line is a value, a help text or a type for a name that starts with the prefix and
/// an underscore, and has no line break but at its end and within the prefix.
pub open spec fn named(ns: Seq<char>, line: Seq<char>) -> bool {
    exists|head: Seq<char>, rest: Seq<char>|
        {
            &&& line == #[trigger] line_about(ns, head, rest)
            &&& head == ""@ || head == "# HELP "@ || head == "# TYPE "@
            &&& plain(rest)
        }
}

/// Lines, one after the other.
pub open spec fn joined(lines: Seq<Seq<char>>) -> Seq<char>
    decreases lines.len(),
{
    if lines.len() == 0 {
        Seq::empty()
    } else {
        joined(lines.drop_last()) + lines.last()
    }
}

/// The text is made of lines about names that start with the prefix and an underscore.
pub open spec fn all_named(ns: Seq<char>, text: Seq<char>) -> bool {
    exists|lines: Seq<Seq<char>>|
        text == #[trigger] joined(lines) && forall|i: int|
            0 <= i < lines.len() ==> named(ns, #[trigger] lines[i])
}

/// Lines, and then more lines.
proof fn lemma_joined_add(a: Seq<Seq<char>>, b: Seq<Seq<char>>)
    ensures
        joined(a + b) == joined(a) + joined(b),
    decreases b.len(),
{
    if b.len() == 0 {
        assert(a + b =~= a);
        assert(joined(a) + joined(b) =~= joined(a));
    } else {
        lemma_joined_add(a, b.drop_last());
        assert((a + b).drop_last() =~= a + b.drop_last());
        assert((a + b).last() == b.last());
        assert(joined(a + b) =~= joined(a) + joined(b));
    }
}

/// Texts made of such lines make such a text together.
proof fn lemma_all_named_add(ns: Seq<char>, a: Seq<char>, b: Seq<char>)
    requires
        all_named(ns, a),
        all_named(ns, b),
    ensures
        all_named(ns, a + b),
{
    let x = choose|lines: Seq<Seq<char>>|
        a == #[trigger] joined(lines) && forall|i: int|
            0 <= i < lines.len() ==> named(ns, #[trigger] lines[i]);
    let y = choose|lines: Seq<Seq<char>>|
        b == #[trigger] joined(lines) && forall|i: int|
            0 <= i < lines.len() ==> named(ns, #[trigger] lines[i]);
    lemma_joined_add(x, y);
    assert forall|i: int| 0 <= i < (x + y).len() implies named(ns, #[trigger] (x + y)[i]) by {
        if i < x.len() {
            assert(named(ns, x[i]));
        } else {
            assert(named(ns, y[i - x.len()]));
        }
    }
    assert(a + b == joined(x + y));
}

/// No text is made of no lines.
proof fn lemma_none_named(ns: Seq<char>)
    ensures
        all_named(ns, Seq::<char>::empty()),
{
    let none = Seq::<Seq<char>>::empty();
    assert(joined(none) =~= Seq::<char>::empty());
}

/// A single line about such a name.
proof fn lemma_one_named(ns: Seq<char>, head: Seq<char>, name: Seq<char>, tail: Seq<char>)
    requires
        head == ""@ || head == "# HELP "@ || head == "# TYPE "@,
        name.len() > 0,
        name[0] == '_',
        plain(name),
        plain(tail),
    ensures
        all_named(ns, head + ns + name + tail + "\n"@),
{
    reveal_strlit("_");
    let line = head + ns + name + tail + "\n"@;
    let rest = name.skip(1) + tail;
    assert(name =~= "_"@ + name.skip(1));
    assert(line =~= line_about(ns, head, rest));
    assert(named(ns, line));
    let lines = seq![line];
    assert(lines.drop_last() =~= Seq::<Seq<char>>::empty());
    assert(joined(lines.drop_last()) =~= Seq::<char>::empty());
    assert(joined(lines) =~= line);
}

/// The lines that introduce a metric are about its name.
proof fn lemma_heading_named(ns: Seq<char>, name: Seq<char>, help: Seq<char>, kind: Seq<char>)
    requires
        name.len() > 0,
        name[0] == '_',
        plain(name),
        plain(help),
        plain(kind),
    ensures
        all_named(ns, heading(ns, name, help, kind)),
{
    reveal_strlit(" ");
    reveal_strlit("\n");
    reveal_strlit("# TYPE ");
    reveal_strlit("\n# TYPE ");
    assert("\n# TYPE "@ =~= "\n"@ + "# TYPE "@);
    lemma_one_named(ns, "# HELP "@, name, " "@ + help);
    lemma_one_named(ns, "# TYPE "@, name, " "@ + kind);
    let a = "# HELP "@ + ns + name + (" "@ + help) + "\n"@;
    let b = "# TYPE "@ + ns + name + (" "@ + kind) + "\n"@;
    lemma_all_named_add(ns, a, b);
    assert(heading(ns, name, help, kind) =~= a + b);
}

/// A line with a value is about its name.
proof fn lemma_value_named(ns: Seq<char>, name: Seq<char>, value: u64)
    requires
        name.len() > 0,
        name[0] == '_',
        plain(name),
    ensures
        all_named(ns, value_line(ns, name, value)),
{
    reveal_strlit("");
    reveal_strlit(" ");
    text::lemma_decimal(value as nat);
    let digits = text::decimal(value as nat);
    assert(plain(" "@ + digits));
    lemma_one_named(ns, ""@, name, " "@ + digits);
    assert(value_line(ns, name, value) =~= ""@ + ns + name + (" "@ + digits) + "\n"@);
}

/// A metric is about its name.
proof fn lemma_metric_named(
    ns: Seq<char>,
    name: Seq<char>,
    help: Seq<char>,
    kind: Seq<char>,
    value: u64,
)
    requires
        name.len() > 0,
        name[0] == '_',
        plain(name),
        plain(help),
        plain(kind),
    ensures
        all_named(ns, metric(ns, name, help, kind, value)),
{
    lemma_heading_named(ns, name, help, kind);
    lemma_value_named(ns, name, value);
    lemma_all_named_add(ns, heading(ns, name, help, kind), value_line(ns, name, value));
}

/// The counters and gauges have such names.
proof fn lemma_totals_named(ns: Seq<char>, s: SchedulerStats)
    ensures
        all_named(ns, totals(ns, s)),
{
    reveal_strlit("counter");
    reveal_strlit("gauge");
    let m1 = metric(ns, "_enqueued_total"@, "Total tasks enqueued"@, "counter"@, s.enqueued);
    assert(all_named(ns, m1)) by {
        reveal_strlit("_enqueued_total");
        reveal_strlit("Total tasks enqueued");
        lemma_metric_named(ns, "_enqueued_total"@, "Total tasks enqueued"@, "counter"@, s.enqueued);
    }
    let m2 = metric(ns, "_dequeued_total"@, "Total tasks dequeued"@, "counter"@, s.dequeued);
    assert(all_named(ns, m2)) by {
        reveal_strlit("_dequeued_total");
        reveal_strlit("Total tasks dequeued");
        lemma_metric_named(ns, "_dequeued_total"@, "Total tasks dequeued"@, "counter"@, s.dequeued);
    }
    let m3 = metric(ns, "_dropped_total"@, "Total tasks dropped by backpressure"@, "counter"@, s.dropped);
    assert(all_named(ns, m3)) by {
        reveal_strlit("_dropped_total");
        reveal_strlit("Total tasks dropped by backpressure");
        lemma_metric_named(ns, "_dropped_total"@, "Total tasks dropped by backpressure"@, "counter"@, s.dropped);
    }
    let m4 = metric(ns, "_expired_total"@, "Total tasks expired before dequeue"@, "counter"@, s.expired);
    assert(all_named(ns, m4)) by {
        reveal_strlit("_expired_total");
        reveal_strlit("Total tasks expired before dequeue");
        lemma_metric_named(ns, "_expired_total"@, "Total tasks expired before dequeue"@, "counter"@, s.expired);
    }
    let m5 = metric(ns, "_queue_len_estimate"@, "Estimated queue length"@, "gauge"@, s.queue_len_estimate);
    assert(all_named(ns, m5)) by {
        reveal_strlit("_queue_len_estimate");
        reveal_strlit("Estimated queue length");
        lemma_metric_named(ns, "_queue_len_estimate"@, "Estimated queue length"@, "gauge"@, s.queue_len_estimate);
    }
    let m6 = metric(ns, "_queue_time_sum_ns"@, "Sum of queue time in ns"@, "counter"@, s.queue_time_sum_ns);
    assert(all_named(ns, m6)) by {
        reveal_strlit("_queue_time_sum_ns");
        reveal_strlit("Sum of queue time in ns");
        lemma_metric_named(ns, "_queue_time_sum_ns"@, "Sum of queue time in ns"@, "counter"@, s.queue_time_sum_ns);
    }
    let m7 = metric(ns, "_queue_time_samples"@, "Total queue time samples"@, "counter"@, s.queue_time_samples);
    assert(all_named(ns, m7)) by {
        reveal_strlit("_queue_time_samples");
        reveal_strlit("Total queue time samples");
        lemma_metric_named(ns, "_queue_time_samples"@, "Total queue time samples"@, "counter"@, s.queue_time_samples);
    }
    let m8 = metric(ns, "_queue_time_p95_ns"@, "Approx p95 queue time in ns"@, "gauge"@, s.queue_time_p95_ns);
    assert(all_named(ns, m8)) by {
        reveal_strlit("_queue_time_p95_ns");
        reveal_strlit("Approx p95 queue time in ns");
        lemma_metric_named(ns, "_queue_time_p95_ns"@, "Approx p95 queue time in ns"@, "gauge"@, s.queue_time_p95_ns);
    }
    let m9 = metric(ns, "_queue_time_p99_ns"@, "Approx p99 queue time in ns"@, "gauge"@, s.queue_time_p99_ns);
    assert(all_named(ns, m9)) by {
        reveal_strlit("_queue_time_p99_ns");
        reveal_strlit("Approx p99 queue time in ns");
        lemma_metric_named(ns, "_queue_time_p99_ns"@, "Approx p99 queue time in ns"@, "gauge"@, s.queue_time_p99_ns);
    }
    lemma_all_named_add(ns, m1, m2);
    lemma_all_named_add(ns, m1 + m2, m3);
    lemma_all_named_add(ns, m1 + m2 + m3, m4);
    lemma_all_named_add(ns, m1 + m2 + m3 + m4, m5);
    lemma_all_named_add(ns, m1 + m2 + m3 + m4 + m5, m6);
    lemma_all_named_add(ns, m1 + m2 + m3 + m4 + m5 + m6, m7);
    lemma_all_named_add(ns, m1 + m2 + m3 + m4 + m5 + m6 + m7, m8);
    lemma_all_named_add(ns, m1 + m2 + m3 + m4 + m5 + m6 + m7 + m8, m9);
}

/// Lines for buckets are about such a name.
proof fn lemma_buckets_named(ns: Seq<char>, buckets: Seq<QueueTimeBucket>)
    ensures
        all_named(ns, bucket_lines(ns, buckets)),
    decreases buckets.len(),
{
    if buckets.len() == 0 {
        lemma_none_named(ns);
    } else {
        lemma_buckets_named(ns, buckets.drop_last());
        let le_ns = buckets.last().le_ns;
        let cumulative = model::sat(model::observations(buckets)) as u64;
        reveal_strlit("");
        reveal_strlit("_queue_time_ns_bucket{le=\"");
        reveal_strlit("\"} ");
        reveal_strlit("+Inf");
        text::lemma_decimal(le_ns as nat);
        text::lemma_decimal(cumulative as nat);
        let tail = bound_text(le_ns) + "\"} "@ + text::decimal(cumulative as nat);
        assert(plain(tail));
        lemma_one_named(ns, ""@, "_queue_time_ns_bucket{le=\""@, tail);
        let line = bucket_line(ns, le_ns, cumulative);
        assert(line =~= ""@ + ns + "_queue_time_ns_bucket{le=\""@ + tail + "\n"@);
        lemma_all_named_add(ns, bucket_lines(ns, buckets.drop_last()), line);
    }
}

/// Lines for tenants are about such a name.
proof fn lemma_tenants_named(ns: Seq<char>, entries: Seq<TenantCount>)
    ensures
        all_named(ns, tenant_lines(ns, entries)),
    decreases entries.len(),
{
    if entries.len() == 0 {
        lemma_none_named(ns);
    } else {
        lemma_tenants_named(ns, entries.drop_last());
        let entry = entries.last();
        reveal_strlit("");
        reveal_strlit("_tenant_dequeued_total{tenant=\"");
        reveal_strlit("\"} ");
        text::lemma_decimal(entry.tenant.0 as nat);
        text::lemma_decimal(entry.count as nat);
        let tail = text::decimal(entry.tenant.0 as nat) + "\"} "@ + text::decimal(
            entry.count as nat,
        );
        assert(plain(tail));
        lemma_one_named(ns, ""@, "_tenant_dequeued_total{tenant=\""@, tail);
        let line = tenant_line(ns, entry);
        assert(line =~= ""@ + ns + "_tenant_dequeued_total{tenant=\""@ + tail + "\n"@);
        lemma_all_named_add(ns, tenant_lines(ns, entries.drop_last()), line);
    }
}

/// The histogram is about such names.
proof fn lemma_histogram_named(ns: Seq<char>, s: SchedulerStats)
    ensures
        all_named(ns, histogram(ns, s)),
{
    if s.queue_time_histogram@.len() == 0 {
        lemma_none_named(ns);
    } else {
        let a = heading(ns, "_queue_time_ns"@, "Queue time histogram"@, "histogram"@);
        let b = bucket_lines(ns, s.queue_time_histogram@);
        let c = value_line(ns, "_queue_time_ns_count"@, s.queue_time_samples);
        let d = value_line(ns, "_queue_time_ns_sum"@, s.queue_time_sum_ns);
        assert(all_named(ns, a)) by {
            reveal_strlit("_queue_time_ns");
            reveal_strlit("Queue time histogram");
            reveal_strlit("histogram");
            lemma_heading_named(ns, "_queue_time_ns"@, "Queue time histogram"@, "histogram"@);
        }
        lemma_buckets_named(ns, s.queue_time_histogram@);
        assert(all_named(ns, c)) by {
            reveal_strlit("_queue_time_ns_count");
            lemma_value_named(ns, "_queue_time_ns_count"@, s.queue_time_samples);
        }
        assert(all_named(ns, d)) by {
            reveal_strlit("_queue_time_ns_sum");
            lemma_value_named(ns, "_queue_time_ns_sum"@, s.queue_time_sum_ns);
        }
        lemma_all_named_add(ns, a, b);
        lemma_all_named_add(ns, a + b, c);
        lemma_all_named_add(ns, a + b + c, d);
    }
}

/// The top talkers are about such a name.
proof fn lemma_top_named(ns: Seq<char>, s: SchedulerStats)
    ensures
        all_named(ns, tenants(ns, s)),
{
    if s.top_tenants@.len() == 0 {
        lemma_none_named(ns);
    } else {
        let help = "Approx dequeued count per tenant (top talkers)"@;
        let a = heading(ns, "_tenant_dequeued_total"@, help, "gauge"@);
        assert(all_named(ns, a)) by {
            reveal_strlit("_tenant_dequeued_total");
            reveal_strlit("Approx dequeued count per tenant (top talkers)");
            reveal_strlit("gauge");
            lemma_heading_named(ns, "_tenant_dequeued_total"@, help, "gauge"@);
        }
        lemma_tenants_named(ns, s.top_tenants@);
        lemma_all_named_add(ns, a, tenant_lines(ns, s.top_tenants@));
    }
}

/// Every line is about a name that starts with the namespace, or with `firq` if it is
/// empty, and an underscore.
pub proof fn law_names_start_with_the_namespace(s: SchedulerStats, namespace: Seq<char>)
    ensures
        all_named(prefix(namespace), rendered(s, namespace)),
{
    let ns = prefix(namespace);
    lemma_totals_named(ns, s);
    lemma_histogram_named(ns, s);
    lemma_top_named(ns, s);
    lemma_all_named_add(ns, totals(ns, s), histogram(ns, s));
    lemma_all_named_add(ns, totals(ns, s) + histogram(ns, s), tenants(ns, s));
}

/// The text has the line in it.
pub open spec fn says(text: Seq<char>, line: Seq<char>) -> bool {
    exists|before: Seq<char>, after: Seq<char>| text == #[trigger] (before + line + after)
}

/// What a part of a text says, the text says.
proof fn lemma_says_sum(a: Seq<char>, b: Seq<char>, line: Seq<char>)
    ensures
        says(a, line) || says(b, line) ==> says(a + b, line),
{
    if says(a, line) {
        let (before, after) = choose|before: Seq<char>, after: Seq<char>|
            a == #[trigger] (before + line + after);
        assert(a + b =~= before + line + (after + b));
    } else if says(b, line) {
        let (before, after) = choose|before: Seq<char>, after: Seq<char>|
            b == #[trigger] (before + line + after);
        assert(a + b =~= (a + before) + line + after);
    }
}

/// A text says itself.
proof fn lemma_says_itself(line: Seq<char>)
    ensures
        says(line, line),
{
    let none = Seq::<char>::empty();
    assert(line =~= none + line + none);
}

/// What one of the counters and gauges says.
proof fn lemma_total_says(
    ns: Seq<char>,
    s: SchedulerStats,
    name: Seq<char>,
    help: Seq<char>,
    kind: Seq<char>,
    value: u64,
)
    requires
        ({
            ||| name == "_enqueued_total"@ && help == "Total tasks enqueued"@ && kind == "counter"@ && value
            == s.enqueued
            ||| name == "_dequeued_total"@ && help == "Total tasks dequeued"@ && kind == "counter"@ && value
            == s.dequeued
            ||| name == "_dropped_total"@ && help == "Total tasks dropped by backpressure"@ && kind == "counter"@ && value
            == s.dropped
            ||| name == "_expired_total"@ && help == "Total tasks expired before dequeue"@ && kind == "counter"@ && value
            == s.expired
            ||| name == "_queue_len_estimate"@ && help == "Estimated queue length"@ && kind == "gauge"@ && value
            == s.queue_len_estimate
            ||| name == "_queue_time_sum_ns"@ && help == "Sum of queue time in ns"@ && kind == "counter"@ && value
            == s.queue_time_sum_ns
            ||| name == "_queue_time_samples"@ && help == "Total queue time samples"@ && kind == "counter"@ && value
            == s.queue_time_samples
            ||| name == "_queue_time_p95_ns"@ && help == "Approx p95 queue time in ns"@ && kind == "gauge"@ && value
            == s.queue_time_p95_ns
            ||| name == "_queue_time_p99_ns"@ && help == "Approx p99 queue time in ns"@ && kind == "gauge"@ && value
            == s.queue_time_p99_ns
        }),
    ensures
        says(totals(ns, s), ns + name + " "@ + text::decimal(value as nat) + "\n"@),
{
    let line = ns + name + " "@ + text::decimal(value as nat) + "\n"@;
    lemma_says_itself(line);
    lemma_says_sum(heading(ns, name, help, kind), line, line);
    let m1 = metric(
        ns,
        "_enqueued_total"@,
        "Total tasks enqueued"@,
        "counter"@,
        s.enqueued,
    );
    let m2 = metric(
        ns,
        "_dequeued_total"@,
        "Total tasks dequeued"@,
        "counter"@,
        s.dequeued,
    );
    let m3 = metric(
        ns,
        "_dropped_total"@,
        "Total tasks dropped by backpressure"@,
        "counter"@,
        s.dropped,
    );
    let m4 = metric(
        ns,
        "_expired_total"@,
        "Total tasks expired before dequeue"@,
        "counter"@,
        s.expired,
    );
    let m5 = metric(
        ns,
        "_queue_len_estimate"@,
        "Estimated queue length"@,
        "gauge"@,
        s.queue_len_estimate,
    );
    let m6 = metric(
        ns,
        "_queue_time_sum_ns"@,
        "Sum of queue time in ns"@,
        "counter"@,
        s.queue_time_sum_ns,
    );
    let m7 = metric(
        ns,
        "_queue_time_samples"@,
        "Total queue time samples"@,
        "counter"@,
        s.queue_time_samples,
    );
    let m8 = metric(
        ns,
        "_queue_time_p95_ns"@,
        "Approx p95 queue time in ns"@,
        "gauge"@,
        s.queue_time_p95_ns,
    );
    let m9 = metric(
        ns,
        "_queue_time_p99_ns"@,
        "Approx p99 queue time in ns"@,
        "gauge"@,
        s.queue_time_p99_ns,
    );
    lemma_says_sum(m1, m2, line);
    lemma_says_sum(m1 + m2, m3, line);
    lemma_says_sum(m1 + m2 + m3, m4, line);
    lemma_says_sum(m1 + m2 + m3 + m4, m5, line);
    lemma_says_sum(m1 + m2 + m3 + m4 + m5, m6, line);
    lemma_says_sum(m1 + m2 + m3 + m4 + m5 + m6, m7, line);
    lemma_says_sum(m1 + m2 + m3 + m4 + m5 + m6 + m7, m8, line);
    lemma_says_sum(m1 + m2 + m3 + m4 + m5 + m6 + m7 + m8, m9, line);
}

/// Each bucket's line says how many observations are in it and in all before it.
proof fn lemma_buckets_say(ns: Seq<char>, buckets: Seq<QueueTimeBucket>, i: int)
    requires
        0 <= i < buckets.len(),
    ensures
        says(
            bucket_lines(ns, buckets),
            ns + "_queue_time_ns_bucket{le=\""@ + (if buckets[i].le_ns == u64::MAX {
                "+Inf"@
            } else {
                text::decimal(buckets[i].le_ns as nat)
            }) + "\"} "@ + text::decimal(
                model::sat(model::observations(buckets.take(i + 1))) as u64 as nat,
            ) + "\n"@,
        ),
    decreases buckets.len(),
{
    let line = bucket_line(
        ns,
        buckets[i].le_ns,
        model::sat(model::observations(buckets.take(i + 1))) as u64,
    );
    let n = buckets.len() - 1;
    let last = bucket_line(
        ns,
        buckets.last().le_ns,
        model::sat(model::observations(buckets)) as u64,
    );
    if i < n {
        lemma_buckets_say(ns, buckets.drop_last(), i);
        assert(buckets.drop_last().take(i + 1) =~= buckets.take(i + 1));
    } else {
        assert(buckets.take(i + 1) =~= buckets);
        lemma_says_itself(line);
    }
    lemma_says_sum(bucket_lines(ns, buckets.drop_last()), last, line);
}

/// Each tenant's line says how many of its tasks were handed out.
proof fn lemma_tenants_say(ns: Seq<char>, entries: Seq<TenantCount>, i: int)
    requires
        0 <= i < entries.len(),
    ensures
        says(
            tenant_lines(ns, entries),
            ns + "_tenant_dequeued_total{tenant=\""@ + text::decimal(entries[i].tenant.0 as nat)
                + "\"} "@ + text::decimal(entries[i].count as nat) + "\n"@,
        ),
    decreases entries.len(),
{
    let line = tenant_line(ns, entries[i]);
    if i < entries.len() - 1 {
        lemma_tenants_say(ns, entries.drop_last(), i);
    } else {
        lemma_says_itself(line);
    }
    lemma_says_sum(tenant_lines(ns, entries.drop_last()), tenant_line(ns, entries.last()), line);
}

/// Every figure is there under its own name: the counters and gauges, the buckets of the
/// histogram, each with the observations in it and in all before it, and the tenants with
/// their counts.
pub proof fn law_figures_are_under_their_names(
    s: SchedulerStats,
    namespace: Seq<char>,
    i: int,
    j: int,
)
    ensures
        ({
            let ns = prefix(namespace);
            let text = rendered(s, namespace);
            let buckets = s.queue_time_histogram@;
            let entries = s.top_tenants@;
            &&& says(text, ns + "_enqueued_total"@ + " "@ + text::decimal(s.enqueued as nat) + "\n"@)
            &&& says(text, ns + "_dequeued_total"@ + " "@ + text::decimal(s.dequeued as nat) + "\n"@)
            &&& says(text, ns + "_dropped_total"@ + " "@ + text::decimal(s.dropped as nat) + "\n"@)
            &&& says(text, ns + "_expired_total"@ + " "@ + text::decimal(s.expired as nat) + "\n"@)
            &&& says(text, ns + "_queue_len_estimate"@ + " "@ + text::decimal(s.queue_len_estimate as nat) + "\n"@)
            &&& says(text, ns + "_queue_time_sum_ns"@ + " "@ + text::decimal(s.queue_time_sum_ns as nat) + "\n"@)
            &&& says(text, ns + "_queue_time_samples"@ + " "@ + text::decimal(s.queue_time_samples as nat) + "\n"@)
            &&& says(text, ns + "_queue_time_p95_ns"@ + " "@ + text::decimal(s.queue_time_p95_ns as nat) + "\n"@)
            &&& says(text, ns + "_queue_time_p99_ns"@ + " "@ + text::decimal(s.queue_time_p99_ns as nat) + "\n"@)
            &&& 0 <= i < buckets.len() ==> says(
                text,
                ns + "_queue_time_ns_bucket{le=\""@ + (if buckets[i].le_ns == u64::MAX {
                    "+Inf"@
                } else {
                    text::decimal(buckets[i].le_ns as nat)
                }) + "\"} "@ + text::decimal(
                    model::sat(model::observations(buckets.take(i + 1))) as u64 as nat,
                ) + "\n"@,
            )
            &&& buckets.len() > 0 ==> says(
                text,
                ns + "_queue_time_ns_count"@ + " "@ + text::decimal(s.queue_time_samples as nat)
                    + "\n"@,
            )
            &&& buckets.len() > 0 ==> says(
                text,
                ns + "_queue_time_ns_sum"@ + " "@ + text::decimal(s.queue_time_sum_ns as nat)
                    + "\n"@,
            )
            &&& 0 <= j < entries.len() ==> says(
                text,
                ns + "_tenant_dequeued_total{tenant=\""@ + text::decimal(
                    entries[j].tenant.0 as nat,
                ) + "\"} "@ + text::decimal(entries[j].count as nat) + "\n"@,
            )
        }),
{
    let ns = prefix(namespace);
    let buckets = s.queue_time_histogram@;
    let entries = s.top_tenants@;
    lemma_total_says(
        ns,
        s,
        "_enqueued_total"@,
        "Total tasks enqueued"@,
        "counter"@,
        s.enqueued,
    );
    lemma_total_says(
        ns,
        s,
        "_dequeued_total"@,
        "Total tasks dequeued"@,
        "counter"@,
        s.dequeued,
    );
    lemma_total_says(
        ns,
        s,
        "_dropped_total"@,
        "Total tasks dropped by backpressure"@,
        "counter"@,
        s.dropped,
    );
    lemma_total_says(
        ns,
        s,
        "_expired_total"@,
        "Total tasks expired before dequeue"@,
        "counter"@,
        s.expired,
    );
    lemma_total_says(
        ns,
        s,
        "_queue_len_estimate"@,
        "Estimated queue length"@,
        "gauge"@,
        s.queue_len_estimate,
    );
    lemma_total_says(
        ns,
        s,
        "_queue_time_sum_ns"@,
        "Sum of queue time in ns"@,
        "counter"@,
        s.queue_time_sum_ns,
    );
    lemma_total_says(
        ns,
        s,
        "_queue_time_samples"@,
        "Total queue time samples"@,
        "counter"@,
        s.queue_time_samples,
    );
    lemma_total_says(
        ns,
        s,
        "_queue_time_p95_ns"@,
        "Approx p95 queue time in ns"@,
        "gauge"@,
        s.queue_time_p95_ns,
    );
    lemma_total_says(
        ns,
        s,
        "_queue_time_p99_ns"@,
        "Approx p99 queue time in ns"@,
        "gauge"@,
        s.queue_time_p99_ns,
    );
    assert forall|line: Seq<char>|
        (says(totals(ns, s), line) || says(histogram(ns, s), line) || says(
            tenants(ns, s),
            line,
        )) implies #[trigger] says(rendered(s, namespace), line) by {
        lemma_says_sum(totals(ns, s), histogram(ns, s), line);
        lemma_says_sum(totals(ns, s) + histogram(ns, s), tenants(ns, s), line);
    }
    if buckets.len() > 0 {
        let a = heading(ns, "_queue_time_ns"@, "Queue time histogram"@, "histogram"@);
        let b = bucket_lines(ns, buckets);
        let c = value_line(ns, "_queue_time_ns_count"@, s.queue_time_samples);
        let d = value_line(ns, "_queue_time_ns_sum"@, s.queue_time_sum_ns);
        lemma_says_itself(c);
        lemma_says_itself(d);
        lemma_says_sum(a + b, c, c);
        lemma_says_sum(a + b + c, d, c);
        lemma_says_sum(a + b + c, d, d);
        if 0 <= i < buckets.len() {
            lemma_buckets_say(ns, buckets, i);
            let line = bucket_line(
                ns,
                buckets[i].le_ns,
                model::sat(model::observations(buckets.take(i + 1))) as u64,
            );
            lemma_says_sum(a, b, line);
            lemma_says_sum(a + b, c, line);
            lemma_says_sum(a + b + c, d, line);
        }
    }
    if 0 <= j < entries.len() {
        lemma_tenants_say(ns, entries, j);
        let a = heading(
            ns,
            "_tenant_dequeued_total"@,
            "Approx dequeued count per tenant (top talkers)"@,
            "gauge"@,
        );
        lemma_says_sum(a, tenant_lines(ns, entries), tenant_line(ns, entries[j]));
    }
}

} // verus!
