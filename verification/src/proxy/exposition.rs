//! Measurements in the text format of Prometheus.
use super::circuit_breaker::{CircuitBreakerState, CircuitState};
use super::middleware::KEPT_TIMES;
use crate::text;
use vstd::prelude::*;
use vstd::string::StringExecFns;

verus! {

/// Response times are kept in nanoseconds and shown in milliseconds.
pub const NANOS_PER_MILLI: u64 = 1_000_000;

/// The upper bounds of the buckets, in milliseconds.
pub open spec fn bounds() -> Seq<u64> {
    seq![5u64, 10, 25, 50, 100, 250, 500, 1000, 2500, 5000, 10000]
}

/// How many of the times are at most so many milliseconds.
pub open spec fn within(times: Seq<u64>, ms: u64) -> nat
    decreases times.len(),
{
    if times.len() == 0 {
        0
    } else {
        within(times.drop_last(), ms) + if times.last() <= ms * NANOS_PER_MILLI {
            1nat
        } else {
            0
        }
    }
}

/// The times together, each in whole milliseconds.
pub open spec fn total_millis(times: Seq<u64>) -> nat
    decreases times.len(),
{
    if times.len() == 0 {
        0
    } else {
        total_millis(times.drop_last()) + (times.last() / NANOS_PER_MILLI) as nat
    }
}

/// The line of one bucket.
pub open spec fn bucket_line(bound: Seq<char>, count: nat) -> Seq<char> {
    "proxy_response_time_histogram_bucket{le=\""@ + bound + "\"} "@ + text::decimal(count) + "\n"@
}

/// The lines of the buckets with these bounds, in order.
pub open spec fn bucket_lines(times: Seq<u64>, limits: Seq<u64>) -> Seq<char>
    decreases limits.len(),
{
    if limits.len() == 0 {
        Seq::empty()
    } else {
        bucket_lines(times, limits.drop_last()) + bucket_line(
            text::decimal(limits.last() as nat),
            within(times, limits.last()),
        )
    }
}

/// The distribution of the response times.
pub open spec fn histogram(times: Seq<u64>) -> Seq<char> {
    "# HELP proxy_response_time_histogram Response time distribution in milliseconds\n"@
        + "# TYPE proxy_response_time_histogram histogram\n"@ + bucket_lines(times, bounds())
        + bucket_line("+Inf"@, times.len()) + "proxy_response_time_histogram_sum "@
        + text::decimal(total_millis(times)) + "\n"@ + "proxy_response_time_histogram_count "@
        + text::decimal(times.len()) + "\n"@
}

/// A character as it stands in the value of a label.
pub open spec fn escaped_char(c: char) -> Seq<char> {
    if c == '\\' {
        seq!['\\', '\\']
    } else if c == '"' {
        seq!['\\', '"']
    } else if c == '\n' {
        seq!['\\', 'n']
    } else {
        seq![c]
    }
}

/// A text as it stands in the value of a label.
pub open spec fn escaped(s: Seq<char>) -> Seq<char>
    decreases s.len(),
{
    if s.len() == 0 {
        Seq::empty()
    } else {
        escaped(s.drop_last()) + escaped_char(s.last())
    }
}

/// The number by which a state of a breaker is shown.
pub open spec fn state_number(state: CircuitState) -> nat {
    match state {
        CircuitState::Closed => 0,
        CircuitState::Open => 1,
        CircuitState::HalfOpen => 2,
    }
}

/// The line of one service.
pub open spec fn state_line(service: Seq<char>, state: CircuitState) -> Seq<char> {
    "proxy_circuit_breaker_state{service=\""@ + escaped(service) + "\"} "@ + text::decimal(
        state_number(state),
    ) + "\n"@
}

/// The lines of some services, in order.
pub open spec fn state_lines(rows: Seq<(Seq<char>, CircuitState)>) -> Seq<char>
    decreases rows.len(),
{
    if rows.len() == 0 {
        Seq::empty()
    } else {
        state_lines(rows.drop_last()) + state_line(rows.last().0, rows.last().1)
    }
}

/// The states of the breakers.
pub open spec fn states(rows: Seq<(Seq<char>, CircuitState)>) -> Seq<char> {
    "# HELP proxy_circuit_breaker_state Circuit breaker states (0 closed, 1 open, 2 half-open)\n"@
        + "# TYPE proxy_circuit_breaker_state gauge\n"@ + state_lines(rows)
}

/// Services and the states of their breakers, as they are listed.
pub open spec fn rows_of(rows: Seq<(String, CircuitState, u32)>) -> Seq<(Seq<char>, CircuitState)> {
    rows.map_values(|row: (String, CircuitState, u32)| (row.0@, row.1))
}

/// The rows name each service that has a breaker once, with the state of that breaker.
pub open spec fn lists(
    rows: Seq<(Seq<char>, CircuitState)>,
    breakers: Map<Seq<char>, CircuitBreakerState>,
) -> bool {
    &&& forall|i: int|
        0 <= i < rows.len() ==> breakers.contains_key((#[trigger] rows[i]).0)
            && breakers[rows[i].0].state == rows[i].1
    &&& forall|name: Seq<char>| #[trigger]
        breakers.contains_key(name) ==> exists|i: int|
            0 <= i < rows.len() && (#[trigger] rows[i]).0 == name
    &&& forall|i: int, j: int|
        0 <= i < j < rows.len() ==> (#[trigger] rows[i]).0 != (#[trigger] rows[j]).0
}

/// A bucket with a higher bound counts all that one with a lower bound counts, and none
/// counts more than there are times.
pub proof fn buckets_are_cumulative(times: Seq<u64>, low: u64, high: u64)
    requires
        low <= high,
    ensures
        within(times, low) <= within(times, high) <= times.len(),
    decreases times.len(),
{
    if times.len() > 0 {
        buckets_are_cumulative(times.drop_last(), low, high);
    }
}

fn push_bucket(r: &mut String, bound: &str, count: u64)
    ensures
        final(r)@ == old(r)@ + bucket_line(bound@, count as nat),
{
    r.append("proxy_response_time_histogram_bucket{le=\"");
    r.append(bound);
    r.append("\"} ");
    r.append(text::to_decimal(count).as_str());
    r.append("\n");
    assert(r@ =~= old(r)@ + bucket_line(bound@, count as nat));
}

/// How many of the times are at most so many milliseconds.
pub fn count_within(times: &Vec<u64>, ms: u64) -> (r: u64)
    requires
        times@.len() <= KEPT_TIMES,
    ensures
        r == within(times@, ms),
{
    let mut r: u64 = 0;
    let mut i: usize = 0;
    while i < times.len()
        invariant
            times@.len() <= KEPT_TIMES,
            i <= times@.len(),
            r == within(times@.take(i as int), ms),
            r <= i,
        decreases times@.len() - i,
    {
        if times[i] as u128 <= ms as u128 * NANOS_PER_MILLI as u128 {
            r = r + 1;
        }
        i = i + 1;
        assert(times@.take(i as int).drop_last() =~= times@.take(i - 1));
    }
    assert(times@.take(i as int) =~= times@);
    r
}

/// The times together, each in whole milliseconds.
pub fn sum_millis(times: &Vec<u64>) -> (r: u64)
    requires
        times@.len() <= KEPT_TIMES,
    ensures
        r == total_millis(times@),
{
    let mut r: u64 = 0;
    let mut i: usize = 0;
    while i < times.len()
        invariant
            times@.len() <= KEPT_TIMES,
            i <= times@.len(),
            r == total_millis(times@.take(i as int)),
            r <= i * 18_446_744_073_710,
        decreases times@.len() - i,
    {
        r = r + times[i] / NANOS_PER_MILLI;
        i = i + 1;
        assert(times@.take(i as int).drop_last() =~= times@.take(i - 1));
    }
    assert(times@.take(i as int) =~= times@);
    r
}

/// The distribution of the response times.
pub fn render_histogram(times: &Vec<u64>) -> (r: String)
    requires
        times@.len() <= KEPT_TIMES,
    ensures
        r@ == histogram(times@),
{
    let mut r: String =
        "# HELP proxy_response_time_histogram Response time distribution in milliseconds\n".to_string();
    r.append("# TYPE proxy_response_time_histogram histogram\n");
    let ghost head = r@;
    let limits: Vec<u64> = vec![5, 10, 25, 50, 100, 250, 500, 1000, 2500, 5000, 10000];
    assert(limits@ =~= bounds());
    let mut i: usize = 0;
    assert(bucket_lines(times@, limits@.take(0)) =~= Seq::<char>::empty());
    while i < limits.len()
        invariant
            times@.len() <= KEPT_TIMES,
            i <= limits@.len(),
            r@ == head + bucket_lines(times@, limits@.take(i as int)),
        decreases limits@.len() - i,
    {
        let count: u64 = count_within(times, limits[i]);
        push_bucket(&mut r, text::to_decimal(limits[i]).as_str(), count);
        i = i + 1;
        assert(limits@.take(i as int).drop_last() =~= limits@.take(i - 1));
        assert(r@ =~= head + bucket_lines(times@, limits@.take(i as int)));
    }
    assert(limits@.take(i as int) =~= bounds());
    push_bucket(&mut r, "+Inf", times.len() as u64);
    r.append("proxy_response_time_histogram_sum ");
    r.append(text::to_decimal(sum_millis(times)).as_str());
    r.append("\n");
    r.append("proxy_response_time_histogram_count ");
    r.append(text::to_decimal(times.len() as u64).as_str());
    r.append("\n");
    assert(r@ =~= histogram(times@));
    r
}

/// A text as it stands in the value of a label.
pub fn escape(s: &str) -> (r: String)
    ensures
        r@ == escaped(s@),
{
    let chars: Vec<char> = text::chars_of(s);
    let mut r: String = String::new();
    let mut i: usize = 0;
    while i < chars.len()
        invariant
            chars@ == s@,
            i <= chars@.len(),
            r@ == escaped(chars@.take(i as int)),
        decreases chars@.len() - i,
    {
        let ghost before = r@;
        let c: char = chars[i];
        if c == '\\' {
            r.push('\\');
            r.push('\\');
        } else if c == '"' {
            r.push('\\');
            r.push('"');
        } else if c == '\n' {
            r.push('\\');
            r.push('n');
        } else {
            r.push(c);
        }
        assert(r@ =~= before + escaped_char(c));
        i = i + 1;
        assert(chars@.take(i as int).drop_last() =~= chars@.take(i - 1));
    }
    assert(chars@.take(i as int) =~= s@);
    r
}

/// The states of the breakers.
pub fn render_states(rows: &Vec<(String, CircuitState, u32)>) -> (r: String)
    ensures
        r@ == states(rows_of(rows@)),
{
    let mut r: String =
        "# HELP proxy_circuit_breaker_state Circuit breaker states (0 closed, 1 open, 2 half-open)\n".to_string();
    r.append("# TYPE proxy_circuit_breaker_state gauge\n");
    let ghost head = r@;
    let ghost all = rows_of(rows@);
    let mut i: usize = 0;
    while i < rows.len()
        invariant
            i <= rows@.len(),
            all == rows_of(rows@),
            r@ == head + state_lines(all.take(i as int)),
        decreases rows@.len() - i,
    {
        let number: u64 = match rows[i].1 {
            CircuitState::Closed => 0,
            CircuitState::Open => 1,
            CircuitState::HalfOpen => 2,
        };
        r.append("proxy_circuit_breaker_state{service=\"");
        r.append(escape(rows[i].0.as_str()).as_str());
        r.append("\"} ");
        r.append(text::to_decimal(number).as_str());
        r.append("\n");
        i = i + 1;
        assert(all.take(i as int).drop_last() =~= all.take(i - 1));
        assert(r@ =~= head + state_lines(all.take(i as int)));
    }
    assert(all.take(i as int) =~= all);
    assert(r@ =~= states(all));
    r
}

/// Each time counts once in every bucket whose bound it does not pass, wherever it stands among
/// the times; a bound is in milliseconds and the times are in nanoseconds. The times add up in
/// whole milliseconds.
pub proof fn every_time_counts(before: Seq<u64>, time: u64, after: Seq<u64>, ms: u64)
    ensures
        within(before.push(time) + after, ms) == within(before + after, ms) + (if time <= ms
            * 1_000_000 {
            1int
        } else {
            0
        }),
        total_millis(before.push(time) + after) == total_millis(before + after) + time / 1_000_000,
        within(Seq::empty(), ms) == 0,
        total_millis(Seq::empty()) == 0,
    decreases after.len(),
{
    let all = before.push(time) + after;
    if after.len() == 0 {
        assert(all =~= before.push(time));
        assert(before + after =~= before);
        assert(before.push(time).drop_last() =~= before);
    } else {
        every_time_counts(before, time, after.drop_last(), ms);
        assert(all.drop_last() =~= before.push(time) + after.drop_last());
        assert((before + after).drop_last() =~= before + after.drop_last());
        assert(all.last() == after.last() && (before + after).last() == after.last());
    }
}

/// Every bound has its line, with the number of times that it bounds, and the lines of all
/// times, of their sum and of their number follow.
pub proof fn every_bucket_has_its_line(times: Seq<u64>, i: int)
    ensures
        bounds() == seq![5u64, 10, 25, 50, 100, 250, 500, 1000, 2500, 5000, 10000],
        0 <= i < bounds().len() ==> text::occurs(
            histogram(times),
            "proxy_response_time_histogram_bucket{le=\""@ + text::decimal(bounds()[i] as nat)
                + "\"} "@ + text::decimal(within(times, bounds()[i])) + "\n"@,
        ),
        text::occurs(
            histogram(times),
            "proxy_response_time_histogram_bucket{le=\"+Inf\"} "@ + text::decimal(times.len())
                + "\n"@,
        ),
        text::occurs(
            histogram(times),
            "proxy_response_time_histogram_sum "@ + text::decimal(total_millis(times)) + "\n"@,
        ),
        text::occurs(
            histogram(times),
            "proxy_response_time_histogram_count "@ + text::decimal(times.len()) + "\n"@,
        ),
{
    let head =
        "# HELP proxy_response_time_histogram Response time distribution in milliseconds\n"@
        + "# TYPE proxy_response_time_histogram histogram\n"@;
    let lines = bucket_lines(times, bounds());
    let all = bucket_line("+Inf"@, times.len());
    let sum = "proxy_response_time_histogram_sum "@ + text::decimal(total_millis(times)) + "\n"@;
    let count = "proxy_response_time_histogram_count "@ + text::decimal(times.len()) + "\n"@;
    lemma_four_parts(
        head,
        lines,
        all,
        "proxy_response_time_histogram_sum "@,
        text::decimal(total_millis(times)),
        "\n"@,
        "proxy_response_time_histogram_count "@,
        text::decimal(times.len()),
    );
    assert(histogram(times) == head + lines + all + sum + count);
    lemma_parts_stand(head, lines, all, sum, count);
    if 0 <= i < bounds().len() {
        let line = bucket_line(
            text::decimal(bounds()[i] as nat),
            within(times, bounds()[i]),
        );
        let (before, after) = lemma_bucket_lines(times, bounds(), i);
        lemma_part_of_part_stands(head, before, line, after, all + sum + count);
        assert(head + lines + all + sum + count =~= head + lines + (all + sum + count));
    }
    lemma_infinite_bucket();
}

proof fn lemma_infinite_bucket()
    ensures
        "proxy_response_time_histogram_bucket{le=\""@ + "+Inf"@ + "\"} "@
            == "proxy_response_time_histogram_bucket{le=\"+Inf\"} "@,
{
    reveal_strlit("proxy_response_time_histogram_bucket{le=\"");
    reveal_strlit("+Inf");
    reveal_strlit("\"} ");
    reveal_strlit("proxy_response_time_histogram_bucket{le=\"+Inf\"} ");
    assert("proxy_response_time_histogram_bucket{le=\""@ + "+Inf"@ + "\"} "@
        =~= "proxy_response_time_histogram_bucket{le=\"+Inf\"} "@);
}

proof fn lemma_four_parts(
    head: Seq<char>,
    lines: Seq<char>,
    all: Seq<char>,
    s: Seq<char>,
    x: Seq<char>,
    end: Seq<char>,
    c: Seq<char>,
    y: Seq<char>,
)
    ensures
        head + lines + all + s + x + end + c + y + end == head + lines + all + (s + x + end) + (c
            + y + end),
{
    let start = head + lines + all;
    assert(start + s + x + end =~= start + (s + x + end));
    let more = start + (s + x + end);
    assert(more + c + y + end =~= more + (c + y + end));
}

proof fn lemma_parts_stand(
    head: Seq<char>,
    lines: Seq<char>,
    all: Seq<char>,
    sum: Seq<char>,
    count: Seq<char>,
)
    ensures
        text::occurs(head + lines + all + sum + count, all),
        text::occurs(head + lines + all + sum + count, sum),
        text::occurs(head + lines + all + sum + count, count),
{
    let whole = head + lines + all + sum + count;
    let none = Seq::<char>::empty();
    text::parts_stand_anywhere(head + lines, all, sum + count);
    assert(whole =~= (head + lines) + all + (sum + count));
    text::parts_stand_anywhere(head + lines + all, sum, count);
    text::parts_stand_anywhere(head + lines + all + sum, count, none);
    assert(whole =~= whole + none);
}

proof fn lemma_part_of_part_stands(
    head: Seq<char>,
    before: Seq<char>,
    line: Seq<char>,
    after: Seq<char>,
    rest: Seq<char>,
)
    ensures
        text::occurs(head + (before + line + after) + rest, line),
{
    text::parts_stand_anywhere(head + before, line, after + rest);
    assert(head + (before + line + after) + rest =~= (head + before) + line + (after + rest));
}

proof fn lemma_bucket_lines(times: Seq<u64>, limits: Seq<u64>, i: int) -> (r: (
    Seq<char>,
    Seq<char>,
))
    requires
        0 <= i < limits.len(),
    ensures
        bucket_lines(times, limits) == r.0 + bucket_line(
            text::decimal(limits[i] as nat),
            within(times, limits[i]),
        ) + r.1,
    decreases limits.len(),
{
    let less = limits.drop_last();
    let last = bucket_line(text::decimal(limits.last() as nat), within(times, limits.last()));
    if i == limits.len() - 1 {
        let r = (bucket_lines(times, less), Seq::<char>::empty());
        assert(bucket_lines(times, limits) =~= r.0 + last + r.1);
        r
    } else {
        let r = lemma_bucket_lines(times, less, i);
        let line = bucket_line(text::decimal(limits[i] as nat), within(times, limits[i]));
        assert(bucket_lines(times, limits) =~= r.0 + line + (r.1 + last));
        (r.0, r.1 + last)
    }
}

/// Every service that is listed has its line, with the number of its state: nought for closed,
/// one for open, two for half open.
pub proof fn every_service_has_its_line(
    before: Seq<(Seq<char>, CircuitState)>,
    service: Seq<char>,
    state: CircuitState,
    after: Seq<(Seq<char>, CircuitState)>,
)
    ensures
        text::occurs(
            states(before.push((service, state)) + after),
            "proxy_circuit_breaker_state{service=\""@ + escaped(service) + "\"} "@ + (
            match state {
                CircuitState::Closed => "0"@,
                CircuitState::Open => "1"@,
                CircuitState::HalfOpen => "2"@,
            }) + "\n"@,
        ),
        states(Seq::empty()).len() > 0,
{
    let all = before.push((service, state)) + after;
    let head =
        "# HELP proxy_circuit_breaker_state Circuit breaker states (0 closed, 1 open, 2 half-open)\n"@
        + "# TYPE proxy_circuit_breaker_state gauge\n"@;
    let line = state_line(service, state);
    let (start, end) = lemma_state_lines(before, service, state, after);
    assert(states(all) =~= (head + start) + line + end);
    text::parts_stand_anywhere(head + start, line, end);
    reveal_strlit("0");
    reveal_strlit("1");
    reveal_strlit("2");
    assert(text::decimal(0) =~= "0"@);
    assert(text::decimal(1) =~= "1"@);
    assert(text::decimal(2) =~= "2"@);
    reveal_strlit("# TYPE proxy_circuit_breaker_state gauge\n");
    assert("# TYPE proxy_circuit_breaker_state gauge\n"@.len() > 0);
}

proof fn lemma_state_lines(
    before: Seq<(Seq<char>, CircuitState)>,
    service: Seq<char>,
    state: CircuitState,
    after: Seq<(Seq<char>, CircuitState)>,
) -> (r: (Seq<char>, Seq<char>))
    ensures
        state_lines(before.push((service, state)) + after) == r.0 + state_line(service, state)
            + r.1,
    decreases after.len(),
{
    let all = before.push((service, state)) + after;
    if after.len() == 0 {
        assert(all =~= before.push((service, state)));
        assert(before.push((service, state)).drop_last() =~= before);
        let r = (state_lines(before), Seq::<char>::empty());
        assert(state_lines(all) =~= r.0 + state_line(service, state) + r.1);
        r
    } else {
        let r = lemma_state_lines(before, service, state, after.drop_last());
        assert(all.drop_last() =~= before.push((service, state)) + after.drop_last());
        let last = state_line(after.last().0, after.last().1);
        assert(state_lines(all) =~= r.0 + state_line(service, state) + (r.1 + last));
        (r.0, r.1 + last)
    }
}

/// A text without a quote, a backslash or a line end stands in a label as it is. In every
/// label, a line end does not stand, and each character of the text is written by itself, with
/// a backslash before a quote and before a backslash, and as a backslash and an `n` where it is
/// a line end.
pub proof fn labels_are_written_by_characters(before: Seq<char>, c: char, after: Seq<char>)
    ensures
        escaped(before.push(c) + after) == escaped(before) + escaped(seq![c]) + escaped(after),
        c != '"' && c != '\\' && c != '\n' ==> escaped(seq![c]) == seq![c],
        escaped(seq!['"']) == seq!['\\', '"'],
        escaped(seq!['\\']) == seq!['\\', '\\'],
        escaped(seq!['\n']) == seq!['\\', 'n'],
        escaped(Seq::empty()) == Seq::<char>::empty(),
    decreases after.len(),
{
    let all = before.push(c) + after;
    lemma_escaped_one(c);
    lemma_escaped_one('"');
    lemma_escaped_one('\\');
    lemma_escaped_one('\n');
    if after.len() == 0 {
        assert(all =~= before.push(c));
        assert(before.push(c).drop_last() =~= before);
        assert(escaped(all) =~= escaped(before) + escaped(seq![c]) + escaped(after));
    } else {
        labels_are_written_by_characters(before, c, after.drop_last());
        assert(all.drop_last() =~= before.push(c) + after.drop_last());
        assert(escaped(all) =~= escaped(before) + escaped(seq![c]) + escaped(after));
    }
}

proof fn lemma_escaped_one(c: char)
    ensures
        escaped(seq![c]) == escaped_char(c),
{
    assert(seq![c].drop_last() =~= Seq::<char>::empty());
    assert(escaped(Seq::<char>::empty()) == Seq::<char>::empty());
    assert(escaped(seq![c]) =~= escaped_char(c));
}

/// The rows that are shown are those that are listed, each in its place, with its service and
/// its state.
pub proof fn rows_are_shown_as_listed(rows: Seq<(String, CircuitState, u32)>, i: int)
    requires
        0 <= i < rows.len(),
    ensures
        rows_of(rows).len() == rows.len(),
        rows_of(rows)[i] == (rows[i].0@, rows[i].1),
{
}

/// Rows that list the breakers give every service that has one its line, with its state; and a
/// row for any other service is not among them.
pub proof fn every_breaker_is_shown(
    rows: Seq<(Seq<char>, CircuitState)>,
    breakers: Map<Seq<char>, CircuitBreakerState>,
    name: Seq<char>,
    i: int,
)
    requires
        lists(rows, breakers),
    ensures
        breakers.contains_key(name) ==> text::occurs(
            states(rows),
            "proxy_circuit_breaker_state{service=\""@ + escaped(name) + "\"} "@ + (
            match breakers[name].state {
                CircuitState::Closed => "0"@,
                CircuitState::Open => "1"@,
                CircuitState::HalfOpen => "2"@,
            }) + "\n"@,
        ),
        0 <= i < rows.len() ==> breakers.contains_key(rows[i].0),
{
    if breakers.contains_key(name) {
        let k = choose|k: int| 0 <= k < rows.len() && (#[trigger] rows[k]).0 == name;
        let (before, after) = (rows.take(k), rows.skip(k + 1));
        assert(rows[k].1 == breakers[name].state);
        assert(rows =~= before.push((name, breakers[name].state)) + after);
        every_service_has_its_line(before, name, breakers[name].state, after);
    }
}

} // verus!
