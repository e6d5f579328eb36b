//! Data points for a metrics database, and the bookkeeping of the thread that sends
//! them.

use vstd::prelude::*;
use vstd::string::StringExecFns;
use std::time::{SystemTime, UNIX_EPOCH};
use crate::gossip_stats::{Histogram, lists_counts};

verus! {

/// The character of a decimal digit.
pub open spec fn digit_char(d: nat) -> char {
    if d == 0 {
        '0'
    } else if d == 1 {
        '1'
    } else if d == 2 {
        '2'
    } else if d == 3 {
        '3'
    } else if d == 4 {
        '4'
    } else if d == 5 {
        '5'
    } else if d == 6 {
        '6'
    } else if d == 7 {
        '7'
    } else if d == 8 {
        '8'
    } else {
        '9'
    }
}

/// The decimal digits of `n`, most significant first, without leading zeros.
pub open spec fn decimal(n: nat) -> Seq<char>
    decreases n,
{
    if n < 10 {
        seq![digit_char(n)]
    } else {
        decimal(n / 10).push(digit_char(n % 10))
    }
}

/// The number that decimal digits, most significant first, stand for.
pub open spec fn digits_value(s: Seq<char>) -> int
    decreases s.len(),
{
    if s.len() == 0 {
        0
    } else {
        digits_value(s.drop_last()) * 10 + ((s.last() as u32) - ('0' as u32))
    }
}

/// A digit's character stands for the digit.
proof fn lemma_digit_value(d: nat)
    requires
        d < 10,
    ensures
        (digit_char(d) as u32) - ('0' as u32) == d,
        '0' <= digit_char(d) <= '9',
        d > 0 ==> digit_char(d) != '0',
{
    assert(('0' as u32) == 48);
    assert(('1' as u32) == 49);
    assert(('2' as u32) == 50);
    assert(('3' as u32) == 51);
    assert(('4' as u32) == 52);
    assert(('5' as u32) == 53);
    assert(('6' as u32) == 54);
    assert(('7' as u32) == 55);
    assert(('8' as u32) == 56);
    assert(('9' as u32) == 57);
}

/// The decimal text of `n` is made of digits only, has no leading zero unless it is
/// "0", and reads back as `n`.
pub proof fn lemma_decimal_reads_back(n: nat)
    ensures
        digits_value(decimal(n)) == n,
        decimal(n).len() > 0,
        forall|i: int| 0 <= i < decimal(n).len() ==> '0' <= #[trigger] decimal(n)[i] <= '9',
        n > 0 ==> decimal(n)[0] != '0',
    decreases n,
{
    if n < 10 {
        lemma_digit_value(n);
        assert(decimal(n).drop_last() =~= Seq::<char>::empty());
        assert(digits_value(Seq::<char>::empty()) == 0);
        assert(digits_value(decimal(n)) == digits_value(decimal(n).drop_last()) * 10 + ((decimal(n).last() as u32) - (
            '0' as u32)));
    } else {
        lemma_digit_value(n % 10);
        lemma_decimal_reads_back(n / 10);
        let d = decimal(n);
        assert(d.drop_last() == decimal(n / 10));
        assert forall|i: int| 0 <= i < d.len() implies '0' <= #[trigger] d[i] <= '9' by {
            if i < d.len() - 1 {
                assert(d[i] == decimal(n / 10)[i]);
            }
        }
        assert(d[0] == decimal(n / 10)[0]);
        assert(d.last() == digit_char(n % 10));
        assert(digits_value(d) == digits_value(decimal(n / 10)) * 10 + ((d.last() as u32) - ('0' as u32)));
        assert((n / 10) * 10 + n % 10 == n) by (nonlinear_arith);
    }
}

/// The one-character text of a decimal digit.
fn digit_str(d: u128) -> (s: &'static str)
    requires
        d < 10,
    ensures
        s@ == seq![digit_char(d as nat)],
{
    proof {
        reveal_strlit("0");
        reveal_strlit("1");
        reveal_strlit("2");
        reveal_strlit("3");
        reveal_strlit("4");
        reveal_strlit("5");
        reveal_strlit("6");
        reveal_strlit("7");
        reveal_strlit("8");
        reveal_strlit("9");
    }
    let s = if d == 0 {
        "0"
    } else if d == 1 {
        "1"
    } else if d == 2 {
        "2"
    } else if d == 3 {
        "3"
    } else if d == 4 {
        "4"
    } else if d == 5 {
        "5"
    } else if d == 6 {
        "6"
    } else if d == 7 {
        "7"
    } else if d == 8 {
        "8"
    } else {
        "9"
    };
    assert(s@ =~= seq![digit_char(d as nat)]);
    s
}

/// Appends the decimal digits of `n`.
pub fn push_decimal(s: &mut String, n: u128)
    ensures
        final(s)@ == old(s)@ + decimal(n as nat),
    decreases n,
{
    if n >= 10 {
        push_decimal(s, n / 10);
    }
    s.append(digit_str(n % 10));
    proof {
        if n >= 10 {
            assert(old(s)@ + decimal((n / 10) as nat) + seq![digit_char((n % 10) as nat)] =~= old(s)@ + decimal(n as nat));
        } else {
            assert(old(s)@ + seq![digit_char((n % 10) as nat)] =~= old(s)@ + decimal(n as nat));
        }
    }
}

/// Calls `SystemTime::now().duration_since(UNIX_EPOCH)`: the nanoseconds since the Unix
/// epoch, or `None` when the clock reads earlier. Nothing is stated of the value.
#[verifier::external_body]
fn unix_time_nanos() -> Option<u128> {
    match SystemTime::now().duration_since(UNIX_EPOCH) {
        Ok(d) => Some(d.as_nanos()),
        Err(_) => None,
    }
}

/// A time stamp: the nanoseconds since the Unix epoch in decimal (zero nanoseconds
/// when the clock reads earlier than the epoch).
pub fn get_timestamp() -> (s: String)
    ensures
        exists|n: nat| s@ == #[trigger] decimal(n),
{
    let ns = match unix_time_nanos() {
        Some(n) => n,
        None => 0,
    };
    let mut s = String::new();
    push_decimal(&mut s, ns);
    proof {
        assert(s@ =~= decimal(ns as nat));
    }
    s
}

/// The decimal text of a count of nanoseconds followed by a line break.
pub open spec fn timestamp_line(n: nat) -> Seq<char> {
    decimal(n) + seq!['\n']
}

/// A time stamp: the nanoseconds since the Unix epoch in decimal and a line break
/// (zero nanoseconds when the clock reads earlier than the epoch).
pub fn get_timestamp_now() -> (s: String)
    ensures
        exists|n: nat| s@ == #[trigger] timestamp_line(n),
{
    let ns = match unix_time_nanos() {
        Some(n) => n,
        None => 0,
    };
    let mut s = String::new();
    push_decimal(&mut s, ns);
    s.append("\n");
    proof {
        reveal_strlit("\n");
        assert(s@ =~= timestamp_line(ns as nat));
    }
    s
}

/// Sends data points to the metrics database.
pub struct ReportToInflux {}

/// Counts of the data points taken off the queue and of those sent.
pub struct Tracker {
    dequeued: usize,
    sent: usize,
}

impl Tracker {
    /// The number of data points taken off the queue to be sent.
    pub closed spec fn dequeued_count(self) -> usize {
        self.dequeued
    }

    /// The number of data points sent.
    pub closed spec fn sent_count(self) -> usize {
        self.sent
    }

    /// Counts one more data point taken off the queue.
    pub fn add_dequeued(&mut self)
        requires
            old(self).dequeued_count() < usize::MAX,
        ensures
            final(self).dequeued_count() == old(self).dequeued_count() + 1,
            final(self).sent_count() == old(self).sent_count(),
    {
        self.dequeued = self.dequeued + 1;
    }

    /// Counts one more data point sent.
    pub fn add_sent(&mut self)
        requires
            old(self).sent_count() < usize::MAX,
        ensures
            final(self).sent_count() == old(self).sent_count() + 1,
            final(self).dequeued_count() == old(self).dequeued_count(),
    {
        self.sent = self.sent + 1;
    }

    /// The number of data points taken off the queue.
    pub fn get_dequeued(&self) -> (n: usize)
        ensures
            n == self.dequeued_count(),
    {
        self.dequeued
    }

    /// The number of data points sent.
    pub fn get_sent(&self) -> (n: usize)
        ensures
            n == self.sent_count(),
    {
        self.sent
    }

    /// Whether every data point taken off the queue has been sent.
    pub fn equal(&self) -> (b: bool)
        ensures
            b == (self.sent_count() == self.dequeued_count()),
    {
        self.sent == self.dequeued
    }
}

impl Default for Tracker {
    fn default() -> (t: Self)
        ensures
            t.dequeued_count() == 0,
            t.sent_count() == 0,
    {
        Tracker { dequeued: 0, sent: 0 }
    }
}


/// A data point for the metrics database: its line-protocol text and the time stamp
/// it was made with.
#[derive(Clone, Debug)]
pub struct InfluxDataPoint {
    datapoint: String,
    timestamp: String,
}

impl InfluxDataPoint {
    /// The text of the data point.
    pub closed spec fn text(self) -> Seq<char> {
        self.datapoint@
    }

    /// The time stamp the data point was made with.
    pub closed spec fn stamp(self) -> Seq<char> {
        self.timestamp@
    }

    /// The text of the data point.
    pub fn data(&self) -> (r: String)
        ensures
            r@ == self.text(),
    {
        self.datapoint.clone()
    }

    /// Marks the data point as the one that starts a run.
    pub fn set_start(&mut self)
        ensures
            final(self).text() == old(self).text() + "start"@,
            final(self).stamp() == old(self).stamp(),
    {
        self.datapoint.append("start");
    }

    /// Whether the data point starts a run.
    pub fn is_start(&self) -> (b: bool)
        ensures
            b == (self.text() == "start"@),
    {
        crate::str_eq(self.datapoint.as_str(), "start")
    }

    /// Marks the data point as the last of a run.
    pub fn set_last_datapoint(&mut self)
        ensures
            final(self).text() == old(self).text() + "end"@,
            final(self).stamp() == old(self).stamp(),
    {
        self.datapoint.append("end");
    }

    /// Whether the data point is the last of a run.
    pub fn last_datapoint(&self) -> (b: bool)
        ensures
            b == (self.text() == "end"@),
    {
        crate::str_eq(self.datapoint.as_str(), "end")
    }

    /// A time stamp of now: the nanoseconds since the Unix epoch and a line break.
    pub fn get_timestamp_now(&self) -> (s: String)
        ensures
            exists|n: nat| s@ == #[trigger] timestamp_line(n),
    {
        get_timestamp_now()
    }

    /// Appends the time stamp the data point was made with.
    pub fn append_timestamp(&mut self)
        ensures
            final(self).text() == old(self).text() + old(self).stamp(),
            final(self).stamp() == old(self).stamp(),
    {
        self.datapoint.append(self.timestamp.as_str());
    }

    /// Appends a time stamp of now.
    pub fn set_and_append_timestamp(&mut self)
        ensures
            exists|n: nat| final(self).text() == old(self).text() + #[trigger] timestamp_line(n),
            final(self).stamp() == old(self).stamp(),
    {
        let ts = self.get_timestamp_now();
        self.datapoint.append(ts.as_str());
    }

    /// Appends a statistic `data` (its decimal text) under the name `stat_type`, then
    /// the time stamp.
    pub fn create_data_point(&mut self, data: &str, stat_type: String)
        ensures
            final(self).text() == old(self).text() + stat_type@ + " data="@ + data@ + " "@ + old(self).stamp(),
            final(self).stamp() == old(self).stamp(),
    {
        self.datapoint.append(stat_type.as_str());
        self.datapoint.append(" data=");
        self.datapoint.append(data);
        self.datapoint.append(" ");
        self.append_timestamp();
    }

    /// Appends the hop statistics of a round (mean and median as decimal text), then
    /// the time stamp.
    pub fn create_hops_stat_point(&mut self, mean: &str, median: &str, max: u64)
        ensures
            final(self).text() == old(self).text() + "hops_stat mean="@ + mean@ + ",median="@ + median@ + ",max="@
                + decimal(max as nat) + " "@ + old(self).stamp(),
            final(self).stamp() == old(self).stamp(),
    {
        self.datapoint.append("hops_stat mean=");
        self.datapoint.append(mean);
        self.datapoint.append(",median=");
        self.datapoint.append(median);
        self.datapoint.append(",max=");
        push_decimal(&mut self.datapoint, max as u128);
        self.datapoint.append(" ");
        self.append_timestamp();
    }

    /// Appends the statistics of the stranded nodes (mean and median as decimal text),
    /// then the time stamp.
    pub fn create_stranded_node_stat_point(&mut self, count: usize, mean: &str, median: &str, max: u64, min: u64)
        ensures
            final(self).text() == old(self).text() + "stranded_node_stats count="@ + decimal(count as nat) + ",mean="@
                + mean@ + ",median="@ + median@ + ",max="@ + decimal(max as nat) + ",min="@ + decimal(min as nat) + " "@
                + old(self).stamp(),
            final(self).stamp() == old(self).stamp(),
    {
        self.datapoint.append("stranded_node_stats count=");
        push_decimal(&mut self.datapoint, count as u128);
        self.datapoint.append(",mean=");
        self.datapoint.append(mean);
        self.datapoint.append(",median=");
        self.datapoint.append(median);
        self.datapoint.append(",max=");
        push_decimal(&mut self.datapoint, max as u128);
        self.datapoint.append(",min=");
        push_decimal(&mut self.datapoint, min as u128);
        self.datapoint.append(" ");
        self.append_timestamp();
    }

    /// Appends the iteration counters, then the time stamp.
    pub fn create_iteration_point(&mut self, gossip_iter: usize, simulation_iter: usize)
        ensures
            final(self).text() == old(self).text() + "iteration simulation_iter="@ + decimal(simulation_iter as nat)
                + ",gossip_iter="@ + decimal(gossip_iter as nat) + " "@ + old(self).stamp(),
            final(self).stamp() == old(self).stamp(),
    {
        self.datapoint.append("iteration simulation_iter=");
        push_decimal(&mut self.datapoint, simulation_iter as u128);
        self.datapoint.append(",gossip_iter=");
        push_decimal(&mut self.datapoint, gossip_iter as u128);
        self.datapoint.append(" ");
        self.append_timestamp();
    }

    /// Appends the parameters of a simulation (the prune stake threshold as decimal
    /// text), then the time stamp.
    pub fn create_config_point(
        &mut self,
        push_fanout: usize,
        active_set_size: usize,
        origin_rank: usize,
        prune_stake_threshold: &str,
        min_ingress_nodes: usize,
    )
        ensures
            final(self).text() == old(self).text() + "config push_fanout="@ + decimal(push_fanout as nat)
                + ",active_set_size="@ + decimal(active_set_size as nat) + ",origin_rank="@ + decimal(origin_rank as nat)
                + ",prune_stake_threshold="@ + prune_stake_threshold@ + ",min_ingress_nodes="@ + decimal(
                min_ingress_nodes as nat,
            ) + " "@ + old(self).stamp(),
            final(self).stamp() == old(self).stamp(),
    {
        self.datapoint.append("config push_fanout=");
        push_decimal(&mut self.datapoint, push_fanout as u128);
        self.datapoint.append(",active_set_size=");
        push_decimal(&mut self.datapoint, active_set_size as u128);
        self.datapoint.append(",origin_rank=");
        push_decimal(&mut self.datapoint, origin_rank as u128);
        self.datapoint.append(",prune_stake_threshold=");
        self.datapoint.append(prune_stake_threshold);
        self.datapoint.append(",min_ingress_nodes=");
        push_decimal(&mut self.datapoint, min_ingress_nodes as u128);
        self.datapoint.append(" ");
        self.append_timestamp();
    }

    /// Appends the statistics of stranded iterations (all but the total as decimal
    /// text), then the time stamp.
    pub fn create_stranded_iteration_point(
        &mut self,
        total_stranded_iterations_count: u64,
        mean_number_of_iterations_node_stranded_for: &str,
        mean_number_of_nodes_stranded_during_each_iteration: &str,
        mean_number_of_iterations_a_stranded_node_was_stranded_for: &str,
        median_number_of_iterations_a_stranded_node_was_stranded_for: &str,
        mean_weighted_stake: &str,
        median_weighted_stake: &str,
    )
        ensures
            final(self).text() == old(self).text() + "stranded_node_iterations total_stranded="@ + decimal(
                total_stranded_iterations_count as nat,
            ) + ",mean_iter_stranded_per_node="@ + mean_number_of_iterations_node_stranded_for@
                + ",mean_stranded_per_iter="@ + mean_number_of_nodes_stranded_during_each_iteration@
                + ",mean_iter_stranded="@ + mean_number_of_iterations_a_stranded_node_was_stranded_for@
                + ",median_iter_stranded="@ + median_number_of_iterations_a_stranded_node_was_stranded_for@
                + ",mean_weighted_stake="@ + mean_weighted_stake@ + ",median_weighted_stake="@ + median_weighted_stake@
                + " "@ + old(self).stamp(),
            final(self).stamp() == old(self).stamp(),
    {
        self.datapoint.append("stranded_node_iterations total_stranded=");
        push_decimal(&mut self.datapoint, total_stranded_iterations_count as u128);
        self.datapoint.append(",mean_iter_stranded_per_node=");
        self.datapoint.append(mean_number_of_iterations_node_stranded_for);
        self.datapoint.append(",mean_stranded_per_iter=");
        self.datapoint.append(mean_number_of_nodes_stranded_during_each_iteration);
        self.datapoint.append(",mean_iter_stranded=");
        self.datapoint.append(mean_number_of_iterations_a_stranded_node_was_stranded_for);
        self.datapoint.append(",median_iter_stranded=");
        self.datapoint.append(median_number_of_iterations_a_stranded_node_was_stranded_for);
        self.datapoint.append(",mean_weighted_stake=");
        self.datapoint.append(mean_weighted_stake);
        self.datapoint.append(",median_weighted_stake=");
        self.datapoint.append(median_weighted_stake);
        self.datapoint.append(" ");
        self.append_timestamp();
    }
}

impl Default for InfluxDataPoint {
    fn default() -> (p: Self)
        ensures
            p.text() == Seq::<char>::empty(),
            exists|n: nat| p.stamp() == #[trigger] timestamp_line(n),
    {
        InfluxDataPoint { datapoint: String::new(), timestamp: get_timestamp_now() }
    }
}


/// The thread that takes data points off the queue and sends them.
pub struct InfluxThread {}

/// The state of the sending loop between two turns: whether the last data point of
/// the run was taken off the queue, whether the draining was reported, and how long
/// to wait between turns.
pub struct InfluxLoopState {
    rx_last_datapoint: bool,
    draining_logged: bool,
    wait_millis: u64,
}

impl InfluxLoopState {
    /// Whether the last data point of the run was taken off the queue.
    pub closed spec fn saw_last(self) -> bool {
        self.rx_last_datapoint
    }

    /// Whether the draining of the queue was reported.
    pub closed spec fn logged(self) -> bool {
        self.draining_logged
    }

    /// The wait between turns, in milliseconds.
    pub closed spec fn wait(self) -> u64 {
        self.wait_millis
    }

    /// The wait between turns, in milliseconds.
    pub fn wait_millis(&self) -> (w: u64)
        ensures
            w == self.wait(),
    {
        self.wait_millis
    }
}

impl InfluxThread {
    /// The state before the first turn: nothing seen, a wait of 100 milliseconds.
    pub fn initial_state() -> (s: InfluxLoopState)
        ensures
            !s.saw_last(),
            !s.logged(),
            s.wait() == 100,
    {
        InfluxLoopState { rx_last_datapoint: false, draining_logged: false, wait_millis: 100 }
    }

    /// Handles a data point taken off the queue: the last one of the run is noted, the
    /// one that starts a run shortens the wait to 1 millisecond, and any other is to be
    /// sent (the result).
    pub fn on_datapoint(state: &mut InfluxLoopState, dp: &InfluxDataPoint) -> (send: bool)
        ensures
            send == (dp.text() != "end"@ && dp.text() != "start"@),
            final(state).saw_last() == (old(state).saw_last() || dp.text() == "end"@),
            final(state).logged() == old(state).logged(),
            final(state).wait() == (if dp.text() != "end"@ && dp.text() == "start"@ {
                1
            } else {
                old(state).wait()
            }),
    {
        if dp.last_datapoint() {
            state.rx_last_datapoint = true;
            false
        } else if dp.is_start() {
            state.wait_millis = 1;
            false
        } else {
            true
        }
    }

    /// The end of a turn, once the last data point was seen: whether to report that the
    /// queue drains (only the first time) and whether to stop, which is when every data
    /// point taken off the queue has been sent.
    pub fn after_turn(state: &mut InfluxLoopState, all_sent: bool) -> (r: (bool, bool))
        ensures
            r.0 == (old(state).saw_last() && !old(state).logged()),
            r.1 == (old(state).saw_last() && all_sent),
            final(state).saw_last() == old(state).saw_last(),
            final(state).logged() == (old(state).logged() || old(state).saw_last()),
            final(state).wait() == old(state).wait(),
    {
        if state.rx_last_datapoint {
            let log = !state.draining_logged;
            state.draining_logged = true;
            (log, all_sent)
        } else {
            (false, false)
        }
    }
}


/// The highest number of rounds stranded that falls in bucket `b`.
pub open spec fn bucket_max(min: u64, range: u64, b: u64) -> int {
    min + (b + 1) * range - 1
}

/// The lines of a histogram, one per listed bucket, each with its own time stamp.
pub open spec fn histogram_lines(
    data_type: Seq<char>,
    min: u64,
    range: u64,
    pairs: Seq<(u64, u64)>,
    stamps: Seq<nat>,
) -> Seq<char>
    decreases pairs.len(),
{
    if pairs.len() == 0 || stamps.len() == 0 {
        Seq::empty()
    } else {
        histogram_lines(data_type, min, range, pairs.drop_last(), stamps.drop_last()) + data_type + " bucket="@
            + decimal(bucket_max(min, range, pairs.last().0) as nat) + ",count="@ + decimal(pairs.last().1 as nat) + " "@
            + timestamp_line(stamps.last())
    }
}

impl InfluxDataPoint {
    /// Appends one line per bucket of the histogram that holds a node, by increasing
    /// bucket: the highest number of rounds stranded in the bucket and its count, each
    /// followed by a time stamp of now.
    pub fn create_histogram_point(&mut self, data_type: String, histogram: &Histogram)
        requires
            forall|b: u64|
                #[trigger] histogram.counts().contains_key(b) ==> b < u64::MAX && 1 <= histogram.min_spec() + (b + 1)
                    * histogram.range_spec() <= u64::MAX,
        ensures
            final(self).stamp() == old(self).stamp(),
            exists|pairs: Seq<(u64, u64)>, stamps: Seq<nat>|
                #[trigger] lists_counts(histogram.counts(), pairs) && stamps.len() == pairs.len() && final(self).text()
                    == old(self).text() + #[trigger] histogram_lines(
                    data_type@,
                    histogram.min_spec(),
                    histogram.range_spec(),
                    pairs,
                    stamps,
                ),
    {
        let pairs = histogram.entries();
        let min = histogram.min_stranded();
        let range = histogram.bucket_range();
        let ghost mut stamps: Seq<nat> = Seq::empty();
        let mut i: usize = 0;
        while i < pairs.len()
            invariant
                0 <= i <= pairs@.len(),
                lists_counts(histogram.counts(), pairs@),
                min == histogram.min_spec(),
                range == histogram.range_spec(),
                forall|b: u64|
                    #[trigger] histogram.counts().contains_key(b) ==> b < u64::MAX && 1 <= histogram.min_spec() + (b + 1)
                        * histogram.range_spec() <= u64::MAX,
                stamps.len() == i,
                self.stamp() == old(self).stamp(),
                self.text() == old(self).text() + histogram_lines(data_type@, min, range, pairs@.take(i as int), stamps),
            decreases pairs@.len() - i,
        {
            let (bucket, count) = pairs[i];
            assert(histogram.counts().contains_key(pairs@[i as int].0));
            assert(1 <= min + (bucket + 1) * range <= u64::MAX);
            let top = min + (bucket + 1) * range - 1;
            let ghost before = self.text();
            self.datapoint.append(data_type.as_str());
            self.datapoint.append(" bucket=");
            push_decimal(&mut self.datapoint, top as u128);
            self.datapoint.append(",count=");
            push_decimal(&mut self.datapoint, count as u128);
            self.datapoint.append(" ");
            let ghost mid = self.text();
            self.set_and_append_timestamp();
            proof {
                let n = choose|n: nat| self.text() == mid + #[trigger] timestamp_line(n);
                let s1 = stamps.push(n);
                assert(pairs@.take(i + 1).drop_last() =~= pairs@.take(i as int));
                assert(s1.drop_last() =~= stamps);
                assert(pairs@.take(i + 1).last() == (bucket, count));
                assert(self.text() =~= old(self).text() + histogram_lines(data_type@, min, range, pairs@.take(i + 1), s1));
                stamps = s1;
            }
            i = i + 1;
        }
        proof {
            assert(pairs@.take(pairs@.len() as int) =~= pairs@);
        }
    }
}

} // verus!
