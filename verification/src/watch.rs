//! `speed watch`: keeps parallel downloads running and charts throughput live.

use vstd::prelude::*;
use vstd::string::*;
use vstd::utf8::encode_utf8;

use crate::net::Meta;
use crate::reading::{Reading, INFINITY_KEY, NEG_INFINITY_KEY, TENTH_KEY, THOUSAND_KEY, ZERO_KEY};
use crate::servers::{cities, city_names, distinct, Ranked, CONNS_PER_SERVER, TEST_SERVERS};
use crate::test::{failure, server_line, visible, Interval, Sample, MEANINGFUL_BYTES, SECOND};
use crate::test::{between, failure_text, highest, highest_is_highest, lemma_highest_is_there};
use crate::test::{place_text, server_text};
use crate::text::{blanks, decimal_text, joined, left_aligned, right_aligned, run_of, text_of, texts};
use crate::text::{decimal, pad_left, pad_right, spaces};
use crate::ui::{bold, bytes, chart, dim, duration, red, yellow, Accent};
use crate::ui::{bytes_text, chart_row, duration_text, newest, styled, the_newest_end_the_list};
use crate::ui::{bare, bare_texts_show, codes_have_no_letters, figures_are_bare, letter};
use crate::ui::{shown_is_shown, shown_of, shows, styles_do_not_show, texts_show_in_turn};
use crate::ui::{CLEAR_LINE, SHOW_CURSOR};

verus! {

/// The fewest and the most parallel streams, and the usual number.
pub const MIN_STREAMS: u64 = 1;

pub const MAX_STREAMS: u64 = 32;

pub const DEFAULT_STREAMS: u64 = 4;

pub const CHART_HEIGHT: usize = 6;

/// Samples before this many seconds are ramp-up and don't count toward min/max.
pub const WARMUP: usize = 2;

/// What to watch.
#[derive(Clone, Copy, PartialEq, Eq, Structural, Debug)]
pub struct Opts {
    /// Parallel download streams
    pub streams: u64,
    /// Stop after this many seconds instead of running until Ctrl+C or SIGTERM
    pub duration: Option<u64>,
    /// Print JSON Lines: a "start" object, a "sample" each second, then a "summary"
    pub json: bool,
}

/// How a watch tells what it sees.
#[derive(Clone, Copy, PartialEq, Eq, Structural, Debug)]
pub enum Mode {
    /// JSON Lines.
    Json,
    /// A dashboard that is drawn over and over.
    Live,
    /// A line a second.
    Plain,
}

impl Mode {
    /// JSON where it is asked for, else a dashboard on a terminal, else lines.
    pub fn of(opts: &Opts, is_terminal: bool) -> (r: Mode)
        ensures
            r == if opts.json {
                Mode::Json
            } else if is_terminal {
                Mode::Live
            } else {
                Mode::Plain
            },
    {
        if opts.json {
            Mode::Json
        } else if is_terminal {
            Mode::Live
        } else {
            Mode::Plain
        }
    }
}

/// How many servers `streams` streams want: enough that none gets more than its
/// connection cap, up to [`TEST_SERVERS`] for spread.
pub open spec fn servers_wanted(streams: int) -> int {
    let spread = if streams < TEST_SERVERS {
        streams
    } else {
        TEST_SERVERS as int
    };
    let needed = (streams + CONNS_PER_SERVER - 1) / (CONNS_PER_SERVER as int);
    if needed > spread {
        needed
    } else {
        spread
    }
}

/// How many servers to ask for.
pub fn want(streams: usize) -> (r: usize)
    ensures
        r == servers_wanted(streams as int),
{
    let spread: usize = if streams < TEST_SERVERS { streams } else { TEST_SERVERS };
    let needed: usize = streams / CONNS_PER_SERVER + streams % CONNS_PER_SERVER;
    if needed > spread {
        needed
    } else {
        spread
    }
}

/// The address that each of `streams` streams downloads: the servers in turn.
pub fn stream_urls(streams: usize, nearest: &Vec<Ranked>) -> (r: Vec<String>)
    requires
        nearest@.len() > 0,
    ensures
        r@.len() == streams,
        forall|i: int|
            0 <= i < streams ==> (#[trigger] r@[i])@ == nearest@[i % (nearest@.len() as int)].server.url@,
{
    let mut r: Vec<String> = Vec::new();
    let mut i: usize = 0;
    while i < streams
        invariant
            i <= streams,
            nearest@.len() > 0,
            r@.len() == i,
            forall|k: int|
                0 <= k < i ==> (#[trigger] r@[k])@ == nearest@[k % (nearest@.len() as int)].server.url@,
        decreases streams - i,
    {
        r.push(nearest[i % nearest.len()].server.url.to_owned());
        i += 1;
    }
    r
}

/// How many of the first `streams` streams go to server `j` of `count`.
pub open spec fn load(streams: int, count: int, j: int) -> int
    decreases streams,
{
    if streams <= 0 {
        0
    } else {
        load(streams - 1, count, j) + if (streams - 1) % count == j {
            1int
        } else {
            0
        }
    }
}

proof fn lemma_load(streams: int, count: int, j: int)
    requires
        0 <= streams <= 2 * count,
        0 <= j < count,
    ensures
        load(streams, count, j) == (if streams > j {
            1int
        } else {
            0
        }) + (if streams > count + j {
            1int
        } else {
            0
        }),
    decreases streams,
{
    if streams > 0 {
        lemma_load(streams - 1, count, j);
        let x = streams - 1;
        if x < count {
            vstd::arithmetic::div_mod::lemma_small_mod(x as nat, count as nat);
        } else {
            vstd::arithmetic::div_mod::lemma_mod_multiples_vanish(1, x - count, count);
            vstd::arithmetic::div_mod::lemma_small_mod((x - count) as nat, count as nat);
        }
    }
}

/// With as many servers as are wanted, or more, none gets more streams than its
/// connection cap.
pub proof fn no_server_is_overloaded(streams: int, count: int, j: int)
    requires
        0 < streams,
        servers_wanted(streams) <= count,
        0 <= j < count,
    ensures
        load(streams, count, j) <= CONNS_PER_SERVER,
{
    lemma_load(streams, count, j);
}

/// No more servers are wanted than there are streams, and at least one.
pub proof fn wanted_servers_are_used(streams: int)
    requires
        0 < streams,
    ensures
        1 <= servers_wanted(streams) <= streams,
{
}

/// What is told of the connection: who and where, and which mirrors.
pub open spec fn details_text(m: Meta, streams: u64, nearest: Seq<Ranked>) -> Seq<char> {
    let server = server_text(text_of(m.as_organization), place_text(m));
    let via = decimal_text(streams as nat) + " streams via "@ + joined(
        distinct(city_names(nearest)),
        " · "@,
    );
    if server.len() > 0 {
        server + " · "@ + via
    } else {
        via
    }
}

/// The headline of a watch that is not in JSON.
pub fn headline(color: bool, m: &Meta, streams: u64, nearest: &Vec<Ranked>) -> (r: String)
    ensures
        r@ == "  "@ + styled(color, "1"@, "speed watch"@) + "  "@ + styled(
            color,
            "2"@,
            details_text(*m, streams, nearest@),
        ) + "\n"@,
{
    let mut via = decimal(streams);
    via.append(" streams via ");
    via.append(cities(nearest).as_str());
    let server = server_line(m);
    let details = if server.as_str().is_empty() {
        via
    } else {
        let mut d = server;
        d.append(" · ");
        d.append(via.as_str());
        d
    };
    let mut r = "  ".to_owned();
    r.append(bold(color, "speed watch").as_str());
    r.append("  ");
    r.append(dim(color, details.as_str()).as_str());
    r.append("\n");
    r
}

/// The rates after warm-up.
pub open spec fn warmed_up(history: Seq<Reading>) -> Seq<Reading> {
    if history.len() > WARMUP {
        history.skip(WARMUP as int)
    } else {
        seq![]
    }
}

/// The lowest of `ceiling` and the readings.
pub open spec fn lowest(vals: Seq<Reading>, ceiling: Reading) -> Reading
    decreases vals.len(),
{
    if vals.len() == 0 {
        ceiling
    } else {
        lowest(vals.drop_last(), ceiling).min_of(vals.last())
    }
}

/// The rates of a watch, one per second, and the lowest and highest after warm-up.
pub struct Tally {
    pub history: Vec<Reading>,
    pub min: Reading,
    pub max: Reading,
}

impl Tally {
    pub open spec fn wf(&self) -> bool {
        &&& self.min == lowest(warmed_up(self.history@), Reading { key: INFINITY_KEY })
        &&& self.max == highest(warmed_up(self.history@), Reading { key: ZERO_KEY })
    }

    /// The warm-up seconds have passed.
    pub open spec fn settled(&self) -> bool {
        self.history@.len() > WARMUP
    }

    pub fn new() -> (r: Tally)
        ensures
            r.wf(),
            r.history@.len() == 0,
    {
        Tally {
            history: Vec::new(),
            min: Reading { key: INFINITY_KEY },
            max: Reading { key: ZERO_KEY },
        }
    }

    /// Takes in the rate of another second.
    pub fn record(&mut self, mbps: Reading)
        requires
            old(self).wf(),
        ensures
            final(self).wf(),
            final(self).history@ == old(self).history@.push(mbps),
    {
        let ghost before = warmed_up(self.history@);
        self.history.push(mbps);
        if self.history.len() > WARMUP {
            self.min = self.min.smaller(mbps);
            self.max = self.max.larger(mbps);
            proof {
                let now = warmed_up(self.history@);
                assert(now.drop_last() =~= before);
                assert(now.last() == mbps);
            }
        }
    }

    /// Whether the warm-up seconds have passed.
    pub fn is_settled(&self) -> (r: bool)
        ensures
            r == self.settled(),
    {
        self.history.len() > WARMUP
    }

    /// The rates that the average is the mean of: those after warm-up, consistent with
    /// min/max, or all of them as long as there are none.
    pub fn averaged(&self) -> (r: Vec<Reading>)
        ensures
            r@ == if self.settled() {
                warmed_up(self.history@)
            } else {
                self.history@
            },
    {
        let first: usize = if self.history.len() > WARMUP { WARMUP } else { 0 };
        let mut r: Vec<Reading> = Vec::new();
        let mut i: usize = first;
        while i < self.history.len()
            invariant
                first <= i <= self.history@.len(),
                r@ =~= self.history@.subrange(first as int, i as int),
            decreases self.history.len() - i,
        {
            r.push(self.history[i]);
            i += 1;
        }
        proof {
            if self.settled() {
                assert(r@ =~= warmed_up(self.history@));
            } else {
                assert(r@ =~= self.history@);
            }
        }
        r
    }
}

proof fn lemma_lowest(vals: Seq<Reading>, ceiling: Reading)
    requires
        !ceiling.nan(),
    ensures
        !lowest(vals, ceiling).nan(),
        !ceiling.lt(lowest(vals, ceiling)),
        forall|i: int| 0 <= i < vals.len() ==> !(#[trigger] vals[i]).lt(lowest(vals, ceiling)),
    decreases vals.len(),
{
    if vals.len() > 0 {
        lemma_lowest(vals.drop_last(), ceiling);
        assert forall|i: int| 0 <= i < vals.len() implies !(#[trigger] vals[i]).lt(
            lowest(vals, ceiling),
        ) by {
            if i < vals.len() - 1 {
                assert(vals.drop_last()[i] == vals[i]);
            }
        }
    }
}

/// Every rate after warm-up lies between the lowest and the highest.
pub proof fn rates_lie_between(t: Tally, i: int)
    requires
        t.wf(),
        WARMUP <= i < t.history@.len(),
    ensures
        !t.history@[i].lt(t.min),
        !t.max.lt(t.history@[i]),
{
    let w = warmed_up(t.history@);
    assert(w[i - WARMUP] == t.history@[i]);
    lemma_lowest(w, Reading { key: INFINITY_KEY });
    highest_is_highest(w, Reading { key: ZERO_KEY }, i - WARMUP);
}

/// A watch under way. Times are nanoseconds since its start.
pub struct Watch {
    /// Seconds to stop after, if it is to stop by itself.
    pub duration: Option<u64>,
    /// The last counter reading.
    pub previous: Sample,
    pub tally: Tally,
}

impl Watch {
    pub open spec fn wf(&self) -> bool {
        self.tally.wf()
    }

    pub fn new(duration: Option<u64>) -> (r: Watch)
        ensures
            r.wf(),
            r.duration == duration,
            r.previous == (0u64, 0u64),
            r.tally.history@.len() == 0,
    {
        Watch { duration, previous: (0, 0), tally: Tally::new() }
    }

    /// Takes a sample of the counter and says what moved since the last one. The rate
    /// is that over the real elapsed time, not a nominal second.
    pub fn tick(&mut self, now: u64, counted: u64) -> (r: Interval)
        requires
            counted >= old(self).previous.1,
        ensures
            final(self).duration == old(self).duration,
            final(self).previous == (now, counted),
            final(self).tally == old(self).tally,
            r == between(old(self).previous, (now, counted)),
    {
        let r = Interval {
            bytes: counted - self.previous.1,
            nanos: now.saturating_sub(self.previous.0),
        };
        self.previous = (now, counted);
        r
    }

    /// Takes note of the rate of the last second.
    pub fn record(&mut self, mbps: Reading)
        requires
            old(self).wf(),
        ensures
            final(self).wf(),
            final(self).duration == old(self).duration,
            final(self).previous == old(self).previous,
            final(self).tally.history@ == old(self).tally.history@.push(mbps),
    {
        self.tally.record(mbps);
    }

    /// Whether the time is up.
    pub fn is_over(&self, now: u64) -> (r: bool)
        ensures
            r == (self.duration matches Some(d) && now >= d * SECOND),
    {
        match self.duration {
            Some(d) => now as u128 >= d as u128 * SECOND as u128,
            None => false,
        }
    }
}

/// The bytes that moved from each of `samples` to the next, all together.
pub open spec fn moved_in(samples: Seq<Sample>) -> int
    decreases samples.len(),
{
    if samples.len() <= 1 {
        0
    } else {
        moved_in(samples.drop_last()) + between(
            samples[samples.len() - 2],
            samples[samples.len() - 1],
        ).bytes
    }
}

/// No byte is lost or counted twice between the samples of a watch.
pub proof fn intervals_add_up(samples: Seq<Sample>)
    requires
        samples.len() > 0,
        forall|i: int, j: int| 0 <= i <= j < samples.len() ==> samples[i].1 <= samples[j].1,
    ensures
        moved_in(samples) == samples.last().1 - samples[0].1,
    decreases samples.len(),
{
    if samples.len() > 1 {
        let rest = samples.drop_last();
        assert forall|i: int, j: int| 0 <= i <= j < rest.len() implies rest[i].1 <= rest[j].1 by {
            assert(samples[i].1 <= samples[j].1);
        }
        intervals_add_up(rest);
    }
}

/// A rate this low means that nothing is flowing.
pub open spec fn stalled(mbps: Reading) -> bool {
    mbps.lt(Reading { key: TENTH_KEY })
}

/// One second of a watch, as JSON tells it.
pub struct SampleReport {
    pub t: usize,
    pub mbps: Reading,
    pub avg: Option<Reading>,
    pub min: Option<Reading>,
    pub max: Option<Reading>,
    pub bytes: u64,
    pub error: Option<String>,
}

/// `v` once the warm-up seconds have passed.
pub open spec fn once_settled(t: Tally, v: Reading) -> Option<Reading> {
    if t.settled() {
        Some(v)
    } else {
        None
    }
}

/// Reports the last second: average, minimum and maximum are left out until the
/// warm-up seconds have passed, and an error is told only while nothing is flowing.
pub fn sample_report(
    tally: &Tally,
    mbps: Reading,
    avg: Reading,
    counted: u64,
    last_error: Option<String>,
) -> (r: SampleReport)
    ensures
        r.t == tally.history@.len(),
        r.mbps == mbps,
        r.avg == once_settled(*tally, avg),
        r.min == once_settled(*tally, tally.min),
        r.max == once_settled(*tally, tally.max),
        r.bytes == counted,
        r.error == if stalled(mbps) {
            last_error
        } else {
            None
        },
{
    let settled = tally.is_settled();
    SampleReport {
        t: tally.history.len(),
        mbps,
        avg: if settled {
            Some(avg)
        } else {
            None
        },
        min: if settled {
            Some(tally.min)
        } else {
            None
        },
        max: if settled {
            Some(tally.max)
        } else {
            None
        },
        bytes: counted,
        error: if mbps.below(Reading { key: TENTH_KEY }) {
            last_error
        } else {
            None
        },
    }
}

/// A whole watch, as JSON tells it.
pub struct SummaryReport {
    pub avg: Option<Reading>,
    pub min: Option<Reading>,
    pub max: Option<Reading>,
    pub bytes: u64,
    pub error: Option<String>,
}

/// Whether any data got through.
pub fn got_through(counted: u64) -> (r: bool)
    ensures
        r == (counted >= MEANINGFUL_BYTES),
{
    counted >= MEANINGFUL_BYTES
}

/// Reports the whole watch: the average once there is a sample, minimum and maximum
/// once the warm-up seconds have passed, and why nothing got through.
pub fn summary_report(
    tally: &Tally,
    avg: Reading,
    counted: u64,
    last_error: Option<String>,
) -> (r: SummaryReport)
    ensures
        r.avg == if tally.history@.len() > 0 {
            Some(avg)
        } else {
            None
        },
        r.min == once_settled(*tally, tally.min),
        r.max == once_settled(*tally, tally.max),
        r.bytes == counted,
        text_of(r.error) == failure_text(counted, text_of(last_error)),
{
    let settled = tally.is_settled();
    SummaryReport {
        avg: if tally.history.len() > 0 {
            Some(avg)
        } else {
            None
        },
        min: if settled {
            Some(tally.min)
        } else {
            None
        },
        max: if settled {
            Some(tally.max)
        } else {
            None
        },
        bytes: counted,
        error: failure(counted, last_error),
    }
}

/// Average, minimum and maximum in text, as bare numbers or as rates.
pub struct Figures {
    pub avg: String,
    pub min: String,
    pub max: String,
}

/// The line about the last second where there is no terminal.
pub fn plain_line(tally: &Tally, mbps: &str, figures: &Figures) -> (r: String)
    ensures
        r@ == right_aligned(decimal_text(tally.history@.len()), 5) + "s  "@ + right_aligned(mbps@, 7)
            + " Mbps"@ + if tally.settled() {
            "  avg "@ + figures.avg@ + "  min "@ + figures.min@ + "  max "@ + figures.max@
        } else {
            seq![]
        },
{
    let mut r = pad_left(decimal(tally.history.len() as u64).as_str(), 5);
    r.append("s  ");
    r.append(pad_left(mbps, 7).as_str());
    r.append(" Mbps");
    if tally.is_settled() {
        let mut more = "  avg ".to_owned();
        more.append(figures.avg.as_str());
        more.append("  min ");
        more.append(figures.min.as_str());
        more.append("  max ");
        more.append(figures.max.as_str());
        r.append(more.as_str());
    } else {
        proof {
            assert(r@ + Seq::<char>::empty() =~= r@);
        }
    }
    r
}

/// A reading that can be shown: 0 in place of what is infinite or not a number.
pub fn finite(v: Reading) -> (r: Reading)
    ensures
        r == if NEG_INFINITY_KEY < v.key < INFINITY_KEY {
            v
        } else {
            Reading { key: ZERO_KEY }
        },
{
    if NEG_INFINITY_KEY < v.key && v.key < INFINITY_KEY {
        v
    } else {
        Reading { key: ZERO_KEY }
    }
}

/// What ends the live display: the cursor comes back, and the running-stats line goes
/// to make room for the final summary.
pub fn closing(mode: Mode, drawn: usize) -> (r: String)
    ensures
        r@ == if mode == Mode::Live {
            if drawn > 0 {
                SHOW_CURSOR@ + "\x1b[2A\x1b[J"@
            } else {
                SHOW_CURSOR@
            }
        } else {
            seq![]
        },
{
    if mode != Mode::Live {
        return String::new();
    }
    let mut r = SHOW_CURSOR.to_owned();
    if drawn > 0 {
        r.append("\x1b[2A\x1b[J");
    }
    r
}

/// The final summary in text: empty but for the line's end where there is no sample.
pub open spec fn summary_text(
    color: bool,
    samples: nat,
    secs: u64,
    figures: Figures,
    counted: u64,
    error: Option<Seq<char>>,
) -> Seq<char> {
    if samples == 0 {
        "\n"@
    } else {
        "\n  "@ + styled(color, "1"@, duration_text(secs as nat)) + "  avg "@ + styled(
            color,
            Accent::Cyan.bold_code(),
            figures.avg@,
        ) + "   "@ + styled(color, "2"@, "min "@ + figures.min@ + " · max "@ + figures.max@)
            + "   "@ + styled(color, "2"@, bytes_text(counted as nat) + " downloaded"@) + "\n"@ + (
        match error {
            Some(e) => "  "@ + styled(color, "31"@, "failed · "@ + e) + "\n"@,
            None => seq![],
        })
    }
}

/// Writes the final summary; the figures are rates in text.
pub fn summary(
    color: bool,
    tally: &Tally,
    secs: u64,
    figures: &Figures,
    counted: u64,
    last_error: Option<String>,
) -> (r: String)
    ensures
        r@ == summary_text(
            color,
            tally.history@.len(),
            secs,
            *figures,
            counted,
            failure_text(counted, text_of(last_error)),
        ),
{
    if tally.history.len() == 0 {
        return "\n".to_owned();
    }
    let mut range = "min ".to_owned();
    range.append(figures.min.as_str());
    range.append(" · max ");
    range.append(figures.max.as_str());
    let mut used = bytes(counted);
    used.append(" downloaded");
    let mut r = "\n  ".to_owned();
    r.append(bold(color, duration(secs).as_str()).as_str());
    r.append("  avg ");
    r.append(Accent::Cyan.paint_bold(color, figures.avg.as_str()).as_str());
    r.append("   ");
    r.append(dim(color, range.as_str()).as_str());
    r.append("   ");
    r.append(dim(color, used.as_str()).as_str());
    r.append("\n");
    match failure(counted, last_error) {
        Some(e) => {
            let mut reason = "failed · ".to_owned();
            reason.append(e.as_str());
            let mut tail = "  ".to_owned();
            tail.append(red(color, reason.as_str()).as_str());
            tail.append("\n");
            r.append(tail.as_str());
        },
        None => {
            proof {
                assert(r@ + Seq::<char>::empty() =~= r@);
            }
        },
    }
    r
}

/// Whether an axis value is shown in Gbps.
pub open spec fn axis_in_gbps(v: Reading) -> bool {
    v.ge(Reading { key: THOUSAND_KEY })
}

/// Whether to write an axis value in Gbps.
pub fn axis_unit_is_gbps(v: Reading) -> (r: bool)
    ensures
        r == axis_in_gbps(v),
{
    v.at_least(Reading { key: THOUSAND_KEY })
}

/// The label of an axis value: `number` is the value in its unit.
pub fn axis_value(v: Reading, number: &str) -> (r: String)
    ensures
        r@ == if axis_in_gbps(v) {
            number@ + "G"@
        } else {
            number@
        },
{
    let mut r = number.to_owned();
    if axis_unit_is_gbps(v) {
        r.append("G");
    }
    r
}

/// `a - b`, or `least` where that is less.
pub open spec fn room(a: int, b: int, least: int) -> int {
    if a - b < least {
        least
    } else {
        a - b
    }
}

fn room_left(width: usize, a: usize, b: usize, c: usize, least: usize) -> (r: usize)
    ensures
        r == room(width as int, a + b + c, least as int),
{
    let left: usize = width.saturating_sub(a).saturating_sub(b).saturating_sub(c);
    if left < least {
        least
    } else {
        left
    }
}

/// The width to draw in: at least 30 columns.
pub open spec fn frame_width(width: int) -> int {
    room(width, 0, 30)
}

/// The columns of the chart, beside its axis.
pub open spec fn chart_columns(width: int) -> int {
    room(frame_width(width), 10, 10)
}

/// The bytes of a text.
pub open spec fn byte_count(s: Seq<char>) -> usize {
    encode_utf8(s).len() as usize
}

/// How wide the chart is on a terminal of this width.
pub fn chart_width(width: usize) -> (r: usize)
    ensures
        r == chart_columns(width as int),
{
    let frame: usize = room_left(width, 0, 0, 0, 30);
    room_left(frame, 10, 0, 0, 10)
}

/// What the chart shows, and the highest rate in it, which its scale is chosen for.
pub fn charted(tally: &Tally, width: usize) -> (r: (Vec<Reading>, Reading))
    ensures
        r.0@ == newest(tally.history@, chart_columns(width as int) as nat),
        r.1 == highest(
            newest(tally.history@, chart_columns(width as int) as nat),
            Reading { key: ZERO_KEY },
        ),
{
    visible(&tally.history, chart_width(width), Reading { key: ZERO_KEY })
}

/// What a frame of the dashboard shows.
pub struct Frame {
    /// The current rate.
    pub mbps: Reading,
    /// The current rate, in text.
    pub rate: String,
    /// Average, minimum and maximum as rates, in text.
    pub figures: Figures,
    /// Elapsed seconds.
    pub secs: u64,
    pub bytes: u64,
    /// The latest error.
    pub error: Option<String>,
    /// The label of the top of the axis.
    pub axis: String,
    /// The charted rates, in eighths of a row.
    pub eighths: Vec<usize>,
}

/// Current rate, with elapsed time and data used on the right.
pub open spec fn top_line(color: bool, f: Frame, width: int) -> Seq<char> {
    let right = duration_text(f.secs as nat) + " · "@ + bytes_text(f.bytes as nat);
    let gap = room(
        frame_width(width),
        2 + byte_count(f.rate@) + 4 + byte_count(right) + 2,
        2,
    );
    "  "@ + styled(color, Accent::Cyan.bold_code(), f.rate@) + " "@ + styled(color, "2"@, "now"@)
        + blanks(gap as nat) + styled(color, "2"@, right)
}

/// Row `i` of the chart behind its share of the y-axis.
pub open spec fn chart_line(color: bool, f: Frame, width: int, i: int) -> Seq<char> {
    let edge = i == 0 || i == CHART_HEIGHT - 1;
    let label = if i == 0 {
        right_aligned(f.axis@, 5)
    } else if i == CHART_HEIGHT - 1 {
        right_aligned("0"@, 5)
    } else {
        blanks(5)
    };
    "  "@ + styled(
        color,
        "2"@,
        label + if edge {
            "┤"@
        } else {
            "│"@
        },
    ) + " "@ + styled(
        color,
        Accent::Cyan.code(),
        chart_row(f.eighths@, chart_columns(width) as nat, CHART_HEIGHT as nat, i),
    )
}

/// What the chart's rates are in.
pub open spec fn axis_line(color: bool, width: int) -> Seq<char> {
    "  "@ + blanks(6) + styled(
        color,
        "2"@,
        left_aligned("Mbps"@, (chart_columns(width) - 4) as nat),
    )
}

/// The running stats, plain and styled.
pub open spec fn stats_text(color: bool, settled: bool, f: Frame) -> (Seq<char>, Seq<char>) {
    if settled {
        let tail = "   min "@ + f.figures.min@ + "   max "@ + f.figures.max@;
        (
            "avg "@ + f.figures.avg@ + tail,
            "avg "@ + styled(color, "1"@, f.figures.avg@) + tail,
        )
    } else {
        ("warming up…"@, styled(color, "2"@, "warming up…"@))
    }
}

/// A hint, or the latest error while nothing is flowing, plain and styled.
pub open spec fn status_text(color: bool, f: Frame) -> (Seq<char>, Seq<char>) {
    match f.error {
        Some(e) if stalled(f.mbps) => ("⚠ "@ + e@, styled(color, "33"@, "⚠ "@ + e@)),
        _ => ("Ctrl+C to stop"@, styled(color, "2"@, "Ctrl+C to stop"@)),
    }
}

/// Running stats, with the status on the right.
pub open spec fn bottom_line(color: bool, settled: bool, f: Frame, width: int) -> Seq<char> {
    let (plain_stats, stats) = stats_text(color, settled, f);
    let (plain_status, status) = status_text(color, f);
    let gap = room(
        frame_width(width),
        (2 + plain_stats.len() + plain_status.len() + 1) as int,
        3,
    );
    "  "@ + stats + blanks(gap as nat) + status
}

/// The lines of the dashboard.
pub open spec fn frame_lines(color: bool, settled: bool, f: Frame, width: int) -> Seq<Seq<char>> {
    seq![top_line(color, f, width), seq![]] + Seq::new(
        CHART_HEIGHT as nat,
        |i: int| chart_line(color, f, width, i),
    ) + seq![axis_line(color, width), seq![], bottom_line(color, settled, f, width)]
}

/// `lines`, each on a line that is cleared first.
pub open spec fn cleared_lines(lines: Seq<Seq<char>>) -> Seq<char>
    decreases lines.len(),
{
    if lines.len() == 0 {
        seq![]
    } else {
        cleared_lines(lines.drop_last()) + (CLEAR_LINE@ + lines.last() + "\n"@)
    }
}

/// The frame as it is written: over the one before, which took `drawn` lines, with
/// leftovers cleared in case the terminal shrank.
pub open spec fn frame_text(
    color: bool,
    settled: bool,
    f: Frame,
    width: int,
    drawn: nat,
) -> Seq<char> {
    (if drawn > 0 {
        "\x1b["@ + decimal_text(drawn) + "A"@
    } else {
        seq![]
    }) + cleared_lines(frame_lines(color, settled, f, width)) + "\x1b[J"@
}

fn top(color: bool, f: &Frame, width: usize, frame: usize) -> (r: String)
    requires
        frame == frame_width(width as int),
    ensures
        r@ == top_line(color, *f, width as int),
{
    let mut right = duration(f.secs);
    right.append(" · ");
    right.append(bytes(f.bytes).as_str());
    let now_len: usize = f.rate.as_str().len();
    let right_len: usize = right.as_str().len();
    let gap: usize = room_left(frame, 8, now_len, right_len, 2);
    let mut r = "  ".to_owned();
    r.append(Accent::Cyan.paint_bold(color, f.rate.as_str()).as_str());
    r.append(" ");
    r.append(dim(color, "now").as_str());
    r.append(spaces(gap).as_str());
    r.append(dim(color, right.as_str()).as_str());
    r
}

fn chart_part(color: bool, f: &Frame, i: usize, row: &String) -> (r: String)
    requires
        i < CHART_HEIGHT,
    ensures
        forall|width: int|
            row@ == chart_row(
                f.eighths@,
                chart_columns(width) as nat,
                CHART_HEIGHT as nat,
                i as int,
            ) ==> r@ == #[trigger] chart_line(color, *f, width, i as int),
{
    let mut label = if i == 0 {
        pad_left(f.axis.as_str(), 5)
    } else if i == CHART_HEIGHT - 1 {
        pad_left("0", 5)
    } else {
        spaces(5)
    };
    if i == 0 || i == CHART_HEIGHT - 1 {
        label.append("┤");
    } else {
        label.append("│");
    }
    let mut r = "  ".to_owned();
    r.append(dim(color, label.as_str()).as_str());
    r.append(" ");
    r.append(Accent::Cyan.paint(color, row.as_str()).as_str());
    r
}

fn bottom(color: bool, settled: bool, f: &Frame, width: usize, frame: usize) -> (r: String)
    requires
        frame == frame_width(width as int),
    ensures
        r@ == bottom_line(color, settled, *f, width as int),
{
    let mut stats = "avg ".to_owned();
    let mut plain = "avg ".to_owned();
    if settled {
        let mut tail = "   min ".to_owned();
        tail.append(f.figures.min.as_str());
        tail.append("   max ");
        tail.append(f.figures.max.as_str());
        plain.append(f.figures.avg.as_str());
        plain.append(tail.as_str());
        stats.append(bold(color, f.figures.avg.as_str()).as_str());
        stats.append(tail.as_str());
    } else {
        plain = "warming up…".to_owned();
        stats = dim(color, "warming up…");
    }
    let mut hint = "Ctrl+C to stop".to_owned();
    let mut status = dim(color, "Ctrl+C to stop");
    if f.mbps.below(Reading { key: TENTH_KEY }) {
        if let Some(e) = &f.error {
            hint = "⚠ ".to_owned();
            hint.append(e.as_str());
            status = yellow(color, hint.as_str());
        }
    }
    let stats_len: usize = plain.as_str().unicode_len();
    let status_len: usize = hint.as_str().unicode_len();
    let gap: usize = room_left(frame, 3, stats_len, status_len, 3);
    let mut r = "  ".to_owned();
    r.append(stats.as_str());
    r.append(spaces(gap).as_str());
    r.append(status.as_str());
    r
}

/// Draws the dashboard over the frame before it, which took `drawn` lines; says how
/// many lines it takes itself.
pub fn draw(color: bool, tally: &Tally, f: &Frame, width: usize, drawn: usize) -> (r: (
    String,
    usize,
))
    ensures
        r.0@ == frame_text(color, tally.settled(), *f, width as int, drawn as nat),
        r.1 == frame_lines(color, tally.settled(), *f, width as int).len(),
{
    let ghost want = frame_lines(color, tally.settled(), *f, width as int);
    let frame: usize = room_left(width, 0, 0, 0, 30);
    let columns: usize = chart_width(width);
    let mut lines: Vec<String> = Vec::new();
    lines.push(top(color, f, width, frame));
    lines.push(String::new());
    let rows = chart(&f.eighths, columns, CHART_HEIGHT);
    let mut i: usize = 0;
    proof {
        assert(texts(lines@) =~= want.take(2));
    }
    while i < CHART_HEIGHT
        invariant
            i <= CHART_HEIGHT,
            rows@.len() == CHART_HEIGHT,
            columns == chart_columns(width as int),
            want == frame_lines(color, tally.settled(), *f, width as int),
            forall|k: int|
                0 <= k < CHART_HEIGHT ==> (#[trigger] rows@[k])@ == chart_row(
                    f.eighths@,
                    columns as nat,
                    CHART_HEIGHT as nat,
                    k,
                ),
            texts(lines@) == want.take(2 + i),
        decreases CHART_HEIGHT - i,
    {
        let ghost before = texts(lines@);
        let line = chart_part(color, f, i, &rows[i]);
        proof {
            assert(rows@[i as int]@ == chart_row(
                f.eighths@,
                chart_columns(width as int) as nat,
                CHART_HEIGHT as nat,
                i as int,
            ));
            assert(line@ == chart_line(color, *f, width as int, i as int));
            assert(want[2 + i] == chart_line(color, *f, width as int, i as int));
        }
        lines.push(line);
        proof {
            assert(texts(lines@) =~= before.push(want[2 + i]));
            assert(texts(lines@) =~= want.take(2 + i + 1));
        }
        i += 1;
    }
    let mut axis = "  ".to_owned();
    axis.append(spaces(6).as_str());
    axis.append(dim(color, pad_right("Mbps", columns - 4).as_str()).as_str());
    lines.push(axis);
    lines.push(String::new());
    lines.push(bottom(color, tally.is_settled(), f, width, frame));
    proof {
        assert(texts(lines@) =~= want.take(2 + CHART_HEIGHT) + want.skip(2 + CHART_HEIGHT));
        assert(texts(lines@) =~= want);
    }
    let mut r = String::new();
    if drawn > 0 {
        r = "\x1b[".to_owned();
        r.append(decimal(drawn as u64).as_str());
        r.append("A");
    }
    let body = clear_lines(&lines);
    r.append(body.as_str());
    r.append("\x1b[J");
    (r, lines.len())
}

fn clear_lines(lines: &Vec<String>) -> (r: String)
    ensures
        r@ == cleared_lines(texts(lines@)),
{
    let mut r = String::new();
    let mut i: usize = 0;
    proof {
        assert(r@ =~= cleared_lines(texts(lines@).take(0)));
    }
    while i < lines.len()
        invariant
            i <= lines@.len(),
            r@ == cleared_lines(texts(lines@).take(i as int)),
        decreases lines.len() - i,
    {
        proof {
            let next = texts(lines@).take(i + 1);
            assert(next.drop_last() =~= texts(lines@).take(i as int));
            assert(next.last() == lines@[i as int]@);
        }
        let mut line = CLEAR_LINE.to_owned();
        line.append(lines[i].as_str());
        line.append("\n");
        r.append(line.as_str());
        i += 1;
    }
    proof {
        assert(texts(lines@).take(i as int) =~= texts(lines@));
    }
    r
}

/// The dashboard always takes 11 lines.
pub proof fn dashboard_height(color: bool, settled: bool, f: Frame, width: int)
    ensures
        frame_lines(color, settled, f, width).len() == 11,
{
}

/// The servers that are wanted are the fewest that carry all streams, two each, and that
/// are as many as the streams, up to five.
pub proof fn no_fewer_servers_do(streams: usize, r: usize)
    requires
        call_ensures(want, (streams,), r),
        streams > 0,
    ensures
        2 * r >= streams,
        r >= streams || r >= 5,
        2 * (r - 1) < streams || (r - 1 < streams && r - 1 < 5),
        r <= streams,
{
}

/// Where as many servers are at hand as are wanted, no three streams download from the
/// same one.
pub proof fn no_three_streams_share_a_server(
    streams: usize,
    wanted: usize,
    nearest: Vec<Ranked>,
    r: Vec<String>,
    i: int,
    j: int,
    k: int,
)
    requires
        call_ensures(want, (streams,), wanted),
        nearest@.len() >= wanted,
        nearest@.len() > 0,
        call_ensures(stream_urls, (streams, &nearest), r),
        forall|a: int, b: int|
            0 <= a < b < nearest@.len() ==> nearest@[a].server.url@ != nearest@[b].server.url@,
        0 <= i < j < k < streams,
    ensures
        r@.len() == streams,
        !(r@[i]@ == r@[j]@ && r@[j]@ == r@[k]@),
        j - i == nearest@.len() <==> r@[i]@ == r@[j]@,
{
    let n = nearest@.len() as int;
    lemma_turn(i, n);
    lemma_turn(j, n);
    lemma_turn(k, n);
    let (a, b, c) = (i % n, j % n, k % n);
    if a != b {
        if a < b {
            assert(nearest@[a].server.url@ != nearest@[b].server.url@);
        } else {
            assert(nearest@[b].server.url@ != nearest@[a].server.url@);
        }
    }
    if b != c {
        if b < c {
            assert(nearest@[b].server.url@ != nearest@[c].server.url@);
        } else {
            assert(nearest@[c].server.url@ != nearest@[b].server.url@);
        }
    }
}

proof fn lemma_turn(x: int, n: int)
    requires
        0 <= x < 2 * n,
    ensures
        x % n == if x < n {
            x
        } else {
            x - n
        },
{
    if x < n {
        vstd::arithmetic::div_mod::lemma_small_mod(x as nat, n as nat);
    } else {
        vstd::arithmetic::div_mod::lemma_mod_multiples_vanish(1, x - n, n);
        vstd::arithmetic::div_mod::lemma_small_mod((x - n) as nat, n as nat);
    }
}

/// The headline tells who and where, if that is known, then how many streams there are
/// and through which cities.
pub proof fn headlines_tell_the_connection(
    m: Meta,
    streams: u64,
    nearest: Vec<Ranked>,
    r: String,
    server: String,
    via: String,
    count: String,
)
    requires
        call_ensures(headline, (false, &m, streams, &nearest), r),
        call_ensures(server_line, (&m,), server),
        call_ensures(cities, (&nearest,), via),
        call_ensures(decimal, (streams,), count),
    ensures
        ({
            let streaming = count@ + " streams via "@ + via@;
            r@ == "  "@ + "speed watch"@ + "  "@ + (if server@.len() > 0 {
                server@ + " · "@ + streaming
            } else {
                streaming
            }) + "\n"@
        }),
{
}

proof fn lemma_lowest_is_there(vals: Seq<Reading>, ceiling: Reading)
    ensures
        lowest(vals, ceiling) == ceiling || vals.contains(lowest(vals, ceiling)),
    decreases vals.len(),
{
    if vals.len() > 0 {
        let rest = vals.drop_last();
        lemma_lowest_is_there(rest, ceiling);
        let l = lowest(rest, ceiling);
        if lowest(vals, ceiling) == vals.last() {
            assert(vals[vals.len() - 1] == vals.last());
        } else if l != ceiling {
            let k = rest.index_of(l);
            assert(vals[k] == l);
        }
    }
}

/// Once the first two seconds have passed, the lowest and the highest rate are rates that
/// were measured after them, and no rate after them is below the one or above the other.
/// Before that, and of what is not a number, there is no lowest and no highest.
pub proof fn extremes_come_after_warm_up(t: Tally)
    requires
        t.wf(),
    ensures
        forall|i: int|
            2 <= i < t.history@.len() ==> !(#[trigger] t.history@[i]).lt(t.min) && !t.max.lt(
                t.history@[i],
            ),
        t.min.key == 0x7FF0_0000_0000_0000 || exists|i: int|
            2 <= i < t.history@.len() && #[trigger] t.history@[i] == t.min,
        t.max.key == 0 || exists|i: int|
            2 <= i < t.history@.len() && #[trigger] t.history@[i] == t.max,
        t.history@.len() <= 2 ==> t.min.key == 0x7FF0_0000_0000_0000 && t.max.key == 0,
{
    let w = warmed_up(t.history@);
    assert forall|i: int| 2 <= i < t.history@.len() implies !(#[trigger] t.history@[i]).lt(t.min)
        && !t.max.lt(t.history@[i]) by {
        rates_lie_between(t, i);
    }
    lemma_lowest_is_there(w, Reading { key: INFINITY_KEY });
    lemma_highest_is_there(w, Reading { key: ZERO_KEY });
    if w.contains(t.min) {
        let k = w.index_of(t.min);
        assert(t.history@[k + 2] == t.min);
    }
    if w.contains(t.max) {
        let k = w.index_of(t.max);
        assert(t.history@[k + 2] == t.max);
    }
}

/// A new tally is empty, and each second adds its rate to it.
pub proof fn tallies_keep_every_rate(start: Tally, mbps: Reading)
    requires
        call_ensures(Tally::new, (), start),
    ensures
        start.wf(),
        start.history@.len() == 0,
        forall|t: &mut Tally| #[trigger]
            call_ensures(Tally::record, (t, mbps), ()) ==> final(t).wf() && final(t).history@
                == t.history@.push(mbps),
{
}

/// The average is over every rate after the first two, and over all of them as long as
/// there are no more.
pub proof fn averages_leave_out_the_warm_up(t: Tally, r: Vec<Reading>, settled: bool)
    requires
        call_ensures(Tally::averaged, (&t,), r),
        call_ensures(Tally::is_settled, (&t,), settled),
    ensures
        settled <==> t.history@.len() > 2,
        settled ==> r@.len() == t.history@.len() - 2 && forall|i: int|
            0 <= i < r@.len() ==> #[trigger] r@[i] == t.history@[i + 2],
        !settled ==> r@ == t.history@,
{
}

/// What moved is what the counter grew by since the sample before, over the time since
/// then.
pub proof fn rates_are_over_the_real_time(now: u64, counted: u64)
    ensures
        forall|w: &mut Watch, i: Interval| #[trigger]
            call_ensures(Watch::tick, (w, now, counted), i) && counted >= w.previous.1 && now
                >= w.previous.0 ==> {
                &&& i.bytes == counted - w.previous.1
                &&& i.nanos == now - w.previous.0
                &&& final(w).previous == (now, counted)
                &&& final(w).tally == w.tally
                &&& final(w).duration == w.duration
            },
{
}

/// A watch counts from nothing at its start, records every rate, and is over once its
/// seconds have passed, if it has any.
pub proof fn watches_run_their_seconds(duration: Option<u64>, start: Watch, w: Watch, now: u64, over: bool, mbps: Reading)
    requires
        call_ensures(Watch::new, (duration,), start),
        call_ensures(Watch::is_over, (&w, now), over),
    ensures
        start.previous == (0u64, 0u64) && start.duration == duration
            && start.tally.history@.len() == 0 && start.wf(),
        over <==> (w.duration matches Some(d) && now >= d * 1_000_000_000),
        forall|x: &mut Watch| #[trigger]
            call_ensures(Watch::record, (x, mbps), ()) ==> final(x).tally.history@
                == x.tally.history@.push(mbps) && final(x).duration == x.duration
                && final(x).previous == x.previous,
{
}

/// A sample tells its second, its rate and the counter; average, lowest and highest from
/// the third second on; and an error only while the rate is below 0.1 Mbps.
pub proof fn samples_tell_what_is_settled(
    t: Tally,
    mbps: Reading,
    avg: Reading,
    counted: u64,
    last_error: Option<String>,
    r: SampleReport,
)
    requires
        call_ensures(sample_report, (&t, mbps, avg, counted, last_error), r),
    ensures
        r.t == t.history@.len(),
        r.mbps == mbps,
        r.bytes == counted,
        t.history@.len() <= 2 ==> r.avg is None && r.min is None && r.max is None,
        t.history@.len() > 2 ==> r.avg == Some(avg) && r.min == Some(t.min) && r.max == Some(t.max),
        -0x7FF0_0000_0000_0001 <= mbps.key < 0x3FB9_9999_9999_999A ==> r.error == last_error,
        mbps.key >= 0x3FB9_9999_9999_999A ==> r.error is None,
{
}

/// A summary tells the average as soon as there is a sample, lowest and highest from the
/// third on, and why less than 1 MB moved.
pub proof fn summaries_tell_what_is_settled(
    t: Tally,
    avg: Reading,
    counted: u64,
    last_error: Option<String>,
    r: SummaryReport,
    ok: bool,
)
    requires
        call_ensures(summary_report, (&t, avg, counted, last_error), r),
        call_ensures(got_through, (counted,), ok),
    ensures
        r.bytes == counted,
        r.avg == if t.history@.len() > 0 {
            Some(avg)
        } else {
            None
        },
        t.history@.len() <= 2 ==> r.min is None && r.max is None,
        t.history@.len() > 2 ==> r.min == Some(t.min) && r.max == Some(t.max),
        ok <==> counted >= 1_000_000,
        ok <==> r.error is None,
        r.error matches Some(e) ==> e@ == match last_error {
            Some(x) => x@,
            None => "no data transferred"@,
        },
{
}

/// What can be shown stays; what is infinite or not a number becomes 0.
pub proof fn only_finite_rates_are_shown(v: Reading, r: Reading)
    requires
        call_ensures(finite, (v,), r),
    ensures
        -0x7FF0_0000_0000_0001 < v.key < 0x7FF0_0000_0000_0000 ==> r == v,
        !(-0x7FF0_0000_0000_0001 < v.key < 0x7FF0_0000_0000_0000) ==> r.key == 0,
{
}

/// The axis is labelled in Gbps from 1000 Mbps on.
pub proof fn axes_go_by_thousands(v: Reading, number: &str, gbps: bool, r: String)
    requires
        call_ensures(axis_unit_is_gbps, (v,), gbps),
        call_ensures(axis_value, (v, number), r),
    ensures
        gbps <==> 0x408F_4000_0000_0000 <= v.key <= 0x7FF0_0000_0000_0000,
        r@ == number@ + if gbps {
            "G"@
        } else {
            seq![]
        },
{
    assert(number@ + Seq::<char>::empty() =~= number@);
}

/// The chart leaves ten columns to its axis, on at least 30. It shows the newest rates: the
/// one `k` from its end is the one `k` from the end of the history, so it moves on with
/// every second. None of them is above its peak, which is one of them or 0.
pub proof fn charts_move_on(t: Tally, width: usize, columns: usize, r: (Vec<Reading>, Reading))
    requires
        call_ensures(chart_width, (width,), columns),
        call_ensures(charted, (&t, width), r),
    ensures
        columns == if width < 30 {
            20
        } else {
            width - 10
        },
        r.0@.len() == if t.history@.len() < columns {
            t.history@.len()
        } else {
            columns as nat
        },
        forall|k: int|
            0 <= k < r.0@.len() ==> #[trigger] r.0@[r.0@.len() - 1 - k]
                == t.history@[t.history@.len() - 1 - k],
        forall|k: int| 0 <= k < r.0@.len() ==> !r.1.lt(#[trigger] r.0@[k]),
        r.1.key == 0 || r.0@.contains(r.1),
{
    let floor = Reading { key: ZERO_KEY };
    assert forall|k: int| 0 <= k < r.0@.len() implies #[trigger] r.0@[r.0@.len() - 1 - k]
        == t.history@[t.history@.len() - 1 - k] by {
        the_newest_end_the_list(t.history@, columns as nat, k);
    }
    lemma_highest_is_there(r.0@, floor);
    assert forall|k: int| 0 <= k < r.0@.len() implies !r.1.lt(#[trigger] r.0@[k]) by {
        highest_is_highest(r.0@, floor, k);
    }
}

/// A plain line tells the second and its rate, and from the third on average, lowest and
/// highest behind it.
pub proof fn plain_lines_tell_the_second(
    t: Tally,
    mbps: &str,
    f: Figures,
    r: String,
    rate: String,
    count: String,
)
    requires
        call_ensures(plain_line, (&t, mbps, &f), r),
        call_ensures(decimal, (t.history@.len() as u64,), count),
        t.history@.len() <= u64::MAX,
        call_ensures(pad_left, (mbps, 7usize), rate),
    ensures
        ({
            let line = right_aligned(count@, 5) + "s  "@ + rate@ + " Mbps"@;
            &&& t.history@.len() <= 2 ==> r@ == line
            &&& t.history@.len() > 2 ==> r@ == line + ("  avg "@ + f.avg@ + "  min "@ + f.min@
                + "  max "@ + f.max@)
        }),
{
    let line = right_aligned(count@, 5) + "s  "@ + rate@ + " Mbps"@;
    assert(line + Seq::<char>::empty() =~= line);
}

/// The final summary tells time, average, range and data used in one line, behind which
/// stands only why less than 1 MB moved; without a sample it is an empty line.
pub proof fn summaries_tell_the_watch(
    t: Tally,
    secs: u64,
    f: Figures,
    counted: u64,
    last_error: Option<String>,
    r: String,
    time: String,
    size: String,
)
    requires
        call_ensures(summary, (false, &t, secs, &f, counted, last_error), r),
        call_ensures(duration, (secs,), time),
        call_ensures(bytes, (counted,), size),
    ensures
        t.history@.len() == 0 ==> r@ == "\n"@,
        t.history@.len() > 0 ==> ({
            let line = "\n  "@ + time@ + "  avg "@ + f.avg@ + "   "@ + ("min "@ + f.min@ + " · max "@
                + f.max@) + "   "@ + (size@ + " downloaded"@) + "\n"@;
            &&& counted >= 1_000_000 ==> r@ == line
            &&& counted < 1_000_000 ==> r@ == line + ("  "@ + ("failed · "@ + match last_error {
                Some(e) => e@,
                None => "no data transferred"@,
            }) + "\n"@)
        }),
{
    if t.history@.len() > 0 {
        let line = "\n  "@ + time@ + "  avg "@ + f.avg@ + "   "@ + ("min "@ + f.min@ + " · max "@
            + f.max@) + "   "@ + (size@ + " downloaded"@) + "\n"@;
        assert(line + Seq::<char>::empty() =~= line);
    }
}

proof fn lemma_cleared_parts(a: Seq<Seq<char>>, b: Seq<Seq<char>>)
    ensures
        cleared_lines(a + b) == cleared_lines(a) + cleared_lines(b),
    decreases b.len(),
{
    if b.len() == 0 {
        assert(a + b =~= a);
        assert(cleared_lines(a) + cleared_lines(b) =~= cleared_lines(a));
    } else {
        lemma_cleared_parts(a, b.drop_last());
        assert((a + b).drop_last() =~= a + b.drop_last());
        assert((a + b).last() == b.last());
        assert(cleared_lines(a + b) =~= cleared_lines(a) + cleared_lines(b));
    }
}

/// Lines one behind the other are written one behind the other, each on a line that is
/// cleared first.
pub proof fn lines_are_cleared_first(a: Seq<Seq<char>>, b: Seq<Seq<char>>, line: Seq<char>)
    ensures
        cleared_lines(a + b) == cleared_lines(a) + cleared_lines(b),
        cleared_lines(seq![line]) == "\r\x1b[2K"@ + line + "\n"@,
        cleared_lines(Seq::<Seq<char>>::empty()).len() == 0,
{
    lemma_cleared_parts(a, b);
    reveal_with_fuel(cleared_lines, 2);
    assert(seq![line].drop_last() =~= Seq::<Seq<char>>::empty());
    assert(cleared_lines(seq![line]) =~= "\r\x1b[2K"@ + line + "\n"@);
}

/// The dashboard goes up by the lines of the one before, if there was one, and clears
/// what is left below itself.
pub proof fn dashboards_replace_each_other(
    color: bool,
    t: Tally,
    f: Frame,
    width: usize,
    drawn: usize,
    first: (String, usize),
    next: (String, usize),
    count: String,
)
    requires
        call_ensures(draw, (color, &t, &f, width, 0usize), first),
        call_ensures(draw, (color, &t, &f, width, drawn), next),
        call_ensures(decimal, (drawn as u64,), count),
        drawn > 0,
    ensures
        next.0@ == "\x1b["@ + count@ + "A"@ + first.0@,
        next.1 == 11 && first.1 == 11,
        first.0@.skip(first.0@.len() - 3) == "\x1b[J"@,
{
    reveal_strlit("\x1b[J");
    let lines = frame_lines(color, t.settled(), f, width as int);
    assert(first.0@ =~= cleared_lines(lines) + "\x1b[J"@);
    assert(next.0@ =~= "\x1b["@ + count@ + "A"@ + first.0@);
    assert(first.0@.skip(first.0@.len() - 3) =~= "\x1b[J"@);
}

/// The dashboard is the rate on top, the chart behind its axis, and the stats below, with
/// an empty line behind the first and before the last.
pub proof fn dashboards_are_laid_out(
    t: Tally,
    f: Frame,
    width: usize,
    r: (String, usize),
    columns: usize,
    rows: Vec<String>,
    lines: Seq<Seq<char>>,
    i: int,
)
    requires
        call_ensures(draw, (false, &t, &f, width, 0usize), r),
        call_ensures(chart_width, (width,), columns),
        call_ensures(chart, (&f.eighths, columns, 6usize), rows),
        lines == frame_lines(false, t.settled(), f, width as int),
        0 <= i < 6,
        f.axis@.len() <= 5,
    ensures
        r.0@ == cleared_lines(lines) + "\x1b[J"@,
        lines.len() == 11,
        lines[1].len() == 0 && lines[9].len() == 0,
        lines[2 + i].len() == 9 + columns,
        lines[2 + i].skip(9) == rows@[i]@,
        lines[2 + i][7] == if i == 0 || i == 5 {
            '┤'
        } else {
            '│'
        },
        lines[2].subrange(7 - f.axis@.len(), 7) == f.axis@,
        lines[7][6] == '0',
        0 < i < 5 ==> lines[2 + i].take(7) == run_of(' ', 7),
        lines[8].take(12) == run_of(' ', 8) + "Mbps"@,
{
    reveal_strlit("  ");
    reveal_strlit(" ");
    reveal_strlit("0");
    reveal_strlit("┤");
    reveal_strlit("│");
    reveal_strlit("Mbps");
    assert(rows@[i]@ == chart_row(f.eighths@, columns as nat, 6, i));
    assert(lines[2 + i] == chart_line(false, f, width as int, i));
    assert(lines[2] == chart_line(false, f, width as int, 0));
    assert(lines[7] == chart_line(false, f, width as int, 5));
    assert(lines[2 + i].skip(9) =~= rows@[i]@);
    assert(lines[2].subrange(7 - f.axis@.len(), 7) =~= f.axis@);
    if 0 < i < 5 {
        assert(lines[2 + i].take(7) =~= run_of(' ', 7));
    }
    assert(lines[8] == axis_line(false, width as int));
    assert(lines[8].take(12) =~= run_of(' ', 8) + "Mbps"@);
    assert(r.0@ =~= cleared_lines(lines) + "\x1b[J"@);
}

/// `s` starts with `head` and ends in `tail`, with only blanks between, at least `least`.
pub open spec fn apart(s: Seq<char>, head: Seq<char>, tail: Seq<char>, least: int) -> bool {
    let gap = s.len() - head.len() - tail.len();
    &&& gap >= least
    &&& s.take(head.len() as int) == head
    &&& s.skip(s.len() - tail.len()) == tail
    &&& forall|i: int| head.len() <= i < head.len() + gap ==> #[trigger] s[i] == ' '
}

/// On top stand the rate and, on the right, time and data used; below, the stats once they
/// are settled and, on the right, the error while nothing is flowing, else the hint. Where
/// there is room the bottom line ends one column before the edge.
pub proof fn dashboards_tell_the_watch(
    t: Tally,
    f: Frame,
    width: usize,
    lines: Seq<Seq<char>>,
    time: String,
    size: String,
)
    requires
        call_ensures(duration, (f.secs,), time),
        call_ensures(bytes, (f.bytes,), size),
        lines == frame_lines(false, t.settled(), f, width as int),
    ensures
        apart(lines[0], "  "@ + f.rate@ + " "@ + "now"@, time@ + " · "@ + size@, 2),
        ({
            let stats = if t.history@.len() > 2 {
                "avg "@ + f.figures.avg@ + ("   min "@ + f.figures.min@ + "   max "@ + f.figures.max@)
            } else {
                "warming up…"@
            };
            let status = match f.error {
                Some(e) => if -0x7FF0_0000_0000_0001 <= f.mbps.key < 0x3FB9_9999_9999_999A {
                    "⚠ "@ + e@
                } else {
                    "Ctrl+C to stop"@
                },
                None => "Ctrl+C to stop"@,
            };
            let edge: int = if width < 30 {
                30
            } else {
                width as int
            };
            &&& apart(lines[10], "  "@ + stats, status, 3)
            &&& lines[10].len() == if 2 + stats.len() + 3 + status.len() <= edge - 1 {
                edge - 1
            } else {
                (2 + stats.len() + 3 + status.len()) as int
            }
        }),
{
    reveal_strlit("  ");
    let top = lines[0];
    let head = "  "@ + f.rate@ + " "@ + "now"@;
    let right = time@ + " · "@ + size@;
    assert(top == top_line(false, f, width as int));
    assert(top.take(head.len() as int) =~= head);
    assert(top.skip(top.len() - right.len()) =~= right);
    let bottom = lines[10];
    assert(bottom == bottom_line(false, t.settled(), f, width as int));
    let (stats, _) = stats_text(false, t.settled(), f);
    let (status, _) = status_text(false, f);
    assert(bottom.take((2 + stats.len()) as int) =~= "  "@ + stats);
    assert(bottom.skip(bottom.len() - status.len()) =~= status);
}

/// The top line leaves two columns behind the time and the data used, counted in bytes,
/// or two blanks before them where there is no room.
pub proof fn top_lines_fill_the_width(f: Frame, width: usize, settled: bool, time: String, size: String)
    requires
        call_ensures(duration, (f.secs,), time),
        call_ensures(bytes, (f.bytes,), size),
    ensures
        ({
            let right = time@ + " · "@ + size@;
            let used = encode_utf8(f.rate@).len() as usize + encode_utf8(right).len() as usize;
            let edge: int = if width < 30 {
                30
            } else {
                width as int
            };
            let gap = frame_lines(false, settled, f, width as int)[0].len() - (2 + f.rate@.len() + 4)
                - right.len();
            gap == if 2 + used + 4 + 2 + 2 <= edge {
                edge - (2 + used + 4 + 2)
            } else {
                2
            }
        }),
{
    reveal_strlit("  ");
    reveal_strlit(" ");
    reveal_strlit("now");
}

/// A live display gives the cursor back at the end and makes room for the summary where
/// something was drawn; other displays leave nothing behind.
pub proof fn displays_are_closed(mode: Mode, drawn: usize, r: String)
    requires
        call_ensures(closing, (mode, drawn), r),
    ensures
        mode != Mode::Live ==> r@.len() == 0,
        mode == Mode::Live && drawn == 0 ==> r@ == "\x1b[?25h"@,
        mode == Mode::Live && drawn > 0 ==> r@ == "\x1b[?25h"@ + "\x1b[2A\x1b[J"@,
{
}

proof fn lemma_styled_between(
    color: bool,
    head: Seq<char>,
    code: Seq<char>,
    text: Seq<char>,
    h: Seq<char>,
)
    requires
        shows(head, h),
        forall|i: int| 0 <= i < code.len() ==> !letter(#[trigger] code[i]),
        bare(text),
    ensures
        shows(head + styled(color, code, text), h + text),
{
    styles_do_not_show(color, code, text);
    texts_show_in_turn(head, h, styled(color, code, text), text);
}

proof fn lemma_bare_behind(head: Seq<char>, text: Seq<char>, h: Seq<char>)
    requires
        shows(head, h),
        bare(text),
    ensures
        shows(head + text, h + text),
{
    bare_texts_show(text);
    texts_show_in_turn(head, h, text, text);
}

/// A colored headline shows as the plain one.
pub proof fn colored_headlines_show_the_same(
    m: Meta,
    streams: u64,
    nearest: Vec<Ranked>,
    colored: String,
    plain: String,
)
    requires
        call_ensures(headline, (true, &m, streams, &nearest), colored),
        call_ensures(headline, (false, &m, streams, &nearest), plain),
        bare(details_text(m, streams, nearest@)),
    ensures
        shown_of(colored@) == plain@,
{
    reveal_strlit("  ");
    reveal_strlit("\n");
    reveal_strlit("speed watch");
    codes_have_no_letters(Accent::Cyan);
    let told = details_text(m, streams, nearest@);
    let name = styled(true, "1"@, "speed watch"@);
    let plain_name = "speed watch"@;
    bare_texts_show("  "@);
    lemma_styled_between(true, "  "@, "1"@, plain_name, "  "@);
    lemma_bare_behind("  "@ + name, "  "@, "  "@ + plain_name);
    lemma_styled_between(true, "  "@ + name + "  "@, "2"@, told, "  "@ + plain_name + "  "@);
    lemma_bare_behind(
        "  "@ + name + "  "@ + styled(true, "2"@, told),
        "\n"@,
        "  "@ + plain_name + "  "@ + told,
    );
    shown_is_shown(colored@, plain@);
}

/// A colored summary shows as the plain one.
pub proof fn colored_summaries_show_the_same(
    t: Tally,
    secs: u64,
    f: Figures,
    counted: u64,
    last_error: Option<String>,
    colored: String,
    plain: String,
)
    requires
        call_ensures(summary, (true, &t, secs, &f, counted, last_error), colored),
        call_ensures(summary, (false, &t, secs, &f, counted, last_error), plain),
        bare(f.avg@),
        bare(f.min@),
        bare(f.max@),
        last_error matches Some(e) ==> bare(e@),
    ensures
        shown_of(colored@) == plain@,
{
    reveal_strlit("\n");
    reveal_strlit("\n  ");
    reveal_strlit("  ");
    reveal_strlit("  avg ");
    reveal_strlit("   ");
    reveal_strlit("min ");
    reveal_strlit(" · max ");
    reveal_strlit(" downloaded");
    reveal_strlit("failed · ");
    reveal_strlit("no data transferred");
    codes_have_no_letters(Accent::Cyan);
    figures_are_bare(secs as nat);
    figures_are_bare(counted as nat);
    bare_texts_show("\n"@);
    bare_texts_show("\n  "@);
    bare_texts_show("  "@);
    let time = duration_text(secs as nat);
    let range = "min "@ + f.min@ + " · max "@ + f.max@;
    let used = bytes_text(counted as nat) + " downloaded"@;
    let accent = Accent::Cyan.bold_code();
    lemma_styled_between(true, "\n  "@, "1"@, time, "\n  "@);
    let (a, x) = ("\n  "@ + styled(true, "1"@, time), "\n  "@ + time);
    lemma_bare_behind(a, "  avg "@, x);
    lemma_styled_between(true, a + "  avg "@, accent, f.avg@, x + "  avg "@);
    let (b, y) = (a + "  avg "@ + styled(true, accent, f.avg@), x + "  avg "@ + f.avg@);
    lemma_bare_behind(b, "   "@, y);
    lemma_styled_between(true, b + "   "@, "2"@, range, y + "   "@);
    let (c, z) = (b + "   "@ + styled(true, "2"@, range), y + "   "@ + range);
    lemma_bare_behind(c, "   "@, z);
    lemma_styled_between(true, c + "   "@, "2"@, used, z + "   "@);
    let (d, w) = (c + "   "@ + styled(true, "2"@, used), z + "   "@ + used);
    lemma_bare_behind(d, "\n"@, w);
    let error = failure_text(counted, text_of(last_error));
    match error {
        Some(e) => {
            let why = "failed · "@ + e;
            lemma_styled_between(true, "  "@, "31"@, why, "  "@);
            lemma_bare_behind("  "@ + styled(true, "31"@, why), "\n"@, "  "@ + why);
            texts_show_in_turn(
                d + "\n"@,
                w + "\n"@,
                "  "@ + styled(true, "31"@, why) + "\n"@,
                "  "@ + why + "\n"@,
            );
        },
        None => {
            assert(d + "\n"@ + Seq::<char>::empty() =~= d + "\n"@);
            assert(w + "\n"@ + Seq::<char>::empty() =~= w + "\n"@);
        },
    }
    shown_is_shown(colored@, plain@);
}

proof fn lemma_top_shows(f: Frame, width: int)
    requires
        bare(f.rate@),
    ensures
        shown_of(top_line(true, f, width)) == top_line(false, f, width),
{
    reveal_strlit("  ");
    reveal_strlit(" ");
    reveal_strlit("now");
    reveal_strlit(" · ");
    codes_have_no_letters(Accent::Cyan);
    figures_are_bare(f.secs as nat);
    figures_are_bare(f.bytes as nat);
    let right = duration_text(f.secs as nat) + " · "@ + bytes_text(f.bytes as nat);
    let gap = room(
        frame_width(width),
        2 + byte_count(f.rate@) + 4 + byte_count(right) + 2,
        2,
    );
    let accent = Accent::Cyan.bold_code();
    bare_texts_show("  "@);
    lemma_styled_between(true, "  "@, accent, f.rate@, "  "@);
    let (a, x) = ("  "@ + styled(true, accent, f.rate@), "  "@ + f.rate@);
    lemma_bare_behind(a, " "@, x);
    lemma_styled_between(true, a + " "@, "2"@, "now"@, x + " "@);
    let (b, y) = (a + " "@ + styled(true, "2"@, "now"@), x + " "@ + "now"@);
    lemma_bare_behind(b, blanks(gap as nat), y);
    lemma_styled_between(true, b + blanks(gap as nat), "2"@, right, y + blanks(gap as nat));
    shown_is_shown(top_line(true, f, width), top_line(false, f, width));
}

proof fn lemma_chart_line_shows(f: Frame, width: int, i: int)
    requires
        bare(f.axis@),
        0 <= i < CHART_HEIGHT,
    ensures
        shown_of(chart_line(true, f, width, i)) == chart_line(false, f, width, i),
{
    reveal_strlit("  ");
    reveal_strlit(" ");
    reveal_strlit("0");
    reveal_strlit("┤");
    reveal_strlit("│");
    codes_have_no_letters(Accent::Cyan);
    let edge = i == 0 || i == CHART_HEIGHT - 1;
    let label = if i == 0 {
        right_aligned(f.axis@, 5)
    } else if i == CHART_HEIGHT - 1 {
        right_aligned("0"@, 5)
    } else {
        blanks(5)
    };
    let axis = label + if edge {
        "┤"@
    } else {
        "│"@
    };
    let row = chart_row(f.eighths@, chart_columns(width) as nat, CHART_HEIGHT as nat, i);
    bare_texts_show("  "@);
    lemma_styled_between(true, "  "@, "2"@, axis, "  "@);
    lemma_bare_behind("  "@ + styled(true, "2"@, axis), " "@, "  "@ + axis);
    assert(bare(row));
    lemma_styled_between(
        true,
        "  "@ + styled(true, "2"@, axis) + " "@,
        Accent::Cyan.code(),
        row,
        "  "@ + axis + " "@,
    );
    shown_is_shown(chart_line(true, f, width, i), chart_line(false, f, width, i));
}

proof fn lemma_bottom_shows(settled: bool, f: Frame, width: int)
    requires
        bare(f.figures.avg@),
        bare(f.figures.min@),
        bare(f.figures.max@),
        f.error matches Some(e) ==> bare(e@),
    ensures
        shown_of(bottom_line(true, settled, f, width)) == bottom_line(false, settled, f, width),
        shown_of(axis_line(true, width)) == axis_line(false, width),
{
    reveal_strlit("  ");
    reveal_strlit("avg ");
    reveal_strlit("   min ");
    reveal_strlit("   max ");
    reveal_strlit("warming up…");
    reveal_strlit("⚠ ");
    reveal_strlit("Ctrl+C to stop");
    reveal_strlit("Mbps");
    codes_have_no_letters(Accent::Cyan);
    bare_texts_show("  "@);
    let unit = left_aligned("Mbps"@, (chart_columns(width) - 4) as nat);
    lemma_bare_behind("  "@, blanks(6), "  "@);
    lemma_styled_between(true, "  "@ + blanks(6), "2"@, unit, "  "@ + blanks(6));
    shown_is_shown(axis_line(true, width), axis_line(false, width));
    let (plain_stats, stats) = stats_text(true, settled, f);
    let (plain_status, status) = status_text(true, f);
    if settled {
        let tail = "   min "@ + f.figures.min@ + "   max "@ + f.figures.max@;
        bare_texts_show("avg "@);
        lemma_styled_between(true, "avg "@, "1"@, f.figures.avg@, "avg "@);
        lemma_bare_behind(
            "avg "@ + styled(true, "1"@, f.figures.avg@),
            tail,
            "avg "@ + f.figures.avg@,
        );
    } else {
        styles_do_not_show(true, "2"@, "warming up…"@);
    }
    assert(shows(stats, plain_stats));
    styles_do_not_show(true, "2"@, "Ctrl+C to stop"@);
    if let Some(e) = f.error {
        styles_do_not_show(true, "33"@, "⚠ "@ + e@);
    }
    assert(shows(status, plain_status));
    let gap = room(
        frame_width(width),
        (2 + plain_stats.len() + plain_status.len() + 1) as int,
        3,
    );
    texts_show_in_turn("  "@, "  "@, stats, plain_stats);
    lemma_bare_behind("  "@ + stats, blanks(gap as nat), "  "@ + plain_stats);
    texts_show_in_turn(
        "  "@ + stats + blanks(gap as nat),
        "  "@ + plain_stats + blanks(gap as nat),
        status,
        plain_status,
    );
    shown_is_shown(bottom_line(true, settled, f, width), bottom_line(false, settled, f, width));
}

/// The colored dashboard shows as the plain one, line by line.
pub proof fn colored_dashboards_show_the_same(settled: bool, f: Frame, width: usize, i: int)
    requires
        0 <= i < 11,
        bare(f.rate@),
        bare(f.axis@),
        bare(f.figures.avg@),
        bare(f.figures.min@),
        bare(f.figures.max@),
        f.error matches Some(e) ==> bare(e@),
    ensures
        shown_of(frame_lines(true, settled, f, width as int)[i]) == frame_lines(
            false,
            settled,
            f,
            width as int,
        )[i],
{
    let w = width as int;
    if i == 0 {
        lemma_top_shows(f, w);
    } else if 2 <= i < 8 {
        lemma_chart_line_shows(f, w, i - 2);
        assert(frame_lines(true, settled, f, w)[i] == chart_line(true, f, w, i - 2));
        assert(frame_lines(false, settled, f, w)[i] == chart_line(false, f, w, i - 2));
    } else if i == 8 || i == 10 {
        lemma_bottom_shows(settled, f, w);
    }
}

} // verus!
