//! `speed test`: idle latency, then download and upload for a fixed time each.

use std::collections::VecDeque;
use vstd::prelude::*;
use vstd::string::*;

use crate::net::Meta;
use crate::reading::{Reading, ONE_KEY, ZERO_KEY};
use crate::servers::{entries, hetzner_comes_first, pool, pool_entries, Entry, CONNS_PER_SERVER};
use crate::text::{join, pad_left, pad_right, same, spaces};
use crate::text::{blanks, joined, left_aligned, right_aligned, run_of, text_of, texts};
use crate::ui::{bold, bytes, dim, progress, red, sparkline, yellow, Accent};
use crate::ui::{bytes_text, newest, progress_text, sparkline_text, styled, the_newest_end_the_list};
use crate::ui::{
    bare, bare_texts_show, codes_have_no_letters, figures_are_bare, sequences_do_not_show,
    shown_is_shown, shown_of, shows, styles_do_not_show, texts_show_in_turn,
};
use crate::ui::{CLEAR_LINE, HIDE_CURSOR, SHOW_CURSOR};

verus! {

/// The shortest and the longest time that can be spent on each direction, and the
/// usual one, in seconds.
pub const MIN_DURATION: u64 = 2;

pub const MAX_DURATION: u64 = 120;

pub const DEFAULT_DURATION: u64 = 10;

/// How often latency is sampled on the idle line.
pub const IDLE_SAMPLES: usize = 10;

/// One second, in nanoseconds.
pub const SECOND: u64 = 1_000_000_000;

/// What to test.
#[derive(Clone, Copy, PartialEq, Eq, Structural, Debug)]
pub struct Opts {
    /// Seconds to spend on each direction
    pub duration: u64,
    /// Skip the upload phase
    pub no_upload: bool,
    /// Print the result as JSON instead of the live display
    pub json: bool,
}

#[derive(Clone, Copy, PartialEq, Eq, Structural, Debug)]
pub enum Dir {
    Down,
    Up,
}

impl Dir {
    pub open spec fn label_text(self) -> Seq<char> {
        match self {
            Dir::Down => "Download"@,
            Dir::Up => "Upload"@,
        }
    }

    pub open spec fn icon_text(self) -> Seq<char> {
        match self {
            Dir::Down => "↓"@,
            Dir::Up => "↑"@,
        }
    }

    pub open spec fn accent_of(self) -> Accent {
        match self {
            Dir::Down => Accent::Cyan,
            Dir::Up => Accent::Magenta,
        }
    }

    /// Where the steady state begins. Upload needs longer: socket send buffers keep
    /// absorbing data for a while.
    pub open spec fn settle_time(self) -> u64 {
        match self {
            Dir::Down => 1_000_000_000,
            Dir::Up => 2_000_000_000,
        }
    }

    pub fn label(self) -> (r: &'static str)
        ensures
            r@ == self.label_text(),
    {
        match self {
            Dir::Down => "Download",
            Dir::Up => "Upload",
        }
    }

    pub fn icon(self) -> (r: &'static str)
        ensures
            r@ == self.icon_text(),
    {
        match self {
            Dir::Down => "↓",
            Dir::Up => "↑",
        }
    }

    pub fn accent(self) -> (r: Accent)
        ensures
            r == self.accent_of(),
    {
        match self {
            Dir::Down => Accent::Cyan,
            Dir::Up => Accent::Magenta,
        }
    }

    fn settle(self) -> (r: u64)
        ensures
            r == self.settle_time(),
    {
        match self {
            Dir::Down => SECOND,
            Dir::Up => 2 * SECOND,
        }
    }
}

/// The airport code of the data center, if it is known.
pub open spec fn iata_of(m: Meta) -> Option<Seq<char>> {
    match m.colo {
        Some(c) => text_of(c.iata),
        None => None,
    }
}

/// The place: city and airport code, as far as they are known.
pub open spec fn place_text(m: Meta) -> Option<Seq<char>> {
    match (text_of(m.city), iata_of(m)) {
        (Some(city), Some(iata)) => Some(city + " ("@ + iata + ")"@),
        (Some(city), None) => Some(city),
        (None, Some(iata)) => Some(iata),
        (None, None) => None,
    }
}

/// Provider and place, as far as they are known.
pub open spec fn server_text(org: Option<Seq<char>>, place: Option<Seq<char>>) -> Seq<char> {
    match (org, place) {
        (Some(o), Some(p)) => o + " · "@ + p,
        (Some(o), None) => o,
        (None, Some(p)) => p,
        (None, None) => seq![],
    }
}

fn place(m: &Meta) -> (r: Option<String>)
    ensures
        text_of(r) == place_text(*m),
{
    let iata: Option<&String> = match &m.colo {
        Some(c) => c.iata.as_ref(),
        None => None,
    };
    match (&m.city, iata) {
        (Some(city), Some(code)) => {
            let mut r = city.clone();
            r.append(" (");
            r.append(code.as_str());
            r.append(")");
            Some(r)
        },
        (Some(city), None) => Some(city.clone()),
        (None, Some(code)) => Some(code.clone()),
        (None, None) => None,
    }
}

/// "Vorboss Limited · City of London (LHR)"
pub fn server_line(m: &Meta) -> (r: String)
    ensures
        r@ == server_text(text_of(m.as_organization), place_text(*m)),
{
    match (&m.as_organization, place(m)) {
        (Some(org), Some(p)) => {
            let mut r = org.clone();
            r.append(" · ");
            r.append(p.as_str());
            r
        },
        (Some(org), None) => org.clone(),
        (None, Some(p)) => p,
        (None, None) => String::new(),
    }
}

/// Who and where we are, as a report tells it.
pub struct Identity {
    pub isp: Option<String>,
    pub ip: Option<String>,
    pub location: Option<String>,
}

/// Reads the report's share of the metadata. An empty place is no place.
pub fn identity(m: &Meta) -> (r: Identity)
    ensures
        text_of(r.isp) == text_of(m.as_organization),
        text_of(r.ip) == text_of(m.client_ip),
        text_of(r.location) == match place_text(*m) {
            Some(p) => if p.len() > 0 {
                Some(p)
            } else {
                None
            },
            None => None,
        },
{
    let isp = match &m.as_organization {
        Some(t) => Some(t.clone()),
        None => None,
    };
    let ip = match &m.client_ip {
        Some(t) => Some(t.clone()),
        None => None,
    };
    let location = match place(m) {
        Some(p) => if p.as_str().is_empty() {
            None
        } else {
            Some(p)
        },
        None => None,
    };
    Identity { isp, ip, location }
}

/// The start of a row: icon and label, in the accent and in bold.
pub open spec fn row_label_text(
    color: bool,
    icon: Seq<char>,
    label: Seq<char>,
    accent: Accent,
) -> Seq<char> {
    "  "@ + styled(color, accent.code(), icon) + " "@ + styled(
        color,
        "1"@,
        left_aligned(label, 9),
    )
}

pub fn row_label(color: bool, icon: &str, label: &str, accent: Accent) -> (r: String)
    ensures
        r@ == row_label_text(color, icon@, label@, accent),
{
    let mut r = "  ".to_owned();
    r.append(accent.paint(color, icon).as_str());
    r.append(" ");
    r.append(bold(color, pad_right(label, 9).as_str()).as_str());
    r
}

/// How far a test has come: what it is waiting for.
#[derive(Clone, Copy, PartialEq, Eq, Structural, Debug)]
pub enum Stage {
    Connecting,
    Measuring,
    Transferring(Dir),
    Finished,
}

/// What the program is to do next.
#[derive(Clone, Copy, PartialEq, Eq, Structural, Debug)]
pub enum Task {
    /// Ask for the metadata and look up Cloudflare's address.
    Connect,
    /// Sample the latency this often.
    MeasureLatency(usize),
    /// Run one direction.
    Transfer(Dir),
    /// Print the report.
    Report,
    /// Nothing more.
    Stop,
}

/// The idle latency, in text.
pub struct LatencyText {
    pub ms: String,
    pub jitter: String,
}

/// What can happen in a test.
pub enum Event {
    /// The metadata is in, and whether Cloudflare has an address.
    Connected(Meta, bool),
    /// The idle latency, if any sample got through.
    Measured(Option<LatencyText>),
    /// A direction is done.
    Transferred,
}

/// What to write, and what to do then.
pub struct Turn {
    pub print: String,
    pub task: Task,
}

/// A test under way. It is live on a terminal unless JSON is asked for; a test that
/// is not live ends in a report instead.
#[derive(Clone, Copy, PartialEq, Eq, Structural, Debug)]
pub struct Session {
    pub live: bool,
    pub color: bool,
    pub no_upload: bool,
    pub stage: Stage,
}

/// The first line, while connecting.
pub open spec fn connecting_text(color: bool) -> Seq<char> {
    HIDE_CURSOR@ + "\n  "@ + styled(color, "1"@, "speed"@) + "  "@ + styled(
        color,
        "2"@,
        "connecting…"@,
    ) + "\n\n"@
}

/// The headline, in place of the first line two lines up, and the start of the
/// latency row.
pub open spec fn connected_text(color: bool, m: Meta) -> Seq<char> {
    let server = server_text(text_of(m.as_organization), place_text(m));
    "\x1b[2A"@ + CLEAR_LINE@ + ("  "@ + styled(color, "1"@, "speed"@) + if server.len() > 0 {
        "  "@ + styled(color, "2"@, server)
    } else {
        seq![]
    }) + "\n\n"@ + row_label_text(color, "◷"@, "Latency"@, Accent::Cyan) + styled(
        color,
        "2"@,
        "measuring…"@,
    )
}

/// The latency row.
pub open spec fn latency_text(color: bool, l: Option<LatencyText>) -> Seq<char> {
    CLEAR_LINE@ + row_label_text(color, "◷"@, "Latency"@, Accent::Cyan) + (match l {
        Some(t) => styled(color, "1"@, right_aligned(t.ms@, 11)) + "   "@ + styled(
            color,
            "2"@,
            "jitter "@ + t.jitter@,
        ),
        None => styled(color, "33"@, "unavailable"@),
    }) + "\n"@
}

impl Session {
    /// The event that this stage waits for.
    pub open spec fn expects(self, event: Event) -> bool {
        match self.stage {
            Stage::Connecting => event is Connected,
            Stage::Measuring => event is Measured,
            Stage::Transferring(_) => event is Transferred,
            Stage::Finished => false,
        }
    }

    /// `text` where the test is live, else nothing.
    pub open spec fn shown(self, text: Seq<char>) -> Seq<char> {
        if self.live {
            text
        } else {
            seq![]
        }
    }

    /// Where the test goes on `event`: the stage, what is written, what is done.
    pub open spec fn next(self, event: Event) -> (Stage, Seq<char>, Task) {
        let end = (
            Stage::Finished,
            self.shown("\n"@ + SHOW_CURSOR@),
            if self.live {
                Task::Stop
            } else {
                Task::Report
            },
        );
        match (self.stage, event) {
            (Stage::Connecting, Event::Connected(m, true)) => (
                Stage::Measuring,
                self.shown(connected_text(self.color, m)),
                Task::MeasureLatency(IDLE_SAMPLES),
            ),
            (Stage::Connecting, Event::Connected(m, false)) => (
                Stage::Transferring(Dir::Down),
                self.shown(connected_text(self.color, m) + latency_text(self.color, None)),
                Task::Transfer(Dir::Down),
            ),
            (Stage::Measuring, Event::Measured(l)) => (
                Stage::Transferring(Dir::Down),
                self.shown(latency_text(self.color, l)),
                Task::Transfer(Dir::Down),
            ),
            (Stage::Transferring(Dir::Down), _) => if self.no_upload {
                end
            } else {
                (Stage::Transferring(Dir::Up), seq![], Task::Transfer(Dir::Up))
            },
            _ => end,
        }
    }

    /// Starts a test.
    pub fn begin(opts: &Opts, is_terminal: bool, color: bool) -> (r: (Session, Turn))
        ensures
            r.0 == (Session {
                live: is_terminal && !opts.json,
                color,
                no_upload: opts.no_upload,
                stage: Stage::Connecting,
            }),
            r.1.print@ == r.0.shown(connecting_text(color)),
            r.1.task == Task::Connect,
    {
        let live = is_terminal && !opts.json;
        let session = Session {
            live,
            color,
            no_upload: opts.no_upload,
            stage: Stage::Connecting,
        };
        let mut print = String::new();
        if live {
            print = HIDE_CURSOR.to_owned();
            print.append("\n  ");
            print.append(bold(color, "speed").as_str());
            print.append("  ");
            print.append(dim(color, "connecting…").as_str());
            print.append("\n\n");
        }
        (session, Turn { print, task: Task::Connect })
    }

    /// Takes the next turn.
    pub fn step(&mut self, event: &Event) -> (turn: Turn)
        requires
            old(self).expects(*event),
        ensures
            final(self).live == old(self).live,
            final(self).color == old(self).color,
            final(self).no_upload == old(self).no_upload,
            final(self).stage == old(self).next(*event).0,
            turn.print@ == old(self).next(*event).1,
            turn.task == old(self).next(*event).2,
    {
        match event {
            Event::Connected(m, resolved) => {
                let mut print = String::new();
                if self.live {
                    print = connected(self.color, m);
                    if !*resolved {
                        print.append(latency_row(self.color, &None).as_str());
                    }
                }
                if *resolved {
                    self.stage = Stage::Measuring;
                    Turn { print, task: Task::MeasureLatency(IDLE_SAMPLES) }
                } else {
                    self.stage = Stage::Transferring(Dir::Down);
                    Turn { print, task: Task::Transfer(Dir::Down) }
                }
            },
            Event::Measured(l) => {
                let mut print = String::new();
                if self.live {
                    print = latency_row(self.color, l);
                }
                self.stage = Stage::Transferring(Dir::Down);
                Turn { print, task: Task::Transfer(Dir::Down) }
            },
            Event::Transferred => {
                let up = match self.stage {
                    Stage::Transferring(Dir::Down) => !self.no_upload,
                    _ => false,
                };
                if up {
                    self.stage = Stage::Transferring(Dir::Up);
                    return Turn { print: String::new(), task: Task::Transfer(Dir::Up) };
                }
                self.stage = Stage::Finished;
                if self.live {
                    let mut print = "\n".to_owned();
                    print.append(SHOW_CURSOR);
                    Turn { print, task: Task::Stop }
                } else {
                    Turn { print: String::new(), task: Task::Report }
                }
            },
        }
    }
}

fn connected(color: bool, m: &Meta) -> (r: String)
    ensures
        r@ == connected_text(color, *m),
{
    let server = server_line(m);
    let mut head = "  ".to_owned();
    head.append(bold(color, "speed").as_str());
    if server.as_str().is_empty() {
        proof {
            assert(head@ + Seq::<char>::empty() =~= head@);
        }
    } else {
        let mut tail = "  ".to_owned();
        tail.append(dim(color, server.as_str()).as_str());
        head.append(tail.as_str());
    }
    let mut r = "\x1b[2A".to_owned();
    r.append(CLEAR_LINE);
    r.append(head.as_str());
    r.append("\n\n");
    r.append(row_label(color, "◷", "Latency", Accent::Cyan).as_str());
    r.append(dim(color, "measuring…").as_str());
    r
}

fn latency_row(color: bool, l: &Option<LatencyText>) -> (r: String)
    ensures
        r@ == latency_text(color, *l),
{
    let mut r = CLEAR_LINE.to_owned();
    r.append(row_label(color, "◷", "Latency", Accent::Cyan).as_str());
    match l {
        Some(t) => {
            let mut figure = bold(color, pad_left(t.ms.as_str(), 11).as_str());
            figure.append("   ");
            let mut jitter = "jitter ".to_owned();
            jitter.append(t.jitter.as_str());
            figure.append(dim(color, jitter.as_str()).as_str());
            r.append(figure.as_str());
        },
        None => {
            r.append(yellow(color, "unavailable").as_str());
        },
    }
    r.append("\n");
    r
}

impl Session {
    /// The test after `event`.
    pub open spec fn after(self, event: Event) -> Session {
        Session { stage: self.next(event).0, ..self }
    }

    /// The directions that are still to be run.
    pub open spec fn remaining(self) -> Seq<Dir> {
        match self.stage {
            Stage::Connecting | Stage::Measuring => if self.no_upload {
                seq![Dir::Down]
            } else {
                seq![Dir::Down, Dir::Up]
            },
            Stage::Transferring(Dir::Down) => if self.no_upload {
                seq![]
            } else {
                seq![Dir::Up]
            },
            _ => seq![],
        }
    }

    /// How many turns are left at most.
    pub open spec fn turns_left(self) -> nat {
        match self.stage {
            Stage::Connecting => 4,
            Stage::Measuring => 3,
            Stage::Transferring(Dir::Down) => 2,
            Stage::Transferring(Dir::Up) => 1,
            Stage::Finished => 0,
        }
    }
}

/// Every turn brings a test nearer its end, and runs exactly the directions that are
/// due, download first and upload unless it is skipped.
pub proof fn directions_run_in_turn(s: Session, event: Event)
    requires
        s.expects(event),
        s.no_upload ==> s.stage != Stage::Transferring(Dir::Up),
    ensures
        s.after(event).turns_left() < s.turns_left(),
        match s.next(event).2 {
            Task::Transfer(d) => s.remaining() == seq![d] + s.after(event).remaining(),
            _ => s.after(event).remaining() == s.remaining(),
        },
        s.after(event).stage == Stage::Finished ==> s.remaining().len() == 0 && (s.next(event).2
            == if s.live {
            Task::Stop
        } else {
            Task::Report
        }),
        s.no_upload ==> s.after(event).stage != Stage::Transferring(Dir::Up),
{
    let due = s.remaining();
    let left = s.after(event).remaining();
    match s.next(event).2 {
        Task::Transfer(d) => {
            assert(due =~= seq![d] + left);
        },
        _ => {
            assert(due =~= left);
        },
    }
}

/// A test that is not live writes nothing but its report.
pub proof fn reports_stand_alone(s: Session, event: Event)
    requires
        !s.live,
    ensures
        s.next(event).1.len() == 0,
{
}

/// A counter reading: nanoseconds since the start, and bytes.
pub type Sample = (u64, u64);

/// How many bytes moved in how many nanoseconds.
#[derive(Clone, Copy, PartialEq, Eq, Structural, Debug)]
pub struct Interval {
    pub bytes: u64,
    pub nanos: u64,
}

/// `to - from`, none where that is negative.
pub open spec fn since(from: u64, to: u64) -> u64 {
    if to >= from {
        (to - from) as u64
    } else {
        0
    }
}

/// What moved between two samples.
pub open spec fn between(from: Sample, to: Sample) -> Interval {
    Interval { bytes: since(from.1, to.1), nanos: since(from.0, to.0) }
}

/// The samples that a smoothed rate at `now` needs: the oldest go as long as the one
/// behind them is a second old, but two stay.
pub open spec fn trimmed(window: Seq<Sample>, now: u64) -> Seq<Sample>
    decreases window.len(),
{
    if window.len() > 2 && since(window[1].0, now) >= SECOND {
        trimmed(window.drop_first(), now)
    } else {
        window
    }
}

/// Where the steady state begins, once `s` is taken too: at the first sample that is
/// not before the settle time.
pub open spec fn next_settled(dir: Dir, before: Option<Sample>, s: Sample) -> Option<Sample> {
    if s.0 >= dir.settle_time() && before is None {
        Some(s)
    } else {
        before
    }
}

/// The peak once `s` is taken too, at the rate `mbps`.
pub open spec fn next_peak(dir: Dir, before: Reading, s: Sample, mbps: Reading) -> Reading {
    if s.0 >= dir.settle_time() {
        before.max_of(mbps)
    } else {
        before
    }
}

/// One direction under way. Times are nanoseconds since its start.
pub struct Phase {
    pub dir: Dir,
    /// How long the direction runs.
    pub length: u64,
    /// Samples covering the last second, for a smoothed live rate.
    pub window: VecDeque<Sample>,
    /// The live rates.
    pub history: Vec<Reading>,
    /// The highest live rate of the steady state.
    pub peak: Reading,
    /// Where the steady state begins; the final rate is measured from here.
    pub settled: Option<Sample>,
}

impl Phase {
    pub open spec fn wf(&self) -> bool {
        self.window@.len() > 0
    }

    /// Starts a direction.
    pub fn new(dir: Dir, secs: u64) -> (r: Phase)
        requires
            secs * SECOND <= u64::MAX,
        ensures
            r.wf(),
            r.dir == dir,
            r.length == secs * SECOND,
            r.window@ == seq![(0u64, 0u64)],
            r.history@.len() == 0,
            r.peak == (Reading { key: ZERO_KEY }),
            r.settled is None,
    {
        let mut window: VecDeque<Sample> = VecDeque::new();
        window.push_back((0, 0));
        Phase {
            dir,
            length: secs * SECOND,
            window,
            history: Vec::new(),
            peak: Reading { key: ZERO_KEY },
            settled: None,
        }
    }

    /// Takes a sample of the counter and says what moved over about the last second:
    /// the live rate is that.
    pub fn tick(&mut self, now: u64, bytes: u64) -> (r: Interval)
        requires
            old(self).wf(),
        ensures
            final(self).wf(),
            final(self).dir == old(self).dir,
            final(self).length == old(self).length,
            final(self).window@ == trimmed(old(self).window@.push((now, bytes)), now),
            final(self).history == old(self).history,
            final(self).peak == old(self).peak,
            final(self).settled == old(self).settled,
            r == between(final(self).window@[0], (now, bytes)),
    {
        self.window.push_back((now, bytes));
        let ghost all = self.window@;
        while self.window.len() > 2 && now.saturating_sub(self.window[1].0) >= SECOND
            invariant
                trimmed(all, now) == trimmed(self.window@, now),
                self.window@.len() > 0,
                self.dir == old(self).dir,
                self.length == old(self).length,
                self.history == old(self).history,
                self.peak == old(self).peak,
                self.settled == old(self).settled,
            decreases self.window@.len(),
        {
            let ghost before = self.window@;
            let _ = self.window.pop_front();
            proof {
                assert(self.window@ =~= before.drop_first());
            }
        }
        let base: Sample = self.window[0];
        Interval { bytes: bytes.saturating_sub(base.1), nanos: now.saturating_sub(base.0) }
    }

    /// Takes note of the live rate of a sample; says whether the time is up. Connection
    /// setup and send-buffer fill distort the first moments, so the peak and the final
    /// rate leave them out.
    pub fn observe(&mut self, now: u64, bytes: u64, mbps: Reading) -> (done: bool)
        ensures
            final(self).dir == old(self).dir,
            final(self).length == old(self).length,
            final(self).window == old(self).window,
            final(self).history@ == old(self).history@.push(mbps),
            final(self).peak == next_peak(old(self).dir, old(self).peak, (now, bytes), mbps),
            final(self).settled == next_settled(old(self).dir, old(self).settled, (now, bytes)),
            done == (now >= old(self).length),
    {
        self.history.push(mbps);
        if now >= self.dir.settle() {
            self.peak = self.peak.larger(mbps);
            if self.settled.is_none() {
                self.settled = Some((now, bytes));
            }
        }
        now >= self.length
    }

    /// Where the final rate is measured from: the first sample of the steady state,
    /// else the start.
    pub open spec fn base(&self) -> Sample {
        match self.settled {
            Some(s) => s,
            None => (0, 0),
        }
    }

    /// What moved in the steady state, up to `now`. TCP ramp-up drags the average down,
    /// and on upload the instant fill of socket send buffers would count bytes not yet
    /// on the wire.
    pub fn steady(&self, now: u64, bytes: u64) -> (r: Interval)
        ensures
            r == between(self.base(), (now, bytes)),
    {
        let base: Sample = match self.settled {
            Some(s) => s,
            None => (0, 0),
        };
        Interval { bytes: bytes.saturating_sub(base.1), nanos: now.saturating_sub(base.0) }
    }

    /// The peak to report next to the final rate.
    pub fn final_peak(&self, mbps: Reading) -> (r: Reading)
        ensures
            r == self.peak.max_of(mbps),
    {
        self.peak.larger(mbps)
    }
}

/// Fewer bytes than this mean nothing meaningful got through.
pub const MEANINGFUL_BYTES: u64 = 1_000_000;

/// What is told of a transfer in which nothing meaningful got through.
pub open spec fn failure_text(bytes: u64, last_error: Option<Seq<char>>) -> Option<Seq<char>> {
    if bytes < MEANINGFUL_BYTES {
        match last_error {
            Some(e) => Some(e),
            None => Some("no data transferred"@),
        }
    } else {
        None
    }
}

/// Why a transfer failed, if it did.
pub fn failure(bytes: u64, last_error: Option<String>) -> (r: Option<String>)
    ensures
        text_of(r) == failure_text(bytes, text_of(last_error)),
{
    if bytes < MEANINGFUL_BYTES {
        match last_error {
            Some(e) => Some(e),
            None => Some("no data transferred".to_owned()),
        }
    } else {
        None
    }
}

/// The samples of a direction in the order they were taken, each with its rate.
pub type Trace = Seq<(Sample, Reading)>;

/// Where the steady state begins after `trace`, one [`Phase::observe`] each.
pub open spec fn settled_after(dir: Dir, trace: Trace) -> Option<Sample>
    decreases trace.len(),
{
    if trace.len() == 0 {
        None
    } else {
        next_settled(dir, settled_after(dir, trace.drop_last()), trace.last().0)
    }
}

/// The peak after `trace`, one [`Phase::observe`] each.
pub open spec fn peak_after(dir: Dir, trace: Trace) -> Reading
    decreases trace.len(),
{
    if trace.len() == 0 {
        Reading { key: ZERO_KEY }
    } else {
        next_peak(dir, peak_after(dir, trace.drop_last()), trace.last().0, trace.last().1)
    }
}

/// The final rate skips the ramp-up: it is measured from the first sample taken at or
/// after the settle time.
pub proof fn ramp_up_is_skipped(dir: Dir, trace: Trace)
    ensures
        match settled_after(dir, trace) {
            Some(s) => s.0 >= dir.settle_time() && exists|i: int|
                0 <= i < trace.len() && (#[trigger] trace[i]).0 == s && forall|j: int|
                    0 <= j < i ==> (#[trigger] trace[j]).0.0 < dir.settle_time(),
            None => forall|j: int|
                0 <= j < trace.len() ==> (#[trigger] trace[j]).0.0 < dir.settle_time(),
        },
    decreases trace.len(),
{
    if trace.len() > 0 {
        let rest = trace.drop_last();
        ramp_up_is_skipped(dir, rest);
        match settled_after(dir, rest) {
            Some(s) => {
                let i = choose|i: int|
                    0 <= i < rest.len() && (#[trigger] rest[i]).0 == s && forall|j: int|
                        0 <= j < i ==> (#[trigger] rest[j]).0.0 < dir.settle_time();
                assert(trace[i] == rest[i]);
                assert forall|j: int| 0 <= j < i implies (#[trigger] trace[j]).0.0
                    < dir.settle_time() by {
                    assert(trace[j] == rest[j]);
                }
            },
            None => {
                assert forall|j: int| 0 <= j < rest.len() implies (#[trigger] trace[j]).0.0
                    < dir.settle_time() by {
                    assert(trace[j] == rest[j]);
                }
                assert(trace[trace.len() - 1] == trace.last());
            },
        }
    }
}

/// No rate of the steady state is above the peak.
pub proof fn peak_is_highest(dir: Dir, trace: Trace, i: int)
    requires
        0 <= i < trace.len(),
        trace[i].0.0 >= dir.settle_time(),
    ensures
        !peak_after(dir, trace).lt(trace[i].1),
        !peak_after(dir, trace).nan(),
    decreases trace.len(),
{
    let rest = trace.drop_last();
    lemma_peak_is_number(dir, trace);
    lemma_peak_is_number(dir, rest);
    if i < rest.len() {
        assert(rest[i] == trace[i]);
        peak_is_highest(dir, rest, i);
    }
}

proof fn lemma_peak_is_number(dir: Dir, trace: Trace)
    ensures
        !peak_after(dir, trace).nan(),
    decreases trace.len(),
{
    if trace.len() > 0 {
        lemma_peak_is_number(dir, trace.drop_last());
    }
}

/// The live rate covers about a second: every sample but the oldest is less than a
/// second old unless only two are left, and a sample was dropped only if the one that
/// is now the oldest is at least a second old.
pub proof fn window_covers_a_second(window: Seq<Sample>, now: u64)
    requires
        window.len() >= 2,
        forall|i: int, j: int| 0 <= i <= j < window.len() ==> window[i].0 <= window[j].0,
    ensures
        ({
            let w = trimmed(window, now);
            &&& 2 <= w.len() <= window.len()
            &&& w == window.skip(window.len() - w.len())
            &&& w.len() > 2 ==> forall|i: int|
                1 <= i < w.len() ==> since((#[trigger] w[i]).0, now) < SECOND
            &&& w.len() < window.len() ==> since(w[0].0, now) >= SECOND
        }),
    decreases window.len(),
{
    if window.len() > 2 && since(window[1].0, now) >= SECOND {
        let rest = window.drop_first();
        window_covers_a_second(rest, now);
        let w = trimmed(window, now);
        assert(w =~= window.skip(window.len() - w.len()));
    } else {
        assert(window.skip(0) =~= window);
        assert forall|i: int| 1 <= i < window.len() && window.len() > 2 implies since(
            (#[trigger] window[i]).0,
            now,
        ) < SECOND by {
            assert(window[1].0 <= window[i].0);
        }
    }
}

/// The addresses of Hetzner's mirrors among `servers`, each as often as it may be
/// connected to.
pub open spec fn mirror_urls(servers: Seq<Entry>) -> Seq<Seq<char>>
    decreases servers.len(),
{
    if servers.len() == 0 {
        seq![]
    } else {
        let before = mirror_urls(servers.drop_last());
        let (_, provider, url) = servers.last();
        if provider == "Hetzner"@ {
            before + Seq::new(CONNS_PER_SERVER as nat, |_i: int| url)
        } else {
            before
        }
    }
}

/// What each download stream of a test gets: Hetzner's mirrors, 2 connections each.
pub fn download_urls() -> (r: Vec<String>)
    ensures
        texts(r@) == mirror_urls(pool_entries()),
{
    let servers = pool();
    let mut r: Vec<String> = Vec::new();
    let mut i: usize = 0;
    proof {
        assert(texts(r@) =~= mirror_urls(pool_entries().take(0)));
    }
    while i < servers.len()
        invariant
            i <= servers@.len(),
            entries(servers@) == pool_entries(),
            texts(r@) == mirror_urls(pool_entries().take(i as int)),
        decreases servers.len() - i,
    {
        let server = servers[i];
        let ghost before = texts(r@);
        proof {
            let next = pool_entries().take(i + 1);
            assert(entries(servers@)[i as int] == server@);
            assert(next.drop_last() =~= pool_entries().take(i as int));
            assert(next.last() == server@);
        }
        if same(server.provider, "Hetzner") {
            let mut k: usize = 0;
            while k < CONNS_PER_SERVER
                invariant
                    k <= CONNS_PER_SERVER,
                    texts(r@) =~= before + Seq::new(k as nat, |_i: int| server.url@),
                decreases CONNS_PER_SERVER - k,
            {
                let ghost was = texts(r@);
                r.push(server.url.to_owned());
                proof {
                    assert(texts(r@) =~= was.push(server.url@));
                }
                k += 1;
            }
        }
        i += 1;
    }
    proof {
        assert(pool_entries().take(i as int) =~= pool_entries());
    }
    r
}

proof fn lemma_no_more_mirrors(k: int)
    requires
        6 <= k <= pool_entries().len(),
    ensures
        mirror_urls(pool_entries().take(k)) == mirror_urls(pool_entries().take(6)),
    decreases k,
{
    if k > 6 {
        hetzner_comes_first(k - 1);
        lemma_no_more_mirrors(k - 1);
        assert(pool_entries().take(k).drop_last() =~= pool_entries().take(k - 1));
    }
}

proof fn lemma_mirrors(k: int)
    requires
        0 <= k <= 6,
    ensures
        mirror_urls(pool_entries().take(k)).len() == 2 * k,
        forall|i: int|
            0 <= i < 2 * k ==> (#[trigger] mirror_urls(pool_entries().take(k))[i])
                == pool_entries()[i / 2].2,
    decreases k,
{
    let m = mirror_urls(pool_entries().take(k));
    if k > 0 {
        hetzner_comes_first(k - 1);
        lemma_mirrors(k - 1);
        let before = mirror_urls(pool_entries().take(k - 1));
        assert(pool_entries().take(k).drop_last() =~= pool_entries().take(k - 1));
        assert forall|i: int| 0 <= i < 2 * k implies (#[trigger] m[i]) == pool_entries()[i / 2].2 by {
            if i < 2 * (k - 1) {
                assert(m[i] == before[i]);
            }
        }
    }
}

/// A test downloads from each of Hetzner's 6 mirrors over 2 connections, and from
/// nowhere else.
pub proof fn downloads_use_each_mirror_twice()
    ensures
        mirror_urls(pool_entries()).len() == 12,
        forall|i: int|
            0 <= i < 12 ==> (#[trigger] mirror_urls(pool_entries())[i]) == pool_entries()[i / 2].2,
{
    let n = pool_entries().len() as int;
    lemma_no_more_mirrors(n);
    lemma_mirrors(6);
    assert(pool_entries().take(n) =~= pool_entries());
}

/// How many live rates the sparkline shows.
pub const SPARK_WIDTH: usize = 24;

/// The highest of `floor` and the readings.
pub open spec fn highest(vals: Seq<Reading>, floor: Reading) -> Reading
    decreases vals.len(),
{
    if vals.len() == 0 {
        floor
    } else {
        highest(vals.drop_last(), floor).max_of(vals.last())
    }
}

/// The newest readings, at most `width` of them, and the highest of these and `floor`.
pub fn visible(history: &Vec<Reading>, width: usize, floor: Reading) -> (r: (Vec<Reading>, Reading))
    ensures
        r.0@ == newest(history@, width as nat),
        r.1 == highest(newest(history@, width as nat), floor),
{
    let first: usize = history.len().saturating_sub(width);
    let ghost shown = newest(history@, width as nat);
    let mut vals: Vec<Reading> = Vec::new();
    let mut top: Reading = floor;
    let mut i: usize = first;
    proof {
        assert(shown.take(0) =~= Seq::<Reading>::empty());
        assert(vals@ =~= shown.take(0));
    }
    while i < history.len()
        invariant
            first <= i <= history@.len(),
            shown == newest(history@, width as nat),
            shown.len() == history@.len() - first,
            forall|k: int| 0 <= k < shown.len() ==> shown[k] == history@[first + k],
            vals@ == shown.take(i - first),
            top == highest(shown.take(i - first), floor),
        decreases history.len() - i,
    {
        proof {
            assert(shown.take(i - first + 1).drop_last() =~= shown.take(i - first));
        }
        vals.push(history[i]);
        top = top.larger(history[i]);
        proof {
            assert(vals@ =~= shown.take(i - first + 1));
        }
        i += 1;
    }
    proof {
        assert(shown.take(i - first) =~= shown);
    }
    (vals, top)
}

/// What the sparkline shows of the live rates, and the rate it is scaled to: the
/// highest of them, at least 1 Mbps.
pub fn spark(history: &Vec<Reading>) -> (r: (Vec<Reading>, Reading))
    ensures
        r.0@ == newest(history@, SPARK_WIDTH as nat),
        r.1 == highest(newest(history@, SPARK_WIDTH as nat), Reading { key: ONE_KEY }),
{
    visible(history, SPARK_WIDTH, Reading { key: ONE_KEY })
}

/// The start of a direction's row: label and rate.
pub open spec fn rate_row(color: bool, dir: Dir, rate: Seq<char>) -> Seq<char> {
    row_label_text(color, dir.icon_text(), dir.label_text(), dir.accent_of()) + styled(
        color,
        dir.accent_of().bold_code(),
        right_aligned(rate, 11),
    )
}

/// The live row of a direction: rate, and the sparkline and the progress bar only if
/// there's room.
pub open spec fn live_text(
    color: bool,
    dir: Dir,
    rate: Seq<char>,
    eighths: Seq<usize>,
    filled: nat,
    secs: Seq<char>,
    width: nat,
) -> Seq<char> {
    let accent = dir.accent_of();
    let spark = if width >= 72 {
        "  "@ + styled(color, accent.code(), left_aligned(sparkline_text(eighths), 24))
    } else {
        seq![]
    };
    let bar = if width >= 48 {
        "  "@ + progress_text(filled, 12, accent, color) + " "@ + styled(
            color,
            "2"@,
            right_aligned(secs, 2) + "s"@,
        )
    } else {
        seq![]
    };
    CLEAR_LINE@ + rate_row(color, dir, rate) + spark + bar
}

/// Draws the live row: `rate` in text, the sparkline's values in eighths of its scale,
/// the filled part of the progress bar's 12 columns, the elapsed seconds in text.
pub fn draw_live(
    color: bool,
    dir: Dir,
    rate: &str,
    eighths: &Vec<usize>,
    filled: usize,
    secs: &str,
    width: usize,
) -> (r: String)
    ensures
        r@ == live_text(color, dir, rate@, eighths@, filled as nat, secs@, width as nat),
{
    let accent = dir.accent();
    let mut row = row_label(color, dir.icon(), dir.label(), accent);
    row.append(accent.paint_bold(color, pad_left(rate, 11).as_str()).as_str());
    let mut r = CLEAR_LINE.to_owned();
    r.append(row.as_str());
    if width >= 72 {
        let mut part = "  ".to_owned();
        let line = pad_right(sparkline(eighths).as_str(), SPARK_WIDTH);
        part.append(accent.paint(color, line.as_str()).as_str());
        r.append(part.as_str());
    } else {
        proof {
            assert(r@ + Seq::<char>::empty() =~= r@);
        }
    }
    if width >= 48 {
        let mut part = "  ".to_owned();
        part.append(progress(color, filled, 12, accent).as_str());
        part.append(" ");
        let mut elapsed = pad_left(secs, 2);
        elapsed.append("s");
        part.append(dim(color, elapsed.as_str()).as_str());
        r.append(part.as_str());
    } else {
        proof {
            assert(r@ + Seq::<char>::empty() =~= r@);
        }
    }
    r
}

/// Latency under load, in text, and by how much it is above the idle latency, where
/// that is known.
pub struct LoadedText {
    pub ms: String,
    pub delta: Option<String>,
}

/// What is told of a direction next to its rate.
pub open spec fn details_text(
    peak: Seq<char>,
    bytes: u64,
    loaded: Option<LoadedText>,
) -> Seq<Seq<char>> {
    let moved = seq!["peak "@ + peak, bytes_text(bytes as nat)];
    match loaded {
        Some(l) => moved.push(
            "loaded latency "@ + l.ms@ + match l.delta {
                Some(d) => " (+"@ + d@ + ")"@,
                None => seq![],
            },
        ),
        None => moved,
    }
}

/// Each of `parts` on a line of its own, under the rate.
pub open spec fn stacked(color: bool, parts: Seq<Seq<char>>) -> Seq<char>
    decreases parts.len(),
{
    if parts.len() == 0 {
        seq![]
    } else {
        stacked(color, parts.drop_last()) + ("\n"@ + blanks(15) + styled(color, "2"@, parts.last()))
    }
}

/// Label and rate take 27 columns; on narrow terminals each detail gets its own line.
pub open spec fn details_row(color: bool, parts: Seq<Seq<char>>, width: nat) -> Seq<char> {
    let line = joined(parts, " · "@);
    if 27 + line.len() <= width {
        "   "@ + styled(color, "2"@, line)
    } else {
        stacked(color, parts)
    }
}

/// The final row of a direction.
pub open spec fn result_text(
    color: bool,
    dir: Dir,
    error: Option<Seq<char>>,
    rate: Seq<char>,
    parts: Seq<Seq<char>>,
    width: nat,
) -> Seq<char> {
    CLEAR_LINE@ + match error {
        Some(e) => row_label_text(color, dir.icon_text(), dir.label_text(), dir.accent_of())
            + styled(color, "31"@, "failed · "@ + e),
        None => rate_row(color, dir, rate) + details_row(color, parts, width),
    }
}

fn details(peak: &str, moved: u64, loaded: &Option<LoadedText>) -> (r: Vec<String>)
    ensures
        texts(r@) == details_text(peak@, moved, *loaded),
{
    let mut r: Vec<String> = Vec::new();
    let mut first = "peak ".to_owned();
    first.append(peak);
    r.push(first);
    r.push(bytes(moved));
    if let Some(l) = loaded {
        let mut t = "loaded latency ".to_owned();
        t.append(l.ms.as_str());
        match &l.delta {
            Some(d) => {
                let mut above = " (+".to_owned();
                above.append(d.as_str());
                above.append(")");
                t.append(above.as_str());
            },
            None => {
                proof {
                    assert(t@ + Seq::<char>::empty() =~= t@);
                }
            },
        }
        r.push(t);
    }
    proof {
        assert(texts(r@) =~= details_text(peak@, moved, *loaded));
    }
    r
}

/// The final row of a direction: its rate and the details, or why it failed.
pub fn result_line(
    color: bool,
    dir: Dir,
    error: &Option<String>,
    rate: &str,
    peak: &str,
    moved: u64,
    loaded: &Option<LoadedText>,
    width: usize,
) -> (r: String)
    ensures
        r@ == result_text(
            color,
            dir,
            text_of(*error),
            rate@,
            details_text(peak@, moved, *loaded),
            width as nat,
        ),
{
    let accent = dir.accent();
    let mut row = row_label(color, dir.icon(), dir.label(), accent);
    let mut r = CLEAR_LINE.to_owned();
    match error {
        Some(e) => {
            let mut reason = "failed · ".to_owned();
            reason.append(e.as_str());
            row.append(red(color, reason.as_str()).as_str());
        },
        None => {
            row.append(accent.paint_bold(color, pad_left(rate, 11).as_str()).as_str());
            let parts = details(peak, moved, loaded);
            let line = join(&parts, " · ");
            let len: usize = line.as_str().unicode_len();
            if width >= 27 && len <= width - 27 {
                let mut tail = "   ".to_owned();
                tail.append(dim(color, line.as_str()).as_str());
                row.append(tail.as_str());
            } else {
                row.append(stack(color, &parts).as_str());
            }
        },
    }
    r.append(row.as_str());
    r
}

fn stack(color: bool, parts: &Vec<String>) -> (r: String)
    ensures
        r@ == stacked(color, texts(parts@)),
{
    let mut r = String::new();
    let mut i: usize = 0;
    proof {
        assert(r@ =~= stacked(color, texts(parts@).take(0)));
    }
    while i < parts.len()
        invariant
            i <= parts@.len(),
            r@ == stacked(color, texts(parts@).take(i as int)),
        decreases parts.len() - i,
    {
        proof {
            let next = texts(parts@).take(i + 1);
            assert(next.drop_last() =~= texts(parts@).take(i as int));
            assert(next.last() == parts@[i as int]@);
        }
        let mut line = "\n".to_owned();
        line.append(spaces(15).as_str());
        line.append(dim(color, parts[i].as_str()).as_str());
        r.append(line.as_str());
        i += 1;
    }
    proof {
        assert(texts(parts@).take(i as int) =~= texts(parts@));
    }
    r
}

/// No reading is above the highest, which is `floor` or one of the readings.
pub proof fn highest_is_highest(vals: Seq<Reading>, floor: Reading, i: int)
    requires
        !floor.nan(),
        0 <= i < vals.len(),
    ensures
        !highest(vals, floor).nan(),
        !highest(vals, floor).lt(vals[i]),
        !highest(vals, floor).lt(floor),
        highest(vals, floor) == floor || vals.contains(highest(vals, floor)),
    decreases vals.len(),
{
    let rest = vals.drop_last();
    lemma_highest(rest, floor);
    if i < rest.len() {
        highest_is_highest(rest, floor, i);
    }
    let h = highest(rest, floor);
    if highest(vals, floor) == vals.last() {
        assert(vals[vals.len() - 1] == vals.last());
    } else if h != floor {
        let k = rest.index_of(h);
        assert(vals[k] == h);
    }
}

proof fn lemma_highest(vals: Seq<Reading>, floor: Reading)
    requires
        !floor.nan(),
    ensures
        !highest(vals, floor).nan(),
        !highest(vals, floor).lt(floor),
        highest(vals, floor) == floor || vals.contains(highest(vals, floor)),
    decreases vals.len(),
{
    if vals.len() > 0 {
        let rest = vals.drop_last();
        lemma_highest(rest, floor);
        let h = highest(rest, floor);
        if highest(vals, floor) == vals.last() {
            assert(vals[vals.len() - 1] == vals.last());
        } else if h != floor {
            let k = rest.index_of(h);
            assert(vals[k] == h);
        }
    }
}

proof fn lemma_run(
    start: Phase,
    ticked: Seq<&mut Phase>,
    observed: Seq<&mut Phase>,
    trace: Trace,
    live: Seq<Interval>,
    done: Seq<bool>,
)
    requires
        trace.len() > 0,
        ticked.len() == observed.len() == live.len() == done.len() == trace.len(),
        start.settled is None,
        start.peak == (Reading { key: ZERO_KEY }),
        *ticked[0] == start,
        forall|i: int|
            0 <= i < trace.len() ==> #[trigger] call_ensures(
                Phase::tick,
                (ticked[i], trace[i].0.0, trace[i].0.1),
                live[i],
            ),
        forall|i: int| 0 <= i < trace.len() ==> *final(ticked[i]) == *#[trigger] observed[i],
        forall|i: int|
            0 <= i < trace.len() ==> #[trigger] call_ensures(
                Phase::observe,
                (observed[i], trace[i].0.0, trace[i].0.1, trace[i].1),
                done[i],
            ),
        forall|i: int|
            0 <= i < trace.len() - 1 ==> *final(#[trigger] observed[i]) == *ticked[i + 1],
    ensures
        final(observed[trace.len() - 1]).dir == start.dir,
        final(observed[trace.len() - 1]).length == start.length,
        final(observed[trace.len() - 1]).settled == settled_after(start.dir, trace),
        final(observed[trace.len() - 1]).peak == peak_after(start.dir, trace),
    decreases trace.len(),
{
    let last = trace.len() - 1;
    assert(call_ensures(Phase::tick, (ticked[last], trace[last].0.0, trace[last].0.1), live[last]));
    assert(*final(ticked[last]) == *observed[last]);
    assert(call_ensures(
        Phase::observe,
        (observed[last], trace[last].0.0, trace[last].0.1, trace[last].1),
        done[last],
    ));
    let rest = trace.drop_last();
    if last > 0 {
        let ts = ticked.drop_last();
        let os = observed.drop_last();
        let ls = live.drop_last();
        let ds = done.drop_last();
        assert forall|i: int| 0 <= i < rest.len() implies #[trigger] call_ensures(
            Phase::tick,
            (ts[i], rest[i].0.0, rest[i].0.1),
            ls[i],
        ) by {
            assert(call_ensures(Phase::tick, (ticked[i], trace[i].0.0, trace[i].0.1), live[i]));
        }
        assert forall|i: int| 0 <= i < rest.len() implies *final(ts[i]) == *#[trigger] os[i] by {
            assert(*final(ticked[i]) == *observed[i]);
        }
        assert forall|i: int| 0 <= i < rest.len() implies #[trigger] call_ensures(
            Phase::observe,
            (os[i], rest[i].0.0, rest[i].0.1, rest[i].1),
            ds[i],
        ) by {
            assert(call_ensures(
                Phase::observe,
                (observed[i], trace[i].0.0, trace[i].0.1, trace[i].1),
                done[i],
            ));
        }
        assert forall|i: int| 0 <= i < rest.len() - 1 implies *final(#[trigger] os[i]) == *ts[i
            + 1] by {
            assert(*final(observed[i]) == *ticked[i + 1]);
        }
        lemma_run(start, ts, os, rest, ls, ds);
        assert(*final(observed[last - 1]) == *ticked[last]);
    } else {
        assert(rest =~= Seq::<((u64, u64), Reading)>::empty());
        assert(settled_after(start.dir, rest) is None);
        assert(peak_after(start.dir, rest) == (Reading { key: ZERO_KEY }));
    }
}

/// The final rate is measured from the first sample taken at 1 s or later on download, at
/// 2 s or later on upload, whatever the live rate was measured from, and from the start
/// only where there is no such sample. A run is a chain of `tick` and `observe` on each
/// sample of `trace`.
pub proof fn final_rates_skip_the_ramp_up(
    dir: Dir,
    secs: u64,
    start: Phase,
    ticked: Seq<&mut Phase>,
    observed: Seq<&mut Phase>,
    trace: Trace,
    live: Seq<Interval>,
    done: Seq<bool>,
    now: u64,
    bytes: u64,
    r: Interval,
)
    requires
        call_ensures(Phase::new, (dir, secs), start),
        trace.len() > 0,
        ticked.len() == observed.len() == live.len() == done.len() == trace.len(),
        *ticked[0] == start,
        forall|i: int|
            0 <= i < trace.len() ==> #[trigger] call_ensures(
                Phase::tick,
                (ticked[i], trace[i].0.0, trace[i].0.1),
                live[i],
            ),
        forall|i: int| 0 <= i < trace.len() ==> *final(ticked[i]) == *#[trigger] observed[i],
        forall|i: int|
            0 <= i < trace.len() ==> #[trigger] call_ensures(
                Phase::observe,
                (observed[i], trace[i].0.0, trace[i].0.1, trace[i].1),
                done[i],
            ),
        forall|i: int|
            0 <= i < trace.len() - 1 ==> *final(#[trigger] observed[i]) == *ticked[i + 1],
        call_ensures(Phase::steady, (&*final(observed[trace.len() - 1]), now, bytes), r),
    ensures
        ({
            let settle: int = if dir is Down {
                1_000_000_000
            } else {
                2_000_000_000
            };
            &&& (forall|i: int| 0 <= i < trace.len() ==> (#[trigger] trace[i]).0.0 < settle) ==> r
                == (Interval { bytes, nanos: now })
            &&& forall|i: int|
                0 <= i < trace.len() && (#[trigger] trace[i]).0.0 >= settle && (forall|j: int|
                    0 <= j < i ==> (#[trigger] trace[j]).0.0 < settle) ==> {
                    &&& r.bytes == if bytes >= trace[i].0.1 {
                        bytes - trace[i].0.1
                    } else {
                        0
                    }
                    &&& r.nanos == if now >= trace[i].0.0 {
                        now - trace[i].0.0
                    } else {
                        0
                    }
                }
        }),
{
    lemma_run(start, ticked, observed, trace, live, done);
    ramp_up_is_skipped(dir, trace);
}

proof fn lemma_peak_attained(dir: Dir, trace: Trace)
    ensures
        peak_after(dir, trace) == (Reading { key: ZERO_KEY }) || exists|i: int|
            0 <= i < trace.len() && (#[trigger] trace[i]).0.0 >= dir.settle_time() && trace[i].1
                == peak_after(dir, trace),
    decreases trace.len(),
{
    if trace.len() > 0 {
        let rest = trace.drop_last();
        lemma_peak_attained(dir, rest);
        let top = peak_after(dir, trace);
        if top == peak_after(dir, rest) {
            if top != (Reading { key: ZERO_KEY }) {
                let i = choose|i: int|
                    0 <= i < rest.len() && (#[trigger] rest[i]).0.0 >= dir.settle_time()
                        && rest[i].1 == top;
                assert(trace[i] == rest[i]);
            }
        } else {
            assert(trace[trace.len() - 1].1 == top);
        }
    }
}

/// The peak that is reported is the final rate, 0 or a live rate of the steady state, and
/// none of these is above it.
pub proof fn peaks_top_the_steady_state(
    dir: Dir,
    secs: u64,
    start: Phase,
    ticked: Seq<&mut Phase>,
    observed: Seq<&mut Phase>,
    trace: Trace,
    live: Seq<Interval>,
    done: Seq<bool>,
    mbps: Reading,
    r: Reading,
)
    requires
        call_ensures(Phase::new, (dir, secs), start),
        trace.len() > 0,
        ticked.len() == observed.len() == live.len() == done.len() == trace.len(),
        *ticked[0] == start,
        forall|i: int|
            0 <= i < trace.len() ==> #[trigger] call_ensures(
                Phase::tick,
                (ticked[i], trace[i].0.0, trace[i].0.1),
                live[i],
            ),
        forall|i: int| 0 <= i < trace.len() ==> *final(ticked[i]) == *#[trigger] observed[i],
        forall|i: int|
            0 <= i < trace.len() ==> #[trigger] call_ensures(
                Phase::observe,
                (observed[i], trace[i].0.0, trace[i].0.1, trace[i].1),
                done[i],
            ),
        forall|i: int|
            0 <= i < trace.len() - 1 ==> *final(#[trigger] observed[i]) == *ticked[i + 1],
        call_ensures(Phase::final_peak, (&*final(observed[trace.len() - 1]), mbps), r),
    ensures
        ({
            let settle: int = if dir is Down {
                1_000_000_000
            } else {
                2_000_000_000
            };
            &&& !r.nan()
            &&& !r.lt(mbps)
            &&& forall|i: int|
                0 <= i < trace.len() && (#[trigger] trace[i]).0.0 >= settle ==> !r.lt(trace[i].1)
            &&& r == mbps || r.key == 0 || exists|i: int|
                0 <= i < trace.len() && (#[trigger] trace[i]).0.0 >= settle && trace[i].1 == r
        }),
{
    lemma_run(start, ticked, observed, trace, live, done);
    lemma_peak_is_number(dir, trace);
    lemma_peak_attained(dir, trace);
    assert forall|i: int|
        0 <= i < trace.len() && (#[trigger] trace[i]).0.0 >= dir.settle_time() implies !r.lt(
        trace[i].1,
    ) by {
        peak_is_highest(dir, trace, i);
    }
}

/// All samples of a direction, its start among them.
pub open spec fn with_start(trace: Trace) -> Seq<Sample> {
    seq![(0u64, 0u64)] + trace.map_values(|x: (Sample, Reading)| x.0)
}

/// `k` of all samples is the one to measure the live rate from, the last being the
/// current one: it is a second old or the first, and the next is not, or is the last.
pub open spec fn second_old(all: Seq<Sample>, k: int) -> bool {
    let now = all.last().0;
    &&& 0 <= k < all.len() - 1
    &&& k > 0 ==> now - all[k].0 >= 1_000_000_000
    &&& k + 1 < all.len() - 1 ==> now - all[k + 1].0 < 1_000_000_000
}

proof fn lemma_window(
    start: Phase,
    ticked: Seq<&mut Phase>,
    observed: Seq<&mut Phase>,
    trace: Trace,
    live: Seq<Interval>,
    done: Seq<bool>,
) -> (k: int)
    requires
        trace.len() > 0,
        ticked.len() == observed.len() == live.len() == done.len() == trace.len(),
        start.window@ == seq![(0u64, 0u64)],
        *ticked[0] == start,
        forall|i: int|
            0 <= i < trace.len() ==> #[trigger] call_ensures(
                Phase::tick,
                (ticked[i], trace[i].0.0, trace[i].0.1),
                live[i],
            ),
        forall|i: int| 0 <= i < trace.len() ==> *final(ticked[i]) == *#[trigger] observed[i],
        forall|i: int|
            0 <= i < trace.len() ==> #[trigger] call_ensures(
                Phase::observe,
                (observed[i], trace[i].0.0, trace[i].0.1, trace[i].1),
                done[i],
            ),
        forall|i: int|
            0 <= i < trace.len() - 1 ==> *final(#[trigger] observed[i]) == *ticked[i + 1],
        forall|i: int, j: int| 0 <= i <= j < trace.len() ==> trace[i].0.0 <= trace[j].0.0,
    ensures
        second_old(with_start(trace), k),
        final(ticked[trace.len() - 1]).window@ == with_start(trace).skip(k),
    decreases trace.len(),
{
    let last = trace.len() - 1;
    let now = trace[last].0.0;
    let all = with_start(trace);
    assert(call_ensures(Phase::tick, (ticked[last], now, trace[last].0.1), live[last]));
    let rest = trace.drop_last();
    let mut from: int = 0;
    if last > 0 {
        let ts = ticked.drop_last();
        let os = observed.drop_last();
        let ls = live.drop_last();
        let ds = done.drop_last();
        assert forall|i: int| 0 <= i < rest.len() implies #[trigger] call_ensures(
            Phase::tick,
            (ts[i], rest[i].0.0, rest[i].0.1),
            ls[i],
        ) by {
            assert(call_ensures(Phase::tick, (ticked[i], trace[i].0.0, trace[i].0.1), live[i]));
        }
        assert forall|i: int| 0 <= i < rest.len() implies *final(ts[i]) == *#[trigger] os[i] by {
            assert(*final(ticked[i]) == *observed[i]);
        }
        assert forall|i: int| 0 <= i < rest.len() implies #[trigger] call_ensures(
            Phase::observe,
            (os[i], rest[i].0.0, rest[i].0.1, rest[i].1),
            ds[i],
        ) by {
            assert(call_ensures(
                Phase::observe,
                (observed[i], trace[i].0.0, trace[i].0.1, trace[i].1),
                done[i],
            ));
        }
        assert forall|i: int| 0 <= i < rest.len() - 1 implies *final(#[trigger] os[i]) == *ts[i
            + 1] by {
            assert(*final(observed[i]) == *ticked[i + 1]);
        }
        from = lemma_window(start, ts, os, rest, ls, ds);
        assert(*final(ticked[last - 1]) == *observed[last - 1]);
        assert(call_ensures(
            Phase::observe,
            (observed[last - 1], trace[last - 1].0.0, trace[last - 1].0.1, trace[last - 1].1),
            done[last - 1],
        ));
        assert(*final(observed[last - 1]) == *ticked[last]);
        assert(ticked[last].window@ == with_start(rest).skip(from));
    } else {
        assert(ticked[0].window@ == seq![(0u64, 0u64)]);
        assert(with_start(rest) =~= seq![(0u64, 0u64)]);
        assert(with_start(rest).skip(0) =~= with_start(rest));
    }
    let grown = ticked[last].window@.push((now, trace[last].0.1));
    assert(all =~= with_start(rest).push((now, trace[last].0.1)));
    assert(grown =~= all.skip(from));
    assert forall|i: int, j: int| 0 <= i <= j < grown.len() implies grown[i].0 <= grown[j].0 by {
        let a = from + i;
        let b = from + j;
        assert(grown[i] == all[a] && grown[j] == all[b]);
        if a > 0 {
            assert(all[a] == trace[a - 1].0 && all[b] == trace[b - 1].0);
            assert(trace[a - 1].0.0 <= trace[b - 1].0.0);
        }
    }
    window_covers_a_second(grown, now);
    let w = trimmed(grown, now);
    let k = all.len() - w.len();
    assert(w =~= all.skip(k));
    assert(w[0] == all[k]);
    if w.len() > 2 {
        assert(w[1] == all[k + 1]);
        assert(since(w[1].0, now) < SECOND);
    }
    if k > 0 && k == from {
        let before = with_start(rest);
        assert(before[k] == all[k]);
        assert(before.last().0 == trace[last - 1].0.0);
        assert(trace[last - 1].0.0 <= trace[last].0.0);
    }
    k
}

/// The live rate covers about a second: it is measured from the newest sample that is at
/// least a second old, from the start while there is none, and never from the current
/// sample itself.
pub proof fn live_rates_cover_a_second(
    dir: Dir,
    secs: u64,
    start: Phase,
    ticked: Seq<&mut Phase>,
    observed: Seq<&mut Phase>,
    trace: Trace,
    live: Seq<Interval>,
    done: Seq<bool>,
)
    requires
        call_ensures(Phase::new, (dir, secs), start),
        trace.len() > 0,
        ticked.len() == observed.len() == live.len() == done.len() == trace.len(),
        *ticked[0] == start,
        forall|i: int|
            0 <= i < trace.len() ==> #[trigger] call_ensures(
                Phase::tick,
                (ticked[i], trace[i].0.0, trace[i].0.1),
                live[i],
            ),
        forall|i: int| 0 <= i < trace.len() ==> *final(ticked[i]) == *#[trigger] observed[i],
        forall|i: int|
            0 <= i < trace.len() ==> #[trigger] call_ensures(
                Phase::observe,
                (observed[i], trace[i].0.0, trace[i].0.1, trace[i].1),
                done[i],
            ),
        forall|i: int|
            0 <= i < trace.len() - 1 ==> *final(#[trigger] observed[i]) == *ticked[i + 1],
        forall|i: int, j: int| 0 <= i <= j < trace.len() ==> trace[i].0.0 <= trace[j].0.0,
    ensures
        exists|k: int| #[trigger]
            second_old(with_start(trace), k) && live.last().nanos == trace.last().0.0 - with_start(
                trace,
            )[k].0 && live.last().bytes == if trace.last().0.1 >= with_start(trace)[k].1 {
                trace.last().0.1 - with_start(trace)[k].1
            } else {
                0
            },
{
    let k = lemma_window(start, ticked, observed, trace, live, done);
    let last = trace.len() - 1;
    let all = with_start(trace);
    assert(call_ensures(Phase::tick, (ticked[last], trace[last].0.0, trace[last].0.1), live[last]));
    assert(final(ticked[last]).window@[0] == all[k]);
    if k > 0 {
        assert(all[k] == trace[k - 1].0);
        assert(trace[k - 1].0.0 <= trace[last].0.0);
    }
    assert(second_old(all, k));
}

/// A direction is done once its seconds have passed, and every sample leaves its rate.
pub proof fn directions_take_their_time(dir: Dir, secs: u64, start: Phase, now: u64, bytes: u64, mbps: Reading)
    requires
        call_ensures(Phase::new, (dir, secs), start),
    ensures
        forall|p: &mut Phase, done: bool| #[trigger]
            call_ensures(Phase::observe, (p, now, bytes, mbps), done) && p.length == start.length
                ==> done == (now >= secs * 1_000_000_000) && final(p).history@ == p.history@.push(
                mbps,
            ) && final(p).length == p.length && final(p).dir == p.dir,
        start.dir == dir,
{
}

/// A transfer failed exactly if less than 1 MB moved; then the last error is told, or that
/// there was none.
pub proof fn a_megabyte_is_success(bytes: u64, last_error: Option<String>, r: Option<String>)
    requires
        call_ensures(failure, (bytes, last_error), r),
    ensures
        r is None <==> bytes >= 1_000_000,
        r matches Some(t) ==> t@ == match last_error {
            Some(e) => e@,
            None => "no data transferred"@,
        },
{
}

/// Who is known comes before where, with the airport code behind the city; what is not
/// known is left out.
pub proof fn server_lines_tell_all_that_is_known(m: Meta, r: String)
    requires
        call_ensures(server_line, (&m,), r),
    ensures
        ({
            let iata = match m.colo {
                Some(c) => c.iata,
                None => None,
            };
            let place = match (m.city, iata) {
                (Some(c), Some(i)) => c@ + " ("@ + i@ + ")"@,
                (Some(c), None) => c@,
                (None, Some(i)) => i@,
                (None, None) => seq![],
            };
            r@ == match m.as_organization {
                Some(o) => if m.city is None && iata is None {
                    o@
                } else {
                    o@ + " · "@ + place
                },
                None => place,
            }
        }),
{
}

/// A report's location is the server line without the provider, where there is one.
pub proof fn locations_are_server_lines(m: Meta, n: Meta, id: Identity, line: String)
    requires
        call_ensures(identity, (&m,), id),
        call_ensures(server_line, (&n,), line),
        n.as_organization is None,
        n.city == m.city,
        n.colo == m.colo,
    ensures
        line@.len() == 0 <==> id.location is None,
        id.location matches Some(t) ==> t@ == line@,
        text_of(id.isp) == text_of(m.as_organization),
        text_of(id.ip) == text_of(m.client_ip),
{
}

/// A test that has an address measures latency, then downloads, then uploads unless that
/// is skipped, and then is over; without an address it goes on to download at once. Where
/// it is not live it writes nothing and ends in a report.
pub proof fn tests_take_their_course(event: Event)
    ensures
        forall|s: &mut Session, turn: Turn| #[trigger]
            call_ensures(Session::step, (s, &event), turn) && s.expects(event) ==> {
                let end = if s.live {
                    Task::Stop
                } else {
                    Task::Report
                };
                &&& final(s).live == s.live && final(s).no_upload == s.no_upload
                    && final(s).color == s.color
                &&& !s.live ==> turn.print@.len() == 0
                &&& event matches Event::Connected(_, resolved) ==> if resolved {
                    turn.task == Task::MeasureLatency(10) && final(s).stage == Stage::Measuring
                } else {
                    turn.task == Task::Transfer(Dir::Down) && final(s).stage
                        == Stage::Transferring(Dir::Down)
                }
                &&& event is Measured ==> turn.task == Task::Transfer(Dir::Down) && final(s).stage
                    == Stage::Transferring(Dir::Down)
                &&& event is Transferred && s.stage == Stage::Transferring(Dir::Down)
                    && !s.no_upload ==> turn.task == Task::Transfer(Dir::Up) && final(s).stage
                    == Stage::Transferring(Dir::Up) && turn.print@.len() == 0
                &&& event is Transferred && (s.stage == Stage::Transferring(Dir::Up)
                    || s.no_upload) ==> turn.task == end && final(s).stage == Stage::Finished
            },
{
}

/// A session waits for the metadata first, then for what its task brings.
pub proof fn sessions_start_with_the_metadata(
    opts: Opts,
    is_terminal: bool,
    color: bool,
    r: (Session, Turn),
    m: Meta,
    resolved: bool,
)
    requires
        call_ensures(Session::begin, (&opts, is_terminal, color), r),
    ensures
        r.1.task == Task::Connect,
        r.0.expects(Event::Connected(m, resolved)),
        r.0.live == (is_terminal && !opts.json),
        r.0.no_upload == opts.no_upload,
        r.0.color == color,
        !r.0.live <==> r.1.print@.len() == 0,
{
    reveal_strlit("\n\n");
}

/// On a live display the latency row ends in the latency and the jitter, or says that
/// there is none.
pub proof fn latency_is_shown(event: Event)
    ensures
        forall|s: &mut Session, turn: Turn| #[trigger]
            call_ensures(Session::step, (s, &event), turn) && s.live && !s.color && s.stage
                == Stage::Measuring && event is Measured ==> match event->Measured_0 {
                Some(t) => ends_in(
                    turn.print@,
                    t.ms@ + ("   "@ + ("jitter "@ + t.jitter@)) + "\n"@,
                ),
                None => ends_in(turn.print@, "unavailable"@ + "\n"@),
            },
{
    assert forall|s: &mut Session, turn: Turn| #[trigger]
        call_ensures(Session::step, (s, &event), turn) && s.live && !s.color && s.stage
            == Stage::Measuring && event is Measured implies match event->Measured_0 {
        Some(t) => ends_in(turn.print@, t.ms@ + ("   "@ + ("jitter "@ + t.jitter@)) + "\n"@),
        None => ends_in(turn.print@, "unavailable"@ + "\n"@),
    } by {
        let l = event->Measured_0;
        assert(turn.print@ == latency_text(false, l));
        let head = CLEAR_LINE@ + row_label_text(false, "◷"@, "Latency"@, Accent::Cyan);
        match l {
            Some(t) => {
                let tail = t.ms@ + ("   "@ + ("jitter "@ + t.jitter@)) + "\n"@;
                let pad = right_aligned(t.ms@, 11).take(right_aligned(t.ms@, 11).len() - t.ms@.len());
                assert(turn.print@ =~= head + pad + tail);
                assert(turn.print@.skip(turn.print@.len() - tail.len()) =~= tail);
            },
            None => {
                let tail = "unavailable"@ + "\n"@;
                assert(turn.print@.skip(turn.print@.len() - tail.len()) =~= tail);
            },
        }
    }
}

/// `s` ends in `tail`.
pub open spec fn ends_in(s: Seq<char>, tail: Seq<char>) -> bool {
    tail.len() <= s.len() && s.skip(s.len() - tail.len()) == tail
}

/// What is shown is the end of the history: as many readings as there is room for, the
/// one `k` from its end being the one `k` from the end of the history, so the last is the
/// newest. Nothing shown is above the highest, which is shown itself or the floor.
pub proof fn the_newest_readings_are_visible(
    history: Vec<Reading>,
    width: usize,
    floor: Reading,
    r: (Vec<Reading>, Reading),
)
    requires
        call_ensures(visible, (&history, width, floor), r),
    ensures
        r.0@.len() == if history@.len() < width {
            history@.len()
        } else {
            width as nat
        },
        forall|k: int|
            0 <= k < r.0@.len() ==> #[trigger] r.0@[r.0@.len() - 1 - k] == history@[history@.len()
                - 1 - k],
        r.1 == floor || r.0@.contains(r.1),
        !floor.nan() ==> !r.1.lt(floor) && forall|k: int|
            0 <= k < r.0@.len() ==> !r.1.lt(#[trigger] r.0@[k]),
{
    assert forall|k: int| 0 <= k < r.0@.len() implies #[trigger] r.0@[r.0@.len() - 1 - k]
        == history@[history@.len() - 1 - k] by {
        the_newest_end_the_list(history@, width as nat, k);
    }
    lemma_highest_is_there(r.0@, floor);
    if !floor.nan() {
        lemma_highest(r.0@, floor);
        assert forall|k: int| 0 <= k < r.0@.len() implies !r.1.lt(#[trigger] r.0@[k]) by {
            highest_is_highest(r.0@, floor, k);
        }
    }
}

pub proof fn lemma_highest_is_there(vals: Seq<Reading>, floor: Reading)
    ensures
        highest(vals, floor) == floor || vals.contains(highest(vals, floor)),
    decreases vals.len(),
{
    if vals.len() > 0 {
        let rest = vals.drop_last();
        lemma_highest_is_there(rest, floor);
        let h = highest(rest, floor);
        if highest(vals, floor) == vals.last() {
            assert(vals[vals.len() - 1] == vals.last());
        } else if h != floor {
            let k = rest.index_of(h);
            assert(vals[k] == h);
        }
    }
}

/// The sparkline shows the newest 24 live rates, on a scale of at least 1 Mbps.
pub proof fn sparklines_show_the_newest(history: Vec<Reading>, r: (Vec<Reading>, Reading))
    requires
        call_ensures(spark, (&history,), r),
    ensures
        r.0@.len() == if history@.len() < 24 {
            history@.len()
        } else {
            24
        },
        forall|k: int|
            0 <= k < r.0@.len() ==> #[trigger] r.0@[r.0@.len() - 1 - k] == history@[history@.len()
                - 1 - k],
        r.1.key == 0x3FF0_0000_0000_0000 || r.0@.contains(r.1),
        r.1.key >= 0x3FF0_0000_0000_0000,
        forall|k: int| 0 <= k < r.0@.len() ==> !r.1.lt(#[trigger] r.0@[k]),
{
    let floor = Reading { key: ONE_KEY };
    assert forall|k: int| 0 <= k < r.0@.len() implies #[trigger] r.0@[r.0@.len() - 1 - k]
        == history@[history@.len() - 1 - k] by {
        the_newest_end_the_list(history@, 24, k);
    }
    lemma_highest(r.0@, floor);
    assert forall|k: int| 0 <= k < r.0@.len() implies !r.1.lt(#[trigger] r.0@[k]) by {
        highest_is_highest(r.0@, floor, k);
    }
}

/// A live row never is wider than its terminal, as long as that has room for the label
/// and the rate. On a wider one the progress bar and then the sparkline are added.
pub proof fn live_rows_fit(
    dir: Dir,
    rate: &str,
    eighths: Vec<usize>,
    filled: usize,
    secs: &str,
    width: usize,
    r: String,
)
    requires
        call_ensures(draw_live, (false, dir, rate, &eighths, filled, secs, width), r),
        rate@.len() <= 11,
        eighths@.len() <= 24,
        secs@.len() <= 3,
    ensures
        r@.len() >= 5 + 24,
        width >= 24 ==> r@.len() - 5 <= width,
        width < 48 <==> r@.len() == 5 + 24,
        width >= 72 ==> r@.subrange(31, (31 + eighths@.len()) as int)
            == sparkline_text(eighths@),
        width >= 48 ==> ends_in(r@, secs@ + "s"@),
{
    reveal_strlit("  ");
    reveal_strlit(" ");
    reveal_strlit("s");
    reveal_strlit("↓");
    reveal_strlit("↑");
    reveal_strlit("Download");
    reveal_strlit("Upload");
    reveal_strlit("\r\x1b[2K");
    let row = CLEAR_LINE@ + rate_row(false, dir, rate@);
    assert(row.len() == 29);
    if width >= 72 {
        assert(r@.subrange(31, (31 + eighths@.len()) as int) =~= sparkline_text(eighths@));
    }
    if width >= 48 {
        let tail = secs@ + "s"@;
        assert(r@.skip(r@.len() - tail.len()) =~= tail);
    }
}

proof fn lemma_stacked(color: bool, parts: Seq<Seq<char>>)
    requires
        parts.len() > 0,
    ensures
        stacked(color, parts).contains('\n'),
{
    reveal_strlit("\n");
    let head = stacked(color, parts.drop_last());
    assert(stacked(color, parts)[head.len() as int] == '\n');
}

/// A result row that is in one line fits its terminal.
pub proof fn result_rows_fit(
    dir: Dir,
    rate: &str,
    peak: &str,
    moved: u64,
    loaded: Option<LoadedText>,
    width: usize,
    r: String,
)
    requires
        call_ensures(
            result_line,
            (false, dir, &None::<String>, rate, peak, moved, &loaded, width),
            r,
        ),
        rate@.len() <= 11,
    ensures
        !r@.contains('\n') ==> r@.len() - 5 <= width,
{
    reveal_strlit("  ");
    reveal_strlit("   ");
    reveal_strlit(" ");
    reveal_strlit("↓");
    reveal_strlit("↑");
    reveal_strlit("Download");
    reveal_strlit("Upload");
    reveal_strlit("\r\x1b[2K");
    let parts = details_text(peak@, moved, loaded);
    let head = CLEAR_LINE@ + rate_row(false, dir, rate@);
    assert(head.len() == 29);
    let line = joined(parts, " · "@);
    assert(r@ =~= head + details_row(false, parts, width as nat));
    if 27 + line.len() > width {
        lemma_stacked(false, parts);
        let tail = stacked(false, parts);
        let i = tail.index_of('\n');
        assert(r@[head.len() + i] == '\n');
    }
}

/// A failed direction tells why, and nothing behind it.
pub proof fn failed_rows_tell_why(
    dir: Dir,
    error: String,
    rate: &str,
    peak: &str,
    moved: u64,
    loaded: Option<LoadedText>,
    width: usize,
    r: String,
)
    requires
        call_ensures(
            result_line,
            (false, dir, &Some(error), rate, peak, moved, &loaded, width),
            r,
        ),
    ensures
        ends_in(r@, "failed · "@ + error@),
{
    let tail = "failed · "@ + error@;
    assert(r@.skip(r@.len() - tail.len()) =~= tail);
}

/// Where the details fit in one line they come peak first, then what moved, then the
/// loaded latency, if there is one, with what it is above the idle one.
pub proof fn details_are_told_in_order(
    dir: Dir,
    rate: &str,
    peak: &str,
    moved: u64,
    loaded: Option<LoadedText>,
    width: usize,
    r: String,
    size: String,
)
    requires
        call_ensures(
            result_line,
            (false, dir, &None::<String>, rate, peak, moved, &loaded, width),
            r,
        ),
        call_ensures(bytes, (moved,), size),
    ensures
        ({
            let base = "peak "@ + peak@ + " · "@ + size@;
            let line = match loaded {
                None => base,
                Some(l) => base + " · "@ + ("loaded latency "@ + l.ms@ + match l.delta {
                    Some(d) => " (+"@ + d@ + ")"@,
                    None => seq![],
                }),
            };
            27 + line.len() <= width ==> ends_in(r@, rate@ + ("   "@ + line))
        }),
{
    reveal_with_fuel(joined, 4);
    let parts = details_text(peak@, moved, loaded);
    let base = "peak "@ + peak@ + " · "@ + size@;
    let two = seq!["peak "@ + peak@, size@];
    assert(two.drop_last() =~= seq!["peak "@ + peak@]);
    assert(joined(two, " · "@) == base);
    let line = match loaded {
        None => base,
        Some(l) => base + " · "@ + ("loaded latency "@ + l.ms@ + match l.delta {
            Some(d) => " (+"@ + d@ + ")"@,
            None => seq![],
        }),
    };
    if loaded is Some {
        assert(parts.drop_last() =~= two);
    } else {
        assert(parts =~= two);
    }
    assert(joined(parts, " · "@) == line);
    if 27 + line.len() <= width {
        let tail = rate@ + ("   "@ + line);
        assert(r@.skip(r@.len() - tail.len()) =~= tail);
    }
}

/// A live row shows the rate in its column, and the progress bar before the seconds.
pub proof fn live_rows_show_the_progress(
    dir: Dir,
    rate: &str,
    eighths: Vec<usize>,
    filled: usize,
    secs: &str,
    width: usize,
    r: String,
    accent: Accent,
    bar: String,
)
    requires
        call_ensures(draw_live, (false, dir, rate, &eighths, filled, secs, width), r),
        call_ensures(Dir::accent, (dir,), accent),
        call_ensures(progress, (false, filled, 12usize, accent), bar),
        rate@.len() <= 11,
        eighths@.len() <= 24,
        secs@.len() <= 2,
    ensures
        r@.subrange(29 - rate@.len(), 29) == rate@,
        48 <= width < 72 ==> r@.subrange(31, 43) == bar@ && r@.len() == 47,
        72 <= width ==> r@.subrange(57, 69) == bar@ && r@.len() == 73,
{
    reveal_strlit("  ");
    reveal_strlit(" ");
    reveal_strlit("s");
    reveal_strlit("↓");
    reveal_strlit("↑");
    reveal_strlit("Download");
    reveal_strlit("Upload");
    reveal_strlit("\r\x1b[2K");
    let row = CLEAR_LINE@ + rate_row(false, dir, rate@);
    assert(row.len() == 29);
    assert(r@.subrange(29 - rate@.len(), 29) =~= rate@);
    if 48 <= width < 72 {
        assert(r@.subrange(31, 43) =~= bar@);
    }
    if 72 <= width {
        assert(r@.subrange(57, 69) =~= bar@);
    }
}

/// Where the details do not fit in one line each stands on its own, in the same order,
/// under the rate.
pub proof fn narrow_terminals_stack(
    dir: Dir,
    rate: &str,
    peak: &str,
    moved: u64,
    loaded: Option<LoadedText>,
    width: usize,
    r: String,
    size: String,
)
    requires
        call_ensures(
            result_line,
            (false, dir, &None::<String>, rate, peak, moved, &loaded, width),
            r,
        ),
        call_ensures(bytes, (moved,), size),
    ensures
        ({
            let indent = "\n"@ + blanks(15);
            let two = indent + ("peak "@ + peak@) + (indent + size@);
            let base = 5 + peak@.len() + 3 + size@.len();
            match loaded {
                None => 27 + base > width ==> ends_in(r@, rate@ + two),
                Some(l) => {
                    let last = "loaded latency "@ + l.ms@ + match l.delta {
                        Some(d) => " (+"@ + d@ + ")"@,
                        None => seq![],
                    };
                    27 + base + 3 + last.len() > width ==> ends_in(r@, rate@ + (two + (indent + last)))
                },
            }
        }),
{
    reveal_strlit("peak ");
    reveal_strlit(" · ");
    reveal_with_fuel(joined, 4);
    reveal_with_fuel(stacked, 4);
    let parts = details_text(peak@, moved, loaded);
    let two = seq!["peak "@ + peak@, size@];
    assert(two.drop_last() =~= seq!["peak "@ + peak@]);
    assert(seq!["peak "@ + peak@].drop_last() =~= Seq::<Seq<char>>::empty());
    if loaded is Some {
        assert(parts.drop_last() =~= two);
    } else {
        assert(parts =~= two);
    }
    let indent = "\n"@ + blanks(15);
    let below = indent + ("peak "@ + peak@) + (indent + size@);
    assert(stacked(false, two) =~= below);
    let all = match loaded {
        None => below,
        Some(l) => below + (indent + ("loaded latency "@ + l.ms@ + match l.delta {
            Some(d) => " (+"@ + d@ + ")"@,
            None => seq![],
        })),
    };
    assert(stacked(false, parts) =~= all);
    if 27 + joined(parts, " · "@).len() > width {
        let tail = rate@ + all;
        assert(r@.skip(r@.len() - tail.len()) =~= tail);
    }
}

/// On a live display the headline takes the place of the first line and names the
/// connection, as far as it is known; the latency row is begun below it, and ended at once
/// where there is no address to measure.
pub proof fn headlines_name_the_connection(m: Meta, resolved: bool, line: String)
    requires
        call_ensures(server_line, (&m,), line),
    ensures
        forall|s: &mut Session, turn: Turn| #[trigger]
            call_ensures(Session::step, (s, &Event::Connected(m, resolved)), turn) && s.live
                && !s.color && s.stage == Stage::Connecting ==> {
                let label = "  "@ + "◷"@ + " "@ + ("Latency"@ + blanks(2));
                let head = "\x1b[2A"@ + "\r\x1b[2K"@ + ("  "@ + "speed"@ + if line@.len() > 0 {
                    "  "@ + line@
                } else {
                    seq![]
                }) + "\n\n"@ + label + "measuring…"@;
                turn.print@ == if resolved {
                    head
                } else {
                    head + ("\r\x1b[2K"@ + label + "unavailable"@ + "\n"@)
                }
            },
{
    reveal_strlit("Latency");
    assert(left_aligned("Latency"@, 9) == "Latency"@ + blanks(2));
}

proof fn lemma_row_label_shows(color: bool, icon: Seq<char>, label: Seq<char>, accent: Accent)
    requires
        bare(icon),
        bare(label),
    ensures
        shows(
            row_label_text(color, icon, label, accent),
            row_label_text(false, icon, label, accent),
        ),
        bare(row_label_text(false, icon, label, accent)),
{
    reveal_strlit("  ");
    reveal_strlit(" ");
    codes_have_no_letters(accent);
    let name = left_aligned(label, 9);
    let a = styled(color, accent.code(), icon);
    let b = styled(color, "1"@, name);
    bare_texts_show("  "@);
    bare_texts_show(" "@);
    styles_do_not_show(color, accent.code(), icon);
    styles_do_not_show(color, "1"@, name);
    texts_show_in_turn("  "@, "  "@, a, icon);
    texts_show_in_turn("  "@ + a, "  "@ + icon, " "@, " "@);
    texts_show_in_turn("  "@ + a + " "@, "  "@ + icon + " "@, b, name);
}

proof fn lemma_dir_label_shows(color: bool, dir: Dir)
    ensures
        shows(
            row_label_text(color, dir.icon_text(), dir.label_text(), dir.accent_of()),
            row_label_text(false, dir.icon_text(), dir.label_text(), dir.accent_of()),
        ),
        bare(row_label_text(false, dir.icon_text(), dir.label_text(), dir.accent_of())),
{
    reveal_strlit("↓");
    reveal_strlit("↑");
    reveal_strlit("Download");
    reveal_strlit("Upload");
    lemma_row_label_shows(color, dir.icon_text(), dir.label_text(), dir.accent_of());
}

proof fn lemma_rate_row_shows(color: bool, dir: Dir, rate: Seq<char>)
    requires
        bare(rate),
    ensures
        shows(rate_row(color, dir, rate), rate_row(false, dir, rate)),
        bare(rate_row(false, dir, rate)),
{
    let accent = dir.accent_of();
    let figure = right_aligned(rate, 11);
    lemma_dir_label_shows(color, dir);
    codes_have_no_letters(accent);
    styles_do_not_show(color, accent.bold_code(), figure);
    texts_show_in_turn(
        row_label_text(color, dir.icon_text(), dir.label_text(), accent),
        row_label_text(false, dir.icon_text(), dir.label_text(), accent),
        styled(color, accent.bold_code(), figure),
        figure,
    );
}

proof fn lemma_clear_line_shows()
    ensures
        shows(CLEAR_LINE@, seq!['\r']),
{
    reveal_strlit("\r\x1b[2K");
    let rest = CLEAR_LINE@.skip(1);
    bare_texts_show(seq!['\r']);
    sequences_do_not_show(rest);
    texts_show_in_turn(seq!['\r'], seq!['\r'], rest, seq![]);
    assert(seq!['\r'] + rest =~= CLEAR_LINE@);
    assert(seq!['\r'] + Seq::<char>::empty() =~= seq!['\r']);
}

/// The sparkline's part of a live row.
spec fn spark_part(color: bool, accent: Accent, eighths: Seq<usize>, width: nat) -> Seq<char> {
    if width >= 72 {
        "  "@ + styled(color, accent.code(), left_aligned(sparkline_text(eighths), 24))
    } else {
        seq![]
    }
}

/// The progress bar's part of a live row.
spec fn bar_part(color: bool, accent: Accent, filled: nat, secs: Seq<char>, width: nat) -> Seq<char> {
    if width >= 48 {
        "  "@ + progress_text(filled, 12, accent, color) + " "@ + styled(
            color,
            "2"@,
            right_aligned(secs, 2) + "s"@,
        )
    } else {
        seq![]
    }
}

proof fn lemma_spark_shows(color: bool, accent: Accent, eighths: Seq<usize>, width: nat)
    ensures
        shows(
            spark_part(color, accent, eighths, width),
            spark_part(false, accent, eighths, width),
        ),
{
    reveal_strlit("  ");
    codes_have_no_letters(accent);
    bare_texts_show("  "@);
    bare_texts_show(seq![]);
    let line = left_aligned(sparkline_text(eighths), 24);
    styles_do_not_show(color, accent.code(), line);
    texts_show_in_turn("  "@, "  "@, styled(color, accent.code(), line), line);
}

proof fn lemma_progress_shows(color: bool, accent: Accent, filled: nat, width: nat)
    ensures
        shows(
            progress_text(filled, width, accent, color),
            progress_text(filled, width, accent, false),
        ),
{
    let done = if filled < width {
        filled
    } else {
        width
    };
    let rest = (width - done) as nat;
    codes_have_no_letters(accent);
    styles_do_not_show(color, accent.code(), run_of('━', done));
    styles_do_not_show(color, "2"@, run_of('─', rest));
    texts_show_in_turn(
        styled(color, accent.code(), run_of('━', done)),
        run_of('━', done),
        styled(color, "2"@, run_of('─', rest)),
        run_of('─', rest),
    );
}

proof fn lemma_bar_shows(color: bool, accent: Accent, filled: nat, secs: Seq<char>, width: nat)
    requires
        bare(secs),
    ensures
        shows(
            bar_part(color, accent, filled, secs, width),
            bar_part(false, accent, filled, secs, width),
        ),
{
    reveal_strlit("  ");
    reveal_strlit(" ");
    reveal_strlit("s");
    codes_have_no_letters(accent);
    bare_texts_show("  "@);
    bare_texts_show(" "@);
    bare_texts_show(seq![]);
    lemma_progress_shows(color, accent, filled, 12);
    let bar = progress_text(filled, 12, accent, color);
    let plain = progress_text(filled, 12, accent, false);
    let time = right_aligned(secs, 2) + "s"@;
    styles_do_not_show(color, "2"@, time);
    texts_show_in_turn("  "@, "  "@, bar, plain);
    texts_show_in_turn("  "@ + bar, "  "@ + plain, " "@, " "@);
    texts_show_in_turn("  "@ + bar + " "@, "  "@ + plain + " "@, styled(color, "2"@, time), time);
}

proof fn lemma_behind_clear_line(a: Seq<char>, b: Seq<char>, c: Seq<char>)
    ensures
        seq!['\r'] + (CLEAR_LINE@ + a + b + c).skip(5) == seq!['\r'] + a + b + c,
        seq!['\r'] + (CLEAR_LINE@ + a).skip(5) == seq!['\r'] + a,
{
    reveal_strlit("\r\x1b[2K");
    assert((CLEAR_LINE@ + a + b + c).skip(5) =~= a + b + c);
    assert((CLEAR_LINE@ + a).skip(5) =~= a);
    assert(seq!['\r'] + (a + b + c) =~= seq!['\r'] + a + b + c);
}

proof fn lemma_live_shows(
    color: bool,
    dir: Dir,
    rate: Seq<char>,
    eighths: Seq<usize>,
    filled: nat,
    secs: Seq<char>,
    width: nat,
)
    requires
        bare(rate),
        bare(secs),
    ensures
        shows(
            live_text(color, dir, rate, eighths, filled, secs, width),
            seq!['\r'] + live_text(false, dir, rate, eighths, filled, secs, width).skip(5),
        ),
{
    let accent = dir.accent_of();
    let row = rate_row(color, dir, rate);
    let plain_row = rate_row(false, dir, rate);
    let spark = spark_part(color, accent, eighths, width);
    let plain_spark = spark_part(false, accent, eighths, width);
    let bar = bar_part(color, accent, filled, secs, width);
    let plain_bar = bar_part(false, accent, filled, secs, width);
    lemma_clear_line_shows();
    lemma_rate_row_shows(color, dir, rate);
    lemma_spark_shows(color, accent, eighths, width);
    lemma_bar_shows(color, accent, filled, secs, width);
    texts_show_in_turn(CLEAR_LINE@, seq!['\r'], row, plain_row);
    texts_show_in_turn(CLEAR_LINE@ + row, seq!['\r'] + plain_row, spark, plain_spark);
    texts_show_in_turn(
        CLEAR_LINE@ + row + spark,
        seq!['\r'] + plain_row + plain_spark,
        bar,
        plain_bar,
    );
    lemma_behind_clear_line(plain_row, plain_spark, plain_bar);
}

/// A colored live row shows as the plain one.
pub proof fn colored_live_rows_show_the_same(
    dir: Dir,
    rate: &str,
    eighths: Vec<usize>,
    filled: usize,
    secs: &str,
    width: usize,
    colored: String,
    plain: String,
)
    requires
        call_ensures(draw_live, (true, dir, rate, &eighths, filled, secs, width), colored),
        call_ensures(draw_live, (false, dir, rate, &eighths, filled, secs, width), plain),
        bare(rate@),
        bare(secs@),
    ensures
        shown_of(colored@) == shown_of(plain@),
        shown_of(plain@) == seq!['\r'] + plain@.skip(5),
{
    lemma_live_shows(true, dir, rate@, eighths@, filled as nat, secs@, width as nat);
    lemma_live_shows(false, dir, rate@, eighths@, filled as nat, secs@, width as nat);
    let t = seq!['\r'] + plain@.skip(5);
    shown_is_shown(colored@, t);
    shown_is_shown(plain@, t);
}

proof fn lemma_joined_bare(parts: Seq<Seq<char>>, sep: Seq<char>)
    requires
        forall|i: int| 0 <= i < parts.len() ==> bare(#[trigger] parts[i]),
        bare(sep),
    ensures
        bare(joined(parts, sep)),
    decreases parts.len(),
{
    if parts.len() > 1 {
        lemma_joined_bare(parts.drop_last(), sep);
        assert(bare(parts[parts.len() - 1]));
    } else if parts.len() == 1 {
        assert(bare(parts[0]));
    }
}

proof fn lemma_stacked_shows(color: bool, parts: Seq<Seq<char>>)
    requires
        forall|i: int| 0 <= i < parts.len() ==> bare(#[trigger] parts[i]),
    ensures
        shows(stacked(color, parts), stacked(false, parts)),
    decreases parts.len(),
{
    if parts.len() == 0 {
        bare_texts_show(seq![]);
    } else {
        reveal_strlit("\n");
        let rest = parts.drop_last();
        let last = parts.last();
        assert(bare(parts[parts.len() - 1]));
        lemma_stacked_shows(color, rest);
        codes_have_no_letters(Accent::Cyan);
        let indent = "\n"@ + blanks(15);
        bare_texts_show(indent);
        styles_do_not_show(color, "2"@, last);
        texts_show_in_turn(indent, indent, styled(color, "2"@, last), last);
        texts_show_in_turn(
            stacked(color, rest),
            stacked(false, rest),
            indent + styled(color, "2"@, last),
            indent + last,
        );
    }
}

proof fn lemma_result_shows(
    color: bool,
    dir: Dir,
    error: Option<Seq<char>>,
    rate: Seq<char>,
    parts: Seq<Seq<char>>,
    width: nat,
)
    requires
        bare(rate),
        error matches Some(e) ==> bare(e),
        forall|i: int| 0 <= i < parts.len() ==> bare(#[trigger] parts[i]),
    ensures
        shows(
            result_text(color, dir, error, rate, parts, width),
            seq!['\r'] + result_text(false, dir, error, rate, parts, width).skip(5),
        ),
{
    reveal_strlit("   ");
    reveal_strlit(" · ");
    reveal_strlit("failed · ");
    reveal_strlit("\r\x1b[2K");
    lemma_clear_line_shows();
    lemma_dir_label_shows(color, dir);
    lemma_rate_row_shows(color, dir, rate);
    codes_have_no_letters(dir.accent_of());
    let plain = result_text(false, dir, error, rate, parts, width);
    match error {
        Some(e) => {
            let accent = dir.accent_of();
            let label = row_label_text(color, dir.icon_text(), dir.label_text(), accent);
            let bare_label = row_label_text(false, dir.icon_text(), dir.label_text(), accent);
            let why = "failed · "@ + e;
            styles_do_not_show(color, "31"@, why);
            texts_show_in_turn(label, bare_label, styled(color, "31"@, why), why);
            texts_show_in_turn(
                CLEAR_LINE@,
                seq!['\r'],
                label + styled(color, "31"@, why),
                bare_label + why,
            );
            assert(plain.skip(5) =~= bare_label + why);
        },
        None => {
            let line = joined(parts, " · "@);
            lemma_joined_bare(parts, " · "@);
            bare_texts_show("   "@);
            styles_do_not_show(color, "2"@, line);
            texts_show_in_turn("   "@, "   "@, styled(color, "2"@, line), line);
            lemma_stacked_shows(color, parts);
            let more = details_row(color, parts, width);
            let plain_more = details_row(false, parts, width);
            let row = rate_row(color, dir, rate);
            let plain_row = rate_row(false, dir, rate);
            texts_show_in_turn(row, plain_row, more, plain_more);
            texts_show_in_turn(CLEAR_LINE@, seq!['\r'], row + more, plain_row + plain_more);
            assert(plain.skip(5) =~= plain_row + plain_more);
        },
    }
}

proof fn lemma_details_bare(peak: Seq<char>, moved: u64, loaded: Option<LoadedText>)
    requires
        bare(peak),
        loaded matches Some(l) ==> bare(l.ms@) && (l.delta matches Some(d) ==> bare(d@)),
    ensures
        forall|i: int|
            0 <= i < details_text(peak, moved, loaded).len() ==> bare(
                #[trigger] details_text(peak, moved, loaded)[i],
            ),
{
    reveal_strlit("peak ");
    reveal_strlit("loaded latency ");
    reveal_strlit(" (+");
    reveal_strlit(")");
    figures_are_bare(moved as nat);
}

/// A colored result row shows as the plain one.
pub proof fn colored_result_rows_show_the_same(
    dir: Dir,
    error: Option<String>,
    rate: &str,
    peak: &str,
    moved: u64,
    loaded: Option<LoadedText>,
    width: usize,
    colored: String,
    plain: String,
)
    requires
        call_ensures(
            result_line,
            (true, dir, &error, rate, peak, moved, &loaded, width),
            colored,
        ),
        call_ensures(result_line, (false, dir, &error, rate, peak, moved, &loaded, width), plain),
        bare(rate@),
        bare(peak@),
        error matches Some(e) ==> bare(e@),
        loaded matches Some(l) ==> bare(l.ms@) && (l.delta matches Some(d) ==> bare(d@)),
    ensures
        shown_of(colored@) == shown_of(plain@),
        shown_of(plain@) == seq!['\r'] + plain@.skip(5),
{
    let parts = details_text(peak@, moved, loaded);
    lemma_details_bare(peak@, moved, loaded);
    lemma_result_shows(true, dir, text_of(error), rate@, parts, width as nat);
    lemma_result_shows(false, dir, text_of(error), rate@, parts, width as nat);
    let t = seq!['\r'] + plain@.skip(5);
    shown_is_shown(colored@, t);
    shown_is_shown(plain@, t);
}

proof fn lemma_latency_shows(color: bool, l: Option<LatencyText>)
    requires
        l matches Some(t) ==> bare(t.ms@) && bare(t.jitter@),
    ensures
        shows(latency_text(color, l), seq!['\r'] + latency_text(false, l).skip(5)),
{
    reveal_strlit("◷");
    reveal_strlit("Latency");
    reveal_strlit("   ");
    reveal_strlit("jitter ");
    reveal_strlit("unavailable");
    reveal_strlit("\n");
    reveal_strlit("\r\x1b[2K");
    lemma_clear_line_shows();
    lemma_row_label_shows(color, "◷"@, "Latency"@, Accent::Cyan);
    codes_have_no_letters(Accent::Cyan);
    let label = row_label_text(color, "◷"@, "Latency"@, Accent::Cyan);
    let plain_label = row_label_text(false, "◷"@, "Latency"@, Accent::Cyan);
    texts_show_in_turn(CLEAR_LINE@, seq!['\r'], label, plain_label);
    bare_texts_show("   "@);
    bare_texts_show("\n"@);
    let (figure, plain) = match l {
        Some(t) => {
            let ms = right_aligned(t.ms@, 11);
            let jitter = "jitter "@ + t.jitter@;
            styles_do_not_show(color, "1"@, ms);
            styles_do_not_show(color, "2"@, jitter);
            texts_show_in_turn(styled(color, "1"@, ms), ms, "   "@, "   "@);
            texts_show_in_turn(
                styled(color, "1"@, ms) + "   "@,
                ms + "   "@,
                styled(color, "2"@, jitter),
                jitter,
            );
            (
                styled(color, "1"@, ms) + "   "@ + styled(color, "2"@, jitter),
                ms + "   "@ + jitter,
            )
        },
        None => {
            styles_do_not_show(color, "33"@, "unavailable"@);
            (styled(color, "33"@, "unavailable"@), "unavailable"@)
        },
    };
    texts_show_in_turn(CLEAR_LINE@ + label, seq!['\r'] + plain_label, figure, plain);
    texts_show_in_turn(
        CLEAR_LINE@ + label + figure,
        seq!['\r'] + plain_label + plain,
        "\n"@,
        "\n"@,
    );
    assert(latency_text(false, l).skip(5) =~= plain_label + plain + "\n"@);
    assert(seq!['\r'] + plain_label + plain + "\n"@ =~= seq!['\r'] + latency_text(false, l).skip(5));
}

proof fn lemma_connected_shows(color: bool, m: Meta)
    requires
        bare(server_text(text_of(m.as_organization), place_text(m))),
    ensures
        shows(connected_text(color, m), seq!['\r'] + connected_text(false, m).skip(9)),
{
    reveal_strlit("◷");
    reveal_strlit("Latency");
    reveal_strlit("  ");
    reveal_strlit("speed");
    reveal_strlit("measuring…");
    reveal_strlit("\n\n");
    reveal_strlit("\x1b[2A");
    reveal_strlit("\r\x1b[2K");
    let server = server_text(text_of(m.as_organization), place_text(m));
    lemma_clear_line_shows();
    sequences_do_not_show("\x1b[2A"@);
    lemma_row_label_shows(color, "◷"@, "Latency"@, Accent::Cyan);
    codes_have_no_letters(Accent::Cyan);
    bare_texts_show("  "@);
    bare_texts_show("\n\n"@);
    bare_texts_show(seq![]);
    styles_do_not_show(color, "1"@, "speed"@);
    styles_do_not_show(color, "2"@, server);
    styles_do_not_show(color, "2"@, "measuring…"@);
    let label = row_label_text(color, "◷"@, "Latency"@, Accent::Cyan);
    let plain_label = row_label_text(false, "◷"@, "Latency"@, Accent::Cyan);
    let name = styled(color, "1"@, "speed"@);
    texts_show_in_turn("  "@, "  "@, name, "speed"@);
    texts_show_in_turn("  "@, "  "@, styled(color, "2"@, server), server);
    let (tail, plain_tail) = if server.len() > 0 {
        ("  "@ + styled(color, "2"@, server), "  "@ + server)
    } else {
        (Seq::<char>::empty(), Seq::<char>::empty())
    };
    texts_show_in_turn("  "@ + name, "  "@ + "speed"@, tail, plain_tail);
    let head = "  "@ + name + tail;
    let plain_head = "  "@ + "speed"@ + plain_tail;
    let none = Seq::<char>::empty();
    let up = "\x1b[2A"@;
    texts_show_in_turn(up, none, CLEAR_LINE@, seq!['\r']);
    texts_show_in_turn(up + CLEAR_LINE@, none + seq!['\r'], head, plain_head);
    texts_show_in_turn(
        up + CLEAR_LINE@ + head,
        none + seq!['\r'] + plain_head,
        "\n\n"@,
        "\n\n"@,
    );
    texts_show_in_turn(
        up + CLEAR_LINE@ + head + "\n\n"@,
        none + seq!['\r'] + plain_head + "\n\n"@,
        label,
        plain_label,
    );
    texts_show_in_turn(
        up + CLEAR_LINE@ + head + "\n\n"@ + label,
        none + seq!['\r'] + plain_head + "\n\n"@ + plain_label,
        styled(color, "2"@, "measuring…"@),
        "measuring…"@,
    );
    let plain = connected_text(false, m);
    assert(plain.skip(9) =~= plain_head + "\n\n"@ + plain_label + "measuring…"@);
    assert(none + seq!['\r'] + plain_head + "\n\n"@ + plain_label + "measuring…"@ =~= seq!['\r']
        + plain.skip(9));
}

/// A colored display shows as the plain one, turn by turn.
pub proof fn colored_turns_show_the_same(event: Event)
    requires
        event matches Event::Measured(Some(t)) ==> bare(t.ms@) && bare(t.jitter@),
        event matches Event::Connected(m, _) ==> bare(
            server_text(text_of(m.as_organization), place_text(m)),
        ),
    ensures
        forall|s: &mut Session, c: &mut Session, plain: Turn, colored: Turn|
            #[trigger] call_ensures(Session::step, (s, &event), plain)
                && #[trigger] call_ensures(Session::step, (c, &event), colored) && s.expects(event)
                && *c == (Session { color: true, ..*s }) && !s.color ==> shown_of(plain.print@)
                == shown_of(colored.print@) && plain.task == colored.task,
{
    assert forall|s: &mut Session, c: &mut Session, plain: Turn, colored: Turn|
        #[trigger] call_ensures(Session::step, (s, &event), plain) && #[trigger] call_ensures(
            Session::step,
            (c, &event),
            colored,
        ) && s.expects(event) && *c == (Session { color: true, ..*s })
            && !s.color implies shown_of(plain.print@) == shown_of(colored.print@) && plain.task
        == colored.task by {
        match event {
            Event::Connected(m, resolved) => {
                lemma_connected_shows(true, m);
                lemma_connected_shows(false, m);
                lemma_latency_shows(true, None);
                lemma_latency_shows(false, None);
                let a = seq!['\r'] + connected_text(false, m).skip(9);
                let b = seq!['\r'] + latency_text(false, None).skip(5);
                texts_show_in_turn(connected_text(true, m), a, latency_text(true, None), b);
                texts_show_in_turn(connected_text(false, m), a, latency_text(false, None), b);
                if s.live {
                    let t = if resolved {
                        a
                    } else {
                        a + b
                    };
                    shown_is_shown(plain.print@, t);
                    shown_is_shown(colored.print@, t);
                }
            },
            Event::Measured(l) => {
                lemma_latency_shows(true, l);
                lemma_latency_shows(false, l);
                if s.live {
                    let t = seq!['\r'] + latency_text(false, l).skip(5);
                    shown_is_shown(plain.print@, t);
                    shown_is_shown(colored.print@, t);
                }
            },
            Event::Transferred => {
                assert(plain.print@ == colored.print@);
            },
        }
    }
}

} // verus!
