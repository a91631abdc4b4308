//! Transfers and server metadata.
//!
//! Throughput is counted in-process as bytes move through the program's own
//! connections, so other traffic on the machine doesn't skew the numbers.

use vstd::prelude::*;
use vstd::string::*;

use crate::order::sort;
use crate::order::{at_place, rearranged, sorted, sorting_has_one_result, Placed};
use crate::reading::Reading;
use crate::text::decimal;
use crate::text::decimal_text;

verus! {

pub const CLOUDFLARE: &'static str = "speed.cloudflare.com";

pub const UPLOAD_STREAMS: usize = 4;

/// Cloudflare rejects larger bodies when several uploads run in parallel.
pub const UPLOAD_BODY: u64 = 52_428_800;

pub const UPLOAD_CHUNK: u64 = 262_144;

/// How long to wait before asking again a server that refused.
pub const RETRY_SECS: u64 = 1;

/// Counters of a group of transfers.
pub struct Stats {
    pub bytes: u64,
    pub last_error: Option<String>,
}

/// A counter at `bytes` after `n` more; it wraps at 2^64.
pub open spec fn credited(bytes: u64, n: int) -> u64 {
    ((bytes + n) % 0x1_0000_0000_0000_0000) as u64
}

impl Default for Stats {
    fn default() -> (r: Stats)
        ensures
            r.bytes == 0,
            r.last_error is None,
    {
        Stats { bytes: 0, last_error: None }
    }
}

impl Stats {
    pub fn bytes(&self) -> (r: u64)
        ensures
            r == self.bytes,
    {
        self.bytes
    }

    pub fn last_error(&self) -> (r: Option<String>)
        ensures
            r == self.last_error,
    {
        match &self.last_error {
            Some(e) => Some(e.clone()),
            None => None,
        }
    }

    /// Notes what went wrong last.
    pub fn fail(&mut self, msg: String)
        ensures
            final(self).bytes == old(self).bytes,
            final(self).last_error == Some(msg),
    {
        self.last_error = Some(msg);
    }

    /// Counts `n` bytes.
    pub fn credit(&mut self, n: u64)
        ensures
            final(self).bytes == credited(old(self).bytes, n as int),
            final(self).last_error == old(self).last_error,
    {
        self.bytes = self.bytes.wrapping_add(n);
    }

    /// Takes `n` bytes back.
    pub fn debit(&mut self, n: u64)
        ensures
            final(self).bytes == credited(old(self).bytes, -n),
            final(self).last_error == old(self).last_error,
    {
        self.bytes = self.bytes.wrapping_sub(n);
    }
}

/// What is told of an HTTP status that is no success.
pub open spec fn status_text(code: u16) -> Seq<char> {
    if code == 429 {
        "rate limited (HTTP 429), wait a minute"@
    } else {
        "HTTP "@ + decimal_text(code as nat)
    }
}

pub fn describe_status(code: u16) -> (r: String)
    ensures
        r@ == status_text(code),
{
    if code == 429 {
        "rate limited (HTTP 429), wait a minute".to_owned()
    } else {
        let mut r = "HTTP ".to_owned();
        r.append(decimal(code as u64).as_str());
        r
    }
}

/// What is known of a request that failed.
pub struct RequestError {
    pub connect: bool,
    pub timeout: bool,
    pub text: String,
}

/// What is told of a failed transfer.
pub open spec fn error_text(e: RequestError) -> Seq<char> {
    if e.connect {
        "could not connect"@
    } else if e.timeout {
        "timed out"@
    } else {
        e.text@
    }
}

pub fn describe_error(e: &RequestError) -> (r: String)
    ensures
        r@ == error_text(*e),
{
    if e.connect {
        "could not connect".to_owned()
    } else if e.timeout {
        "timed out".to_owned()
    } else {
        e.text.clone()
    }
}

/// A status of success.
pub open spec fn success(code: u16) -> bool {
    200 <= code < 300
}

/// Asks `reqwest::StatusCode::is_success` of the status with this number. It is
/// taken to hold of the numbers from 200 to 299; a number that
/// `reqwest::StatusCode::from_u16` does not take is no success.
#[verifier::external_body]
fn is_success(code: u16) -> (r: bool)
    ensures
        r == success(code),
{
    match reqwest::StatusCode::from_u16(code) {
        Ok(status) => status.is_success(),
        Err(_) => false,
    }
}

/// What a download can meet.
pub enum DownloadEvent {
    /// The server answered with this status.
    Response(u16),
    /// The request was not answered.
    SendFailed(RequestError),
    /// This many bytes of the body arrived.
    Chunk(u64),
    /// The body is complete.
    EndOfBody,
    /// The body broke off.
    ReadFailed(RequestError),
}

/// What a download does next.
#[derive(Clone, Copy, PartialEq, Eq, Structural, Debug)]
pub enum DownloadAction {
    /// Ask for the file.
    Request,
    /// Wait for more of the body.
    Read,
    /// Wait [`RETRY_SECS`], then ask for the file.
    PauseThenRequest,
}

/// What a download does after `event`.
pub open spec fn download_action(event: DownloadEvent) -> DownloadAction {
    match event {
        DownloadEvent::Response(code) => if success(code) {
            DownloadAction::Read
        } else {
            DownloadAction::PauseThenRequest
        },
        DownloadEvent::SendFailed(_) => DownloadAction::PauseThenRequest,
        DownloadEvent::Chunk(_) => DownloadAction::Read,
        DownloadEvent::EndOfBody => DownloadAction::Request,
        DownloadEvent::ReadFailed(_) => DownloadAction::Request,
    }
}

/// What `event` tells of a failure.
pub open spec fn download_error(event: DownloadEvent) -> Option<Seq<char>> {
    match event {
        DownloadEvent::Response(code) => if success(code) {
            None
        } else {
            Some(status_text(code))
        },
        DownloadEvent::SendFailed(e) => Some(error_text(e)),
        DownloadEvent::ReadFailed(e) => Some(error_text(e)),
        _ => None,
    }
}

/// The bytes that `event` adds to the counter.
pub open spec fn download_bytes(event: DownloadEvent) -> int {
    match event {
        DownloadEvent::Chunk(n) => n as int,
        _ => 0,
    }
}

/// One step of a transfer that downloads a file over and over, counting bytes as
/// they arrive.
pub fn download_step(event: &DownloadEvent, stats: &mut Stats) -> (action: DownloadAction)
    ensures
        action == download_action(*event),
        final(stats).bytes == credited(old(stats).bytes, download_bytes(*event)),
        match download_error(*event) {
            Some(e) => final(stats).last_error matches Some(t) && t@ == e,
            None => final(stats).last_error == old(stats).last_error,
        },
{
    match event {
        DownloadEvent::Response(code) => {
            if is_success(*code) {
                DownloadAction::Read
            } else {
                stats.fail(describe_status(*code));
                DownloadAction::PauseThenRequest
            }
        },
        DownloadEvent::SendFailed(e) => {
            stats.fail(describe_error(e));
            DownloadAction::PauseThenRequest
        },
        DownloadEvent::Chunk(n) => {
            stats.credit(*n);
            DownloadAction::Read
        },
        DownloadEvent::EndOfBody => DownloadAction::Request,
        DownloadEvent::ReadFailed(e) => {
            stats.fail(describe_error(e));
            DownloadAction::Request
        },
    }
}

/// The counter after `events`, one step each.
pub open spec fn after_events(bytes: u64, events: Seq<DownloadEvent>) -> u64
    decreases events.len(),
{
    if events.len() == 0 {
        bytes
    } else {
        credited(after_events(bytes, events.drop_last()), download_bytes(events.last()))
    }
}

/// The bytes that arrived in the course of `events`.
pub open spec fn arrived(events: Seq<DownloadEvent>) -> int
    decreases events.len(),
{
    if events.len() == 0 {
        0
    } else {
        arrived(events.drop_last()) + download_bytes(events.last())
    }
}

/// Whatever happens to a download, the counter moves by what arrived and by nothing
/// else.
pub proof fn downloads_count_what_arrives(bytes: u64, events: Seq<DownloadEvent>)
    ensures
        after_events(bytes, events) == credited(bytes, arrived(events)),
    decreases events.len(),
{
    if events.len() == 0 {
        vstd::arithmetic::div_mod::lemma_small_mod(bytes as nat, 0x1_0000_0000_0000_0000);
    } else {
        downloads_count_what_arrives(bytes, events.drop_last());
        credits_add_up(bytes, arrived(events.drop_last()), download_bytes(events.last()));
    }
}

/// How an upload was answered.
pub enum UploadReply {
    /// The server answered with this status.
    Response(u16),
    /// The request was not answered.
    Failed(RequestError),
}

impl UploadReply {
    /// The server took the body.
    pub open spec fn accepted(self) -> bool {
        self matches UploadReply::Response(code) && success(code)
    }

    /// What the reply tells of a failure.
    pub open spec fn failure(self) -> Seq<char> {
        match self {
            UploadReply::Response(code) => status_text(code),
            UploadReply::Failed(e) => error_text(e),
        }
    }
}

/// One body on its way up, in chunks that count as they're handed to the
/// connection, so the live rate doesn't wait for a whole body to finish.
pub struct Upload {
    pub chunks: u64,
}

impl Upload {
    /// No more chunks than make up a body.
    pub open spec fn wf(self) -> bool {
        self.chunks * UPLOAD_CHUNK <= UPLOAD_BODY
    }

    /// The bytes handed to the connection.
    pub open spec fn sent(self) -> int {
        self.chunks * UPLOAD_CHUNK
    }

    /// A body of which nothing has been handed over yet.
    pub fn new() -> (r: Upload)
        ensures
            r.wf(),
            r.sent() == 0,
    {
        Upload { chunks: 0 }
    }

    /// Hands over the next chunk and counts it; says whether there was one.
    pub fn next_chunk(&mut self, stats: &mut Stats) -> (more: bool)
        requires
            old(self).wf(),
        ensures
            final(self).wf(),
            more == (old(self).sent() < UPLOAD_BODY),
            final(self).sent() == old(self).sent() + if more {
                UPLOAD_CHUNK as int
            } else {
                0
            },
            final(stats).bytes == credited(
                old(stats).bytes,
                if more {
                    UPLOAD_CHUNK as int
                } else {
                    0
                },
            ),
            final(stats).last_error == old(stats).last_error,
    {
        if self.chunks < UPLOAD_BODY / UPLOAD_CHUNK {
            self.chunks = self.chunks + 1;
            stats.credit(UPLOAD_CHUNK);
            true
        } else {
            false
        }
    }

    /// Settles the body with the server's reply; says whether to wait
    /// [`RETRY_SECS`] before the next one. A body that the server didn't accept is
    /// not credited.
    pub fn finish(self, reply: &UploadReply, stats: &mut Stats) -> (pause: bool)
        requires
            self.wf(),
        ensures
            pause == !reply.accepted(),
            reply.accepted() ==> *final(stats) == *old(stats),
            !reply.accepted() ==> final(stats).bytes == credited(old(stats).bytes, -self.sent())
                && (final(stats).last_error matches Some(t) && t@ == reply.failure()),
    {
        match reply {
            UploadReply::Response(code) => {
                if is_success(*code) {
                    return false;
                }
                stats.fail(describe_status(*code));
            },
            UploadReply::Failed(e) => {
                stats.fail(describe_error(e));
            },
        }
        stats.debit(self.chunks * UPLOAD_CHUNK);
        true
    }
}

/// What can move a shared counter while a body is on its way.
pub enum Count {
    /// A chunk of this body was handed over.
    Mine,
    /// Another transfer counted this many bytes, or took them back where negative.
    Other(int),
}

/// The counter after `counts`.
pub open spec fn counted(bytes: u64, counts: Seq<Count>) -> u64
    decreases counts.len(),
{
    if counts.len() == 0 {
        bytes
    } else {
        let before = counted(bytes, counts.drop_last());
        match counts.last() {
            Count::Mine => credited(before, UPLOAD_CHUNK as int),
            Count::Other(n) => credited(before, n),
        }
    }
}

/// How many chunks of this body are among `counts`.
pub open spec fn mine(counts: Seq<Count>) -> int
    decreases counts.len(),
{
    if counts.len() == 0 {
        0
    } else {
        mine(counts.drop_last()) + if counts.last() is Mine {
            1int
        } else {
            0
        }
    }
}

/// What others counted among `counts`.
pub open spec fn others(counts: Seq<Count>) -> int
    decreases counts.len(),
{
    if counts.len() == 0 {
        0
    } else {
        others(counts.drop_last()) + match counts.last() {
            Count::Mine => 0,
            Count::Other(n) => n,
        }
    }
}

/// Counting in two steps is counting the sum.
pub proof fn credits_add_up(bytes: u64, a: int, b: int)
    ensures
        credited(credited(bytes, a), b) == credited(bytes, a + b),
{
    let m = 0x1_0000_0000_0000_0000int;
    vstd::arithmetic::div_mod::lemma_add_mod_noop(bytes + a, b, m);
    vstd::arithmetic::div_mod::lemma_add_mod_noop((bytes + a) % m, b, m);
    vstd::arithmetic::div_mod::lemma_mod_twice(bytes + a, m);
}

proof fn lemma_counted(bytes: u64, counts: Seq<Count>)
    ensures
        counted(bytes, counts) == credited(bytes, mine(counts) * UPLOAD_CHUNK + others(counts)),
    decreases counts.len(),
{
    if counts.len() == 0 {
        vstd::arithmetic::div_mod::lemma_small_mod(bytes as nat, 0x1_0000_0000_0000_0000);
    } else {
        let before = counts.drop_last();
        lemma_counted(bytes, before);
        let sum = mine(before) * UPLOAD_CHUNK + others(before);
        match counts.last() {
            Count::Mine => credits_add_up(bytes, sum, UPLOAD_CHUNK as int),
            Count::Other(n) => credits_add_up(bytes, sum, n),
        }
    }
}

/// However the chunks of a refused body are mixed with what other transfers count,
/// the refusal leaves the counter where it would be without the body.
pub proof fn refused_body_is_not_credited(bytes: u64, counts: Seq<Count>, upload: Upload)
    requires
        upload.chunks == mine(counts),
    ensures
        credited(counted(bytes, counts), -upload.sent()) == credited(bytes, others(counts)),
{
    lemma_counted(bytes, counts);
    credits_add_up(bytes, mine(counts) * UPLOAD_CHUNK + others(counts), -upload.sent());
}

/// A body that was handed over whole counts as its size.
pub proof fn accepted_body_is_credited(bytes: u64, counts: Seq<Count>, upload: Upload)
    requires
        upload.chunks == mine(counts),
        upload.wf(),
        upload.sent() >= UPLOAD_BODY,
    ensures
        counted(bytes, counts) == credited(bytes, UPLOAD_BODY + others(counts)),
{
    lemma_counted(bytes, counts);
}

/// The middle of a list of readings.
#[derive(Clone, Copy, PartialEq, Eq, Structural, Debug)]
pub enum Median {
    /// The one in the middle.
    Middle(Reading),
    /// The mean of the two in the middle.
    Between(Reading, Reading),
}

/// The middle of `s`, which is sorted.
pub open spec fn middle(s: Seq<Reading>) -> Median {
    let n = s.len() as int;
    if n % 2 == 1 {
        Median::Middle(s[n / 2])
    } else {
        Median::Between(s[n / 2 - 1], s[n / 2])
    }
}

/// Sorts the readings and finds their median.
pub fn median(v: &mut Vec<Reading>) -> (r: Median)
    requires
        old(v)@.len() > 0,
    ensures
        sorted(final(v)@),
        rearranged(old(v)@, final(v)@),
        r == middle(final(v)@),
{
    sort(v);
    proof {
        vstd::seq_lib::to_multiset_len(old(v)@);
        vstd::seq_lib::to_multiset_len(v@);
    }
    let n: usize = v.len();
    if n % 2 == 1 {
        Median::Middle(v[n / 2])
    } else {
        Median::Between(v[n / 2 - 1], v[n / 2])
    }
}

/// `m` is the median of `s`.
pub open spec fn median_of(s: Seq<Reading>, m: Median) -> bool {
    exists|t: Seq<Reading>| sorted(t) && rearranged(s, t) && m == #[trigger] middle(t)
}

/// The median of some readings; nothing where there are none.
pub fn overall(v: Vec<Reading>) -> (r: Option<Median>)
    ensures
        match r {
            Some(m) => v@.len() > 0 && median_of(v@, m),
            None => v@.len() == 0,
        },
{
    if v.len() == 0 {
        return None;
    }
    let mut t = v;
    Some(median(&mut t))
}

/// A list of readings has one median.
pub proof fn median_is_unique(s: Seq<Reading>, m: Median, k: Median)
    requires
        median_of(s, m),
        median_of(s, k),
    ensures
        m == k,
{
    let t = choose|t: Seq<Reading>| sorted(t) && rearranged(s, t) && m == #[trigger] middle(t);
    let u = choose|u: Seq<Reading>| sorted(u) && rearranged(s, u) && k == #[trigger] middle(u);
    assert forall|p: int| #[trigger] at_place(t, p) == at_place(u, p) by {
        assert(at_place(t, p) == at_place(s, p));
        assert(at_place(u, p) == at_place(s, p));
    }
    sorting_has_one_result(t, u);
}

/// Who and where we are, per Cloudflare.
#[derive(Clone, Debug)]
pub struct Meta {
    pub client_ip: Option<String>,
    pub as_organization: Option<String>,
    pub city: Option<String>,
    pub colo: Option<Colo>,
}

#[derive(Clone, Debug)]
pub struct Colo {
    pub iata: Option<String>,
}

impl Default for Meta {
    fn default() -> (r: Meta)
        ensures
            r.client_ip is None,
            r.as_organization is None,
            r.city is None,
            r.colo is None,
    {
        Meta { client_ip: None, as_organization: None, city: None, colo: None }
    }
}

impl Default for Colo {
    fn default() -> (r: Colo)
        ensures
            r.iata is None,
    {
        Colo { iata: None }
    }
}

/// The address of `path` at Cloudflare.
pub open spec fn cloudflare_address(path: Seq<char>) -> Seq<char> {
    "https://"@ + CLOUDFLARE@ + path
}

fn cloudflare_url(path: &str) -> (r: String)
    ensures
        r@ == cloudflare_address(path@),
{
    let mut r = "https://".to_owned();
    r.append(CLOUDFLARE);
    r.append(path);
    r
}

/// Where bodies are posted to.
pub fn upload_url() -> (r: String)
    ensures
        r@ == cloudflare_address("/__up"@),
{
    cloudflare_url("/__up")
}

/// Where the metadata is asked for.
pub fn meta_url() -> (r: String)
    ensures
        r@ == cloudflare_address("/meta"@),
{
    cloudflare_url("/meta")
}

/// The Referer to ask for the metadata with: without one the endpoint returns `{}`.
pub fn meta_referer() -> (r: String)
    ensures
        r@ == cloudflare_address("/"@),
{
    cloudflare_url("/")
}

/// A chunk moves the counter by its size, whatever that is, and nothing else moves it.
pub proof fn chunks_count_in_full(event: DownloadEvent)
    ensures
        forall|s: &mut Stats, action: DownloadAction| #[trigger]
            call_ensures(download_step, (&event, s), action) ==> {
                &&& event matches DownloadEvent::Chunk(n) ==> final(s).bytes as int == (s.bytes + n)
                    % 0x1_0000_0000_0000_0000
                &&& event !is Chunk ==> final(s).bytes == s.bytes
            },
{
    assert forall|s: &mut Stats, action: DownloadAction| #[trigger]
        call_ensures(download_step, (&event, s), action) && event !is Chunk implies final(s).bytes
        == s.bytes by {
        vstd::arithmetic::div_mod::lemma_small_mod(s.bytes as nat, 0x1_0000_0000_0000_0000);
    }
}

/// The sizes of what arrives in the course of `events`, one behind the other.
pub open spec fn chunk_sizes(events: Seq<DownloadEvent>) -> Seq<int> {
    events.filter(|e: DownloadEvent| e is Chunk).map_values(|e: DownloadEvent| e->Chunk_0 as int)
}

/// The sum of some numbers.
pub open spec fn total(sizes: Seq<int>) -> int {
    sizes.fold_left(0, |a: int, b: int| a + b)
}

proof fn lemma_arrived(events: Seq<DownloadEvent>)
    ensures
        arrived(events) == total(chunk_sizes(events)),
    decreases events.len(),
{
    reveal(Seq::filter);
    reveal(Seq::fold_left);
    if events.len() > 0 {
        let before = chunk_sizes(events.drop_last());
        lemma_arrived(events.drop_last());
        match events.last() {
            DownloadEvent::Chunk(n) => {
                let now = chunk_sizes(events);
                assert(now =~= before.push(n as int));
                assert(now.drop_last() =~= before);
            },
            _ => {
                assert(chunk_sizes(events) =~= before);
            },
        }
    }
}

/// However a download goes, the counter moves by the sizes of the chunks that arrived,
/// all of them together: `counters` are those that the steps are taken on, each where
/// the one before it was left.
pub proof fn courses_count_their_chunks(
    counters: Seq<&mut Stats>,
    events: Seq<DownloadEvent>,
    actions: Seq<DownloadAction>,
)
    requires
        counters.len() == events.len() == actions.len(),
        events.len() > 0,
        forall|i: int|
            0 <= i < events.len() ==> #[trigger] call_ensures(
                download_step,
                (&events[i], counters[i]),
                actions[i],
            ),
        forall|i: int|
            0 <= i < events.len() - 1 ==> *final(#[trigger] counters[i]) == *counters[i + 1],
    ensures
        final(counters[events.len() - 1]).bytes as int == (counters[0].bytes + total(
            chunk_sizes(events),
        )) % 0x1_0000_0000_0000_0000,
{
    lemma_arrived(events);
    lemma_course(counters, events, actions);
    downloads_count_what_arrives(counters[0].bytes, events);
}

proof fn lemma_course(
    counters: Seq<&mut Stats>,
    events: Seq<DownloadEvent>,
    actions: Seq<DownloadAction>,
)
    requires
        counters.len() == events.len() == actions.len(),
        events.len() > 0,
        forall|i: int|
            0 <= i < events.len() ==> #[trigger] call_ensures(
                download_step,
                (&events[i], counters[i]),
                actions[i],
            ),
        forall|i: int|
            0 <= i < events.len() - 1 ==> *final(#[trigger] counters[i]) == *counters[i + 1],
    ensures
        final(counters[events.len() - 1]).bytes == after_events(counters[0].bytes, events),
    decreases events.len(),
{
    let last = events.len() - 1;
    reveal_with_fuel(after_events, 2);
    assert(call_ensures(download_step, (&events[last], counters[last]), actions[last]));
    if last > 0 {
        let es = events.drop_last();
        let cs = counters.drop_last();
        let xs = actions.drop_last();
        assert forall|i: int| 0 <= i < es.len() implies #[trigger] call_ensures(
            download_step,
            (&es[i], cs[i]),
            xs[i],
        ) by {
            assert(call_ensures(download_step, (&events[i], counters[i]), actions[i]));
        }
        assert forall|i: int| 0 <= i < es.len() - 1 implies *final(#[trigger] cs[i])
            == *cs[i + 1] by {
            assert(counters[i] == cs[i]);
        }
        lemma_course(cs, es, xs);
        assert(*final(counters[last - 1]) == *counters[last]);
    } else {
        assert(events.drop_last() =~= Seq::<DownloadEvent>::empty());
    }
}

/// A download reads on after a status from 200 to 299 and after a chunk; it asks again
/// at once when a body ends or breaks off, and after a pause when it was not granted one.
pub proof fn downloads_go_on(event: DownloadEvent)
    ensures
        forall|s: &mut Stats, action: DownloadAction| #[trigger]
            call_ensures(download_step, (&event, s), action) ==> {
                &&& action == DownloadAction::Read <==> event is Chunk || (
                event matches DownloadEvent::Response(code) && 200 <= code <= 299)
                &&& action == DownloadAction::Request <==> event is EndOfBody || event is ReadFailed
            },
{
}

/// What failed is told: the status by its number, a failed request by what is known of
/// it. Where nothing failed, what was told before stays.
pub proof fn failures_are_told(event: DownloadEvent)
    ensures
        forall|s: &mut Stats, action: DownloadAction| #[trigger]
            call_ensures(download_step, (&event, s), action) ==> match event {
                DownloadEvent::Response(code) => if 200 <= code <= 299 {
                    final(s).last_error == s.last_error
                } else if code == 429 {
                    final(s).last_error matches Some(t) && t@
                        == "rate limited (HTTP 429), wait a minute"@
                } else {
                    final(s).last_error matches Some(t) && t@ == "HTTP "@ + decimal_text(
                        code as nat,
                    )
                },
                DownloadEvent::SendFailed(e) | DownloadEvent::ReadFailed(e) =>
                    final(s).last_error matches Some(t) && t@ == if e.connect {
                        "could not connect"@
                    } else if e.timeout {
                        "timed out"@
                    } else {
                        e.text@
                    },
                DownloadEvent::Chunk(_) | DownloadEvent::EndOfBody => final(s).last_error
                    == s.last_error,
            },
{
}

/// Every chunk of a body counts its 256 KiB as it is handed over, and there is one as
/// long as 50 MiB are not reached.
pub proof fn chunks_make_up_a_body()
    ensures
        forall|u: &mut Upload, s: &mut Stats, more: bool| #[trigger]
            call_ensures(Upload::next_chunk, (u, s), more) ==> {
                &&& more == (u.chunks * 262_144 < 52_428_800)
                &&& final(u).chunks == u.chunks + if more {
                    1int
                } else {
                    0
                }
                &&& final(s).bytes as int == (s.bytes + if more {
                    262_144int
                } else {
                    0
                }) % 0x1_0000_0000_0000_0000
                &&& final(s).last_error == s.last_error
            },
{
    assert forall|u: &mut Upload, s: &mut Stats, more: bool| #[trigger]
        call_ensures(Upload::next_chunk, (u, s), more) implies {
        &&& more == (u.chunks * 262_144 < 52_428_800)
        &&& final(u).chunks == u.chunks + if more {
            1int
        } else {
            0
        }
        &&& final(s).bytes as int == (s.bytes + if more {
            262_144int
        } else {
            0
        }) % 0x1_0000_0000_0000_0000
        &&& final(s).last_error == s.last_error
    } by {
        assert(final(u).sent() == u.sent() + if more {
            UPLOAD_CHUNK as int
        } else {
            0
        });
    }
}

/// A body stays counted exactly if the server answers it with a status from 200 to 299.
/// Else every chunk of it that was handed over is taken back, the reason is told, and
/// the next body waits.
pub proof fn bodies_count_if_accepted(u: Upload, reply: UploadReply)
    ensures
        forall|s: &mut Stats, pause: bool| #[trigger]
            call_ensures(Upload::finish, (u, &reply, s), pause) ==> if reply matches
                UploadReply::Response(code) && 200 <= code <= 299 {
                !pause && *final(s) == *s
            } else {
                &&& pause
                &&& final(s).bytes as int == (s.bytes - u.chunks * 262_144)
                    % 0x1_0000_0000_0000_0000
                &&& final(s).last_error matches Some(t) && t@ == match reply {
                    UploadReply::Response(code) => if code == 429 {
                        "rate limited (HTTP 429), wait a minute"@
                    } else {
                        "HTTP "@ + decimal_text(code as nat)
                    },
                    UploadReply::Failed(e) => if e.connect {
                        "could not connect"@
                    } else if e.timeout {
                        "timed out"@
                    } else {
                        e.text@
                    },
                }
            },
{
}

/// What is taken back undoes what was counted.
pub proof fn debits_undo_credits(n: u64)
    ensures
        forall|s: &mut Stats, t: &mut Stats|
            #[trigger] call_ensures(Stats::credit, (s, n), ()) && #[trigger] call_ensures(
                Stats::debit,
                (t, n),
                (),
            ) && *t == *final(s) ==> final(t).bytes == s.bytes && final(t).last_error
                == s.last_error,
        forall|s: &mut Stats|
            #[trigger] call_ensures(Stats::credit, (s, n), ()) && s.bytes + n <= u64::MAX
                ==> final(s).bytes == s.bytes + n,
{
    assert forall|s: &mut Stats, t: &mut Stats|
        #[trigger] call_ensures(Stats::credit, (s, n), ()) && #[trigger] call_ensures(
            Stats::debit,
            (t, n),
            (),
        ) && *t == *final(s) implies final(t).bytes == s.bytes && final(t).last_error
        == s.last_error by {
        credits_add_up(s.bytes, n as int, -n);
    }
}

/// `t` is `s` in ascending order.
pub open spec fn ascending(s: Seq<Reading>, t: Seq<Reading>) -> bool {
    &&& t.to_multiset() == s.to_multiset()
    &&& t.len() == s.len()
    &&& forall|i: int, j: int| 0 <= i <= j < t.len() ==> t[i].key <= t[j].key
}

/// In `t` as many stand before the middle as behind it: `k` before `m`, or before the
/// first of two neighbors, and `k` behind `m`, or behind the second.
pub open spec fn balanced(t: Seq<Reading>, m: Median, k: int) -> bool {
    match m {
        Median::Middle(a) => t.len() == k + 1 + k && 0 <= k && t[k] == a,
        Median::Between(a, b) => t.len() == k + 2 + k && 0 <= k && t[k] == a && t[k + 1] == b,
    }
}

proof fn lemma_middle(s: Seq<Reading>, t: Seq<Reading>)
    requires
        s.len() > 0,
        sorted(t),
        rearranged(s, t),
    ensures
        ascending(s, t),
        balanced(t, middle(t), (t.len() - 1) / 2),
{
    vstd::seq_lib::to_multiset_len(s);
    vstd::seq_lib::to_multiset_len(t);
    assert forall|i: int, j: int| 0 <= i <= j < t.len() implies t[i].key <= t[j].key by {
        assert(t[i].place_of() <= t[j].place_of());
    }
}

/// The median stands in the middle of the readings in ascending order: as many of them
/// are before it as behind it.
pub proof fn medians_are_balanced()
    ensures
        forall|v: &mut Vec<Reading>, m: Median| #[trigger]
            call_ensures(median, (v,), m) && v@.len() > 0 ==> ascending(v@, final(v)@) && balanced(
                final(v)@,
                m,
                (v@.len() - 1) / 2,
            ),
{
    assert forall|v: &mut Vec<Reading>, m: Median| #[trigger]
        call_ensures(median, (v,), m) && v@.len() > 0 implies ascending(v@, final(v)@) && balanced(
        final(v)@,
        m,
        (v@.len() - 1) / 2,
    ) by {
        lemma_middle(v@, final(v)@);
    }
}

/// A median of some readings stands in the middle of them, put in ascending order.
pub proof fn the_median_is_in_the_middle(s: Seq<Reading>, m: Median)
    requires
        s.len() > 0,
        median_of(s, m),
    ensures
        exists|t: Seq<Reading>| #[trigger] ascending(s, t) && balanced(t, m, (s.len() - 1) / 2),
{
    let t = choose|t: Seq<Reading>| sorted(t) && rearranged(s, t) && m == #[trigger] middle(t);
    lemma_middle(s, t);
}

/// The median of all readings stands in the middle of them too, and there is one exactly
/// where there are readings.
pub proof fn overall_medians_are_balanced(v: Vec<Reading>, r: Option<Median>)
    requires
        call_ensures(overall, (v,), r),
    ensures
        r is None <==> v@.len() == 0,
        r matches Some(m) ==> exists|t: Seq<Reading>| #[trigger]
            ascending(v@, t) && balanced(t, m, (v@.len() - 1) / 2),
{
    if let Some(m) = r {
        the_median_is_in_the_middle(v@, m);
    }
}

/// Reading the counters gives what was counted and the error that was told last.
pub proof fn counters_are_read(s: Stats, bytes: u64, error: Option<String>, msg: String)
    requires
        call_ensures(Stats::bytes, (&s,), bytes),
        call_ensures(Stats::last_error, (&s,), error),
    ensures
        bytes == s.bytes,
        error == s.last_error,
        forall|t: &mut Stats| #[trigger]
            call_ensures(Stats::fail, (t, msg), ()) ==> final(t).last_error == Some(msg)
                && final(t).bytes == t.bytes,
{
}

} // verus!
