//! Download mirror pool and nearest-server selection.

use vstd::prelude::*;
use vstd::string::*;

use crate::net::RequestError;
use crate::order::{at_place, rearranged, sort, sorted, Placed};
use crate::reading::Reading;
use crate::text::{decimal, join, pad_left, pad_right, same};
use crate::text::{decimal_text, joined, left_aligned, right_aligned, texts};
use crate::ui::{bare, bare_texts_show, codes_have_no_letters, figures_are_bare, shown_is_shown};
use crate::ui::{bold, dim, red, styled, Accent};
use crate::ui::{shown_of, shows, styles_do_not_show, texts_show_in_turn};

verus! {

/// A place to download from.
#[derive(Clone, Copy, Debug)]
pub struct Server {
    pub city: &'static str,
    pub provider: &'static str,
    pub url: &'static str,
}

/// A server by its texts: city, provider, address.
pub type Entry = (Seq<char>, Seq<char>, Seq<char>);

impl View for Server {
    type V = Entry;

    open spec fn view(&self) -> Entry {
        (self.city@, self.provider@, self.url@)
    }
}

/// The texts of a list of servers.
pub open spec fn entries(servers: Seq<Server>) -> Seq<Entry> {
    Seq::new(servers.len(), |i: int| servers[i]@)
}

fn s(city: &'static str, provider: &'static str, url: &'static str) -> (r: Server)
    ensures
        r@ == (city@, provider@, url@),
{
    Server { city, provider, url }
}

/// Public test-file mirrors that allow large, repeated, parallel downloads. Hetzner
/// comes first: if probing fails entirely, the head of this list is the fallback.
/// Vultr's looking-glass hosts are left out: they allow one connection per IP and
/// then answer 503 for a long while.
pub open spec fn pool_entries() -> Seq<Entry> {
    seq![
        ("Falkenstein"@, "Hetzner"@, "https://fsn1-speed.hetzner.com/10GB.bin"@),
        ("Nuremberg"@, "Hetzner"@, "https://nbg1-speed.hetzner.com/10GB.bin"@),
        ("Helsinki"@, "Hetzner"@, "https://hel1-speed.hetzner.com/10GB.bin"@),
        ("Ashburn"@, "Hetzner"@, "https://ash-speed.hetzner.com/10GB.bin"@),
        ("Hillsboro"@, "Hetzner"@, "https://hil-speed.hetzner.com/10GB.bin"@),
        ("Singapore"@, "Hetzner"@, "https://sin-speed.hetzner.com/10GB.bin"@),
        ("London"@, "Linode"@, "https://speedtest.london.linode.com/100MB-london.bin"@),
        ("Paris"@, "Linode"@, "https://speedtest.paris.linode.com/100MB-paris.bin"@),
        ("Amsterdam"@, "Linode"@, "https://speedtest.amsterdam.linode.com/100MB-amsterdam.bin"@),
        ("Frankfurt"@, "Linode"@, "https://speedtest.frankfurt.linode.com/100MB-frankfurt.bin"@),
        ("Milan"@, "Linode"@, "https://speedtest.milan.linode.com/100MB-milan.bin"@),
        ("Madrid"@, "Linode"@, "https://speedtest.madrid.linode.com/100MB-madrid.bin"@),
        ("Stockholm"@, "Linode"@, "https://speedtest.stockholm.linode.com/100MB-stockholm.bin"@),
        ("Newark"@, "Linode"@, "https://speedtest.newark.linode.com/100MB-newark.bin"@),
        ("Washington"@, "Linode"@, "https://speedtest.washington.linode.com/100MB-washington.bin"@),
        ("Atlanta"@, "Linode"@, "https://speedtest.atlanta.linode.com/100MB-atlanta.bin"@),
        ("Miami"@, "Linode"@, "https://speedtest.miami.linode.com/100MB-miami.bin"@),
        ("Chicago"@, "Linode"@, "https://speedtest.chicago.linode.com/100MB-chicago.bin"@),
        ("Dallas"@, "Linode"@, "https://speedtest.dallas.linode.com/100MB-dallas.bin"@),
        ("Toronto"@, "Linode"@, "https://speedtest.toronto1.linode.com/100MB-toronto1.bin"@),
        ("Seattle"@, "Linode"@, "https://speedtest.seattle.linode.com/100MB-seattle.bin"@),
        ("Fremont"@, "Linode"@, "https://speedtest.fremont.linode.com/100MB-fremont.bin"@),
        ("Los Angeles"@, "Linode"@, "https://speedtest.los-angeles.linode.com/100MB-los-angeles.bin"@),
        ("São Paulo"@, "Linode"@, "https://speedtest.sao-paulo.linode.com/100MB-sao-paulo.bin"@),
        ("Mumbai"@, "Linode"@, "https://speedtest.mumbai1.linode.com/100MB-mumbai1.bin"@),
        ("Chennai"@, "Linode"@, "https://speedtest.chennai.linode.com/100MB-chennai.bin"@),
        ("Singapore"@, "Linode"@, "https://speedtest.singapore.linode.com/100MB-singapore.bin"@),
        ("Jakarta"@, "Linode"@, "https://speedtest.jakarta.linode.com/100MB-jakarta.bin"@),
        ("Tokyo"@, "Linode"@, "https://speedtest.tokyo2.linode.com/100MB-tokyo2.bin"@),
        ("Osaka"@, "Linode"@, "https://speedtest.osaka.linode.com/100MB-osaka.bin"@),
        ("Sydney"@, "Linode"@, "https://speedtest.sydney.linode.com/100MB-sydney.bin"@),
        ("Roubaix"@, "OVH"@, "https://proof.ovh.net/files/1Gb.dat"@),
        ("Beauharnois"@, "OVH"@, "https://proof.ovh.ca/files/1Gb.dat"@),
        ("London"@, "thinkbroadband"@, "http://ipv4.download.thinkbroadband.com/1GB.zip"@),
    ]
}

/// How many mirrors there are.
pub const POOL_SIZE: usize = 34;

/// The mirrors.
pub fn pool() -> (v: Vec<Server>)
    ensures
        v@.len() == POOL_SIZE,
        entries(v@) == pool_entries(),
{
    let mut v: Vec<Server> = Vec::new();
    v.push(s("Falkenstein", "Hetzner", "https://fsn1-speed.hetzner.com/10GB.bin"));
    v.push(s("Nuremberg", "Hetzner", "https://nbg1-speed.hetzner.com/10GB.bin"));
    v.push(s("Helsinki", "Hetzner", "https://hel1-speed.hetzner.com/10GB.bin"));
    v.push(s("Ashburn", "Hetzner", "https://ash-speed.hetzner.com/10GB.bin"));
    v.push(s("Hillsboro", "Hetzner", "https://hil-speed.hetzner.com/10GB.bin"));
    v.push(s("Singapore", "Hetzner", "https://sin-speed.hetzner.com/10GB.bin"));
    v.push(s("London", "Linode", "https://speedtest.london.linode.com/100MB-london.bin"));
    v.push(s("Paris", "Linode", "https://speedtest.paris.linode.com/100MB-paris.bin"));
    v.push(s("Amsterdam", "Linode", "https://speedtest.amsterdam.linode.com/100MB-amsterdam.bin"));
    v.push(s("Frankfurt", "Linode", "https://speedtest.frankfurt.linode.com/100MB-frankfurt.bin"));
    v.push(s("Milan", "Linode", "https://speedtest.milan.linode.com/100MB-milan.bin"));
    v.push(s("Madrid", "Linode", "https://speedtest.madrid.linode.com/100MB-madrid.bin"));
    v.push(s("Stockholm", "Linode", "https://speedtest.stockholm.linode.com/100MB-stockholm.bin"));
    v.push(s("Newark", "Linode", "https://speedtest.newark.linode.com/100MB-newark.bin"));
    v.push(s("Washington", "Linode", "https://speedtest.washington.linode.com/100MB-washington.bin"));
    v.push(s("Atlanta", "Linode", "https://speedtest.atlanta.linode.com/100MB-atlanta.bin"));
    v.push(s("Miami", "Linode", "https://speedtest.miami.linode.com/100MB-miami.bin"));
    v.push(s("Chicago", "Linode", "https://speedtest.chicago.linode.com/100MB-chicago.bin"));
    v.push(s("Dallas", "Linode", "https://speedtest.dallas.linode.com/100MB-dallas.bin"));
    v.push(s("Toronto", "Linode", "https://speedtest.toronto1.linode.com/100MB-toronto1.bin"));
    v.push(s("Seattle", "Linode", "https://speedtest.seattle.linode.com/100MB-seattle.bin"));
    v.push(s("Fremont", "Linode", "https://speedtest.fremont.linode.com/100MB-fremont.bin"));
    v.push(s("Los Angeles", "Linode", "https://speedtest.los-angeles.linode.com/100MB-los-angeles.bin"));
    v.push(s("São Paulo", "Linode", "https://speedtest.sao-paulo.linode.com/100MB-sao-paulo.bin"));
    v.push(s("Mumbai", "Linode", "https://speedtest.mumbai1.linode.com/100MB-mumbai1.bin"));
    v.push(s("Chennai", "Linode", "https://speedtest.chennai.linode.com/100MB-chennai.bin"));
    v.push(s("Singapore", "Linode", "https://speedtest.singapore.linode.com/100MB-singapore.bin"));
    v.push(s("Jakarta", "Linode", "https://speedtest.jakarta.linode.com/100MB-jakarta.bin"));
    v.push(s("Tokyo", "Linode", "https://speedtest.tokyo2.linode.com/100MB-tokyo2.bin"));
    v.push(s("Osaka", "Linode", "https://speedtest.osaka.linode.com/100MB-osaka.bin"));
    v.push(s("Sydney", "Linode", "https://speedtest.sydney.linode.com/100MB-sydney.bin"));
    v.push(s("Roubaix", "OVH", "https://proof.ovh.net/files/1Gb.dat"));
    v.push(s("Beauharnois", "OVH", "https://proof.ovh.ca/files/1Gb.dat"));
    v.push(s("London", "thinkbroadband", "http://ipv4.download.thinkbroadband.com/1GB.zip"));
    proof {
        assert(entries(v@) =~= pool_entries());
    }
    v
}

/// Hetzner allows 2 connections per IP; the same cap keeps us polite elsewhere.
pub const CONNS_PER_SERVER: usize = 2;

/// How many of the nearest servers are worth using.
pub const TEST_SERVERS: usize = 5;

/// A server and its round trip in milliseconds, if it has one.
#[derive(Clone, Copy, Debug)]
pub struct Ranked {
    pub server: Server,
    pub rtt_ms: Option<Reading>,
}

impl Placed for Ranked {
    /// Behind every round trip stands having none.
    open spec fn place_of(self) -> int {
        match self.rtt_ms {
            Some(ms) => ms.key as int,
            None => i64::MAX + 1,
        }
    }

    fn not_after(self, other: Ranked) -> (r: bool) {
        match (self.rtt_ms, other.rtt_ms) {
            (Some(a), Some(b)) => a.key <= b.key,
            (Some(_), None) => true,
            (None, Some(_)) => false,
            (None, None) => true,
        }
    }
}

/// Where the next slash stands, from `from` on; the end of `url` where there is none.
pub open spec fn next_slash(url: Seq<char>, from: int) -> int
    decreases url.len() - from,
{
    if from >= url.len() {
        url.len() as int
    } else if url[from] == '/' {
        from
    } else {
        next_slash(url, from + 1)
    }
}

/// What stands between the second slash and the third; all of `url` where there is no
/// second.
pub open spec fn host_of(url: Seq<char>) -> Seq<char> {
    let first = next_slash(url, 0);
    let second = next_slash(url, first + 1);
    if first < url.len() && second < url.len() {
        url.subrange(second + 1, next_slash(url, second + 1))
    } else {
        url
    }
}

fn slash_from(url: &str, len: usize, from: usize) -> (r: usize)
    requires
        len == url@.len(),
        from <= len,
    ensures
        r == next_slash(url@, from as int),
        from <= r <= len,
{
    let mut i: usize = from;
    while i < len
        invariant
            from <= i <= len,
            len == url@.len(),
            next_slash(url@, from as int) == next_slash(url@, i as int),
        decreases len - i,
    {
        if url.get_char(i) == '/' {
            return i;
        }
        i += 1;
    }
    len
}

/// The host of a URL.
pub fn host(url: &str) -> (r: String)
    ensures
        r@ == host_of(url@),
{
    let len: usize = url.unicode_len();
    let first: usize = slash_from(url, len, 0);
    if first < len {
        let second: usize = slash_from(url, len, first + 1);
        if second < len {
            let third: usize = slash_from(url, len, second + 1);
            return url.substring_char(second + 1, third).to_owned();
        }
    }
    url.to_owned()
}

/// The host is what a URL names between its scheme and its path.
pub proof fn host_stands_between_scheme_and_path(
    scheme: Seq<char>,
    name: Seq<char>,
    path: Seq<char>,
)
    requires
        !scheme.contains('/'),
        !name.contains('/'),
        path.len() > 0 ==> path[0] == '/',
    ensures
        host_of(scheme + seq!['/', '/'] + name + path) == name,
{
    let url = scheme + seq!['/', '/'] + name + path;
    let a = scheme.len() as int;
    let b = (a + 2 + name.len()) as int;
    assert forall|i: int| 0 <= i < a implies url[i] != '/' by {
        assert(url[i] == scheme[i]);
    }
    assert forall|i: int| a + 2 <= i < b implies url[i] != '/' by {
        assert(url[i] == name[i - a - 2]);
    }
    lemma_next_slash(url, 0, a);
    lemma_next_slash(url, a + 1, a + 1);
    lemma_next_slash(url, a + 2, b);
    assert(url.subrange(a + 2, b) =~= name);
}

proof fn lemma_next_slash(url: Seq<char>, from: int, at: int)
    requires
        0 <= from <= at <= url.len(),
        forall|i: int| from <= i < at ==> url[i] != '/',
        at < url.len() ==> url[at] == '/',
    ensures
        next_slash(url, from) == at,
    decreases at - from,
{
    if from < at {
        lemma_next_slash(url, from + 1, at);
    }
}

/// Nothing replied.
pub open spec fn all_unreachable(ranked: Seq<Ranked>) -> bool {
    forall|i: int| 0 <= i < ranked.len() ==> (#[trigger] ranked[i]).rtt_ms is None
}

/// What the pings say about the ranking.
pub enum Ranking {
    /// The servers in order, and how they were ranked.
    Done(Vec<Ranked>, &'static str),
    /// Pings don't get through at all: time HTTP requests instead.
    ProbeHttp,
}

/// `t` is `s` nearest first, unreachable last.
pub open spec fn ranking_of(s: Seq<Ranked>, t: Seq<Ranked>) -> bool {
    sorted(t) && rearranged(s, t)
}

/// Ranks every server by round trip, nearest first, unreachable last, and says how
/// ("ping" or "http"). Ping is cheap for the mirrors, so it's preferred; HTTP timing
/// is the fallback where ICMP is blocked entirely.
pub fn rank(pinged: Vec<Ranked>) -> (r: Ranking)
    ensures
        match r {
            Ranking::Done(ranked, method) => {
                &&& !all_unreachable(pinged@)
                &&& ranking_of(pinged@, ranked@)
                &&& method@ == "ping"@
            },
            Ranking::ProbeHttp => all_unreachable(pinged@),
        },
{
    let mut i: usize = 0;
    while i < pinged.len()
        invariant
            i <= pinged@.len(),
            forall|j: int| 0 <= j < i ==> (#[trigger] pinged@[j]).rtt_ms is None,
        decreases pinged.len() - i,
    {
        if pinged[i].rtt_ms.is_some() {
            let mut ranked = pinged;
            sort(&mut ranked);
            return Ranking::Done(ranked, "ping");
        }
        i += 1;
    }
    Ranking::ProbeHttp
}

/// Ranks every server by the HTTP round trips that stand in for pings.
pub fn rank_http(probed: Vec<Ranked>) -> (r: (Vec<Ranked>, &'static str))
    ensures
        ranking_of(probed@, r.0@),
        r.1@ == "http"@,
{
    let mut ranked = probed;
    sort(&mut ranked);
    (ranked, "http")
}

/// In a ranking no server stands before a nearer one, and none that is unreachable
/// before one that is not.
pub proof fn nearest_come_first(s: Seq<Ranked>, t: Seq<Ranked>, i: int, j: int)
    requires
        ranking_of(s, t),
        0 <= i < j < t.len(),
    ensures
        t[i].rtt_ms is None ==> t[j].rtt_ms is None,
        t[i].rtt_ms matches Some(a) ==> (t[j].rtt_ms matches Some(b) ==> a.key <= b.key),
{
    assert(t[i].place_of() <= t[j].place_of());
}

/// A server that resolved: which one of the pool, and its address.
pub type Target = (usize, [u8; 4]);

/// The servers that resolved, in the order of the pool.
pub open spec fn resolved(addrs: Seq<Option<[u8; 4]>>) -> Seq<Target>
    decreases addrs.len(),
{
    if addrs.len() == 0 {
        seq![]
    } else {
        let before = resolved(addrs.drop_last());
        match addrs.last() {
            Some(a) => before.push(((addrs.len() - 1) as usize, a)),
            None => before,
        }
    }
}

/// Whom to ping. Unresolvable hosts are left out of the batch and come back
/// unreachable.
pub fn ping_targets(addrs: &Vec<Option<[u8; 4]>>) -> (r: Vec<Target>)
    ensures
        r@ == resolved(addrs@),
        forall|j: int| 0 <= j < r@.len() ==> (#[trigger] r@[j]).0 < addrs@.len(),
{
    let mut r: Vec<Target> = Vec::new();
    let mut i: usize = 0;
    while i < addrs.len()
        invariant
            i <= addrs@.len(),
            r@ == resolved(addrs@.take(i as int)),
        decreases addrs.len() - i,
    {
        proof {
            assert(addrs@.take(i + 1).drop_last() =~= addrs@.take(i as int));
        }
        if let Some(a) = addrs[i] {
            r.push((i, a));
        }
        i += 1;
    }
    proof {
        assert(addrs@.take(i as int) =~= addrs@);
        lemma_resolved_bound(addrs@);
    }
    r
}

/// The round trip of server `i`: the last that a target for it got.
pub open spec fn trip_of(targets: Seq<Target>, rtts: Seq<Option<Reading>>, i: int) -> Option<Reading>
    decreases targets.len(),
{
    if targets.len() == 0 || rtts.len() == 0 {
        None
    } else if targets.len() > rtts.len() {
        trip_of(targets.drop_last(), rtts, i)
    } else if targets.last().0 == i {
        rtts[targets.len() - 1]
    } else {
        trip_of(targets.drop_last(), rtts, i)
    }
}

/// Hands every server of the pool the round trip of its address.
pub fn ping_all(servers: &Vec<Server>, targets: &Vec<Target>, rtts: &Vec<Option<Reading>>) -> (r: Vec<
    Ranked,
>)
    requires
        forall|j: int| 0 <= j < targets@.len() ==> (#[trigger] targets@[j]).0 < servers@.len(),
    ensures
        r@.len() == servers@.len(),
        forall|i: int|
            0 <= i < r@.len() ==> (#[trigger] r@[i]).server == servers@[i] && r@[i].rtt_ms
                == trip_of(targets@, rtts@, i),
{
    let mut r: Vec<Ranked> = Vec::new();
    let mut i: usize = 0;
    while i < servers.len()
        invariant
            i <= servers@.len(),
            r@.len() == i,
            forall|j: int|
                0 <= j < i ==> (#[trigger] r@[j]).server == servers@[j] && r@[j].rtt_ms is None,
        decreases servers.len() - i,
    {
        r.push(Ranked { server: servers[i], rtt_ms: None });
        i += 1;
    }
    let mut k: usize = 0;
    while k < targets.len() && k < rtts.len()
        invariant
            k <= targets@.len(),
            k <= rtts@.len(),
            r@.len() == servers@.len(),
            forall|j: int| 0 <= j < targets@.len() ==> (#[trigger] targets@[j]).0 < servers@.len(),
            forall|j: int|
                0 <= j < r@.len() ==> (#[trigger] r@[j]).server == servers@[j] && r@[j].rtt_ms
                    == trip_of(targets@.take(k as int), rtts@, j),
        decreases targets.len() - k,
    {
        let at: usize = targets[k].0;
        let placed = Ranked { server: r[at].server, rtt_ms: rtts[k] };
        let ghost before = r@;
        r.set(at, placed);
        proof {
            let t = targets@.take(k + 1);
            assert(t.drop_last() =~= targets@.take(k as int));
            assert(t.last() == targets@[k as int]);
            assert forall|j: int| 0 <= j < r@.len() implies (#[trigger] r@[j]).server == servers@[j]
                && r@[j].rtt_ms == trip_of(t, rtts@, j) by {
                assert(before[j].server == servers@[j]);
            }
        }
        k += 1;
    }
    proof {
        assert forall|j: int| 0 <= j < r@.len() implies (#[trigger] r@[j]).rtt_ms == trip_of(
            targets@,
            rtts@,
            j,
        ) by {
            lemma_unmeasured_targets(targets@, rtts@, k as int, j);
        }
    }
    r
}

proof fn lemma_unmeasured_targets(
    targets: Seq<Target>,
    rtts: Seq<Option<Reading>>,
    k: int,
    i: int,
)
    requires
        k == if targets.len() <= rtts.len() {
            targets.len()
        } else {
            rtts.len()
        },
    ensures
        trip_of(targets, rtts, i) == trip_of(targets.take(k), rtts, i),
    decreases targets.len(),
{
    if targets.len() <= rtts.len() {
        assert(targets.take(k) =~= targets);
    } else if rtts.len() > 0 {
        lemma_unmeasured_targets(targets.drop_last(), rtts, k, i);
        assert(targets.drop_last().take(k) =~= targets.take(k));
    }
}

proof fn lemma_resolved(addrs: Seq<Option<[u8; 4]>>, i: int, rtts: Seq<Option<Reading>>)
    requires
        0 <= i < addrs.len() <= usize::MAX,
        rtts.len() >= resolved(addrs).len(),
    ensures
        forall|j: int|
            0 <= j < resolved(addrs).len() ==> (#[trigger] resolved(addrs)[j]).0 < addrs.len(),
        resolved(addrs).len() <= addrs.len(),
        addrs[i] is None ==> trip_of(resolved(addrs), rtts, i) is None,
        addrs[i] is Some ==> exists|j: int|
            0 <= j < resolved(addrs).len() && #[trigger] resolved(addrs)[j] == (i as usize, addrs[i]->0)
                && trip_of(resolved(addrs), rtts, i) == rtts[j],
    decreases addrs.len(),
{
    let before = addrs.drop_last();
    let r = resolved(addrs);
    if addrs.last() is Some {
        assert(r.drop_last() =~= resolved(before));
    }
    if i < before.len() {
        lemma_resolved(before, i, rtts);
        if addrs[i] is Some {
            let j = choose|j: int|
                0 <= j < resolved(before).len() && #[trigger] resolved(before)[j] == (
                    i as usize,
                    addrs[i]->0,
                ) && trip_of(resolved(before), rtts, i) == rtts[j];
            assert(r[j] == resolved(before)[j]);
        }
    } else {
        lemma_last_unresolved(before, i, rtts);
        if addrs.last() is Some {
            assert(r[r.len() - 1] == (i as usize, addrs[i]->0));
        }
    }
    assert forall|j: int| 0 <= j < r.len() implies (#[trigger] r[j]).0 < addrs.len() by {
        if before.len() > 0 {
            lemma_resolved_bound(before);
        }
        if j < resolved(before).len() {
            assert(r[j] == resolved(before)[j]);
        }
    }
    lemma_resolved_bound(addrs);
}

proof fn lemma_resolved_bound(addrs: Seq<Option<[u8; 4]>>)
    requires
        addrs.len() <= usize::MAX,
    ensures
        resolved(addrs).len() <= addrs.len(),
        forall|j: int|
            0 <= j < resolved(addrs).len() ==> (#[trigger] resolved(addrs)[j]).0 < addrs.len(),
    decreases addrs.len(),
{
    if addrs.len() > 0 {
        let before = addrs.drop_last();
        lemma_resolved_bound(before);
        assert forall|j: int| 0 <= j < resolved(addrs).len() implies (#[trigger] resolved(
            addrs,
        )[j]).0 < addrs.len() by {
            if j < resolved(before).len() {
                assert(resolved(addrs)[j] == resolved(before)[j]);
            }
        }
    }
}

proof fn lemma_last_unresolved(before: Seq<Option<[u8; 4]>>, i: int, rtts: Seq<Option<Reading>>)
    requires
        before.len() <= i <= usize::MAX,
    ensures
        trip_of(resolved(before), rtts, i) is None,
    decreases before.len(),
{
    if before.len() > 0 {
        let r = resolved(before);
        if before.last() is Some {
            assert(r.drop_last() =~= resolved(before.drop_last()));
        }
        lemma_last_unresolved(before.drop_last(), i, rtts);
    }
}

/// Every server that resolved gets the round trip that its own address was measured
/// at, and one that did not resolve gets none.
pub proof fn servers_get_their_own_trip(
    addrs: Seq<Option<[u8; 4]>>,
    rtts: Seq<Option<Reading>>,
    i: int,
)
    requires
        0 <= i < addrs.len() <= usize::MAX,
        rtts.len() == resolved(addrs).len(),
    ensures
        addrs[i] is None ==> trip_of(resolved(addrs), rtts, i) is None,
        addrs[i] is Some ==> exists|j: int|
            0 <= j < resolved(addrs).len() && #[trigger] resolved(addrs)[j] == (i as usize, addrs[i]->0)
                && trip_of(resolved(addrs), rtts, i) == rtts[j],
{
    lemma_resolved(addrs, i, rtts);
}

/// The indices of the servers that have a round trip, in order.
pub open spec fn reachable(ranked: Seq<Ranked>) -> Seq<usize>
    decreases ranked.len(),
{
    if ranked.len() == 0 {
        seq![]
    } else {
        let before = reachable(ranked.drop_last());
        if ranked.last().rtt_ms is Some {
            before.push((ranked.len() - 1) as usize)
        } else {
            before
        }
    }
}

/// The first `n` of `s`, all of it where it is shorter.
pub open spec fn first_of<T>(s: Seq<T>, n: int) -> Seq<T> {
    if n < s.len() {
        s.take(n)
    } else {
        s
    }
}

proof fn lemma_reachable(ranked: Seq<Ranked>)
    requires
        ranked.len() <= usize::MAX,
    ensures
        reachable(ranked).len() <= ranked.len(),
        forall|j: int|
            0 <= j < reachable(ranked).len() ==> (#[trigger] reachable(ranked)[j]) < ranked.len()
                && ranked[reachable(ranked)[j] as int].rtt_ms is Some,
        forall|j: int, k: int|
            0 <= j < k < reachable(ranked).len() ==> reachable(ranked)[j] < reachable(ranked)[k],
    decreases ranked.len(),
{
    if ranked.len() > 0 {
        lemma_reachable(ranked.drop_last());
    }
}

/// Which servers to check with a request each: the nearest, twice as many as are
/// wanted.
pub fn verify(ranked: &Vec<Ranked>, n: usize) -> (r: Vec<usize>)
    requires
        n * 2 <= usize::MAX,
    ensures
        r@ == first_of(reachable(ranked@), n * 2),
        forall|j: int|
            0 <= j < r@.len() ==> (#[trigger] r@[j]) < ranked@.len() && ranked@[r@[j] as int].rtt_ms is Some,
        forall|j: int, k: int| 0 <= j < k < r@.len() ==> r@[j] < r@[k],
{
    let limit: usize = n * 2;
    let mut r: Vec<usize> = Vec::new();
    let mut i: usize = 0;
    while i < ranked.len()
        invariant
            i <= ranked@.len(),
            limit == n * 2,
            r@ == first_of(reachable(ranked@.take(i as int)), n * 2),
        decreases ranked.len() - i,
    {
        proof {
            assert(ranked@.take(i + 1).drop_last() =~= ranked@.take(i as int));
        }
        if ranked[i].rtt_ms.is_some() && r.len() < limit {
            r.push(i);
        }
        proof {
            let next = reachable(ranked@.take(i + 1));
            assert(r@ =~= first_of(next, n * 2));
        }
        i += 1;
    }
    proof {
        assert(ranked@.take(i as int) =~= ranked@);
        lemma_reachable(ranked@);
    }
    r
}

/// Of a ranking, the ones that are checked are its head.
pub proof fn checked_servers_are_the_nearest(ranked: Seq<Ranked>, j: int)
    requires
        sorted(ranked),
        ranked.len() <= usize::MAX,
        0 <= j < reachable(ranked).len(),
    ensures
        reachable(ranked)[j] == j,
    decreases ranked.len(),
{
    if ranked.len() > 0 {
        let before = ranked.drop_last();
        if ranked.last().rtt_ms is Some {
            lemma_all_reachable(before, ranked.last());
            if j < before.len() {
                checked_servers_are_the_nearest(before, j);
            }
        } else {
            checked_servers_are_the_nearest(before, j);
        }
    }
}

proof fn lemma_all_reachable(ranked: Seq<Ranked>, next: Ranked)
    requires
        sorted(ranked.push(next)),
        next.rtt_ms is Some,
    ensures
        reachable(ranked).len() == ranked.len(),
    decreases ranked.len(),
{
    if ranked.len() > 0 {
        let all = ranked.push(next);
        assert(all[ranked.len() - 1].place_of() <= all[ranked.len() as int].place_of());
        assert(sorted(ranked.drop_last().push(ranked.last()))) by {
            assert(ranked.drop_last().push(ranked.last()) =~= ranked);
            assert forall|i: int, j: int| 0 <= i <= j < ranked.len() implies ranked[i].place_of()
                <= ranked[j].place_of() by {
                assert(all[i].place_of() <= all[j].place_of());
            }
        }
        lemma_all_reachable(ranked.drop_last(), ranked.last());
    }
}

/// What came of checking a server, by its index.
pub type Check = (usize, Result<(), String>);

/// The servers that passed, in the order they were checked in.
pub open spec fn passed(checks: Seq<Check>) -> Seq<usize>
    decreases checks.len(),
{
    if checks.len() == 0 {
        seq![]
    } else {
        let before = passed(checks.drop_last());
        if checks.last().1 is Ok {
            before.push(checks.last().0)
        } else {
            before
        }
    }
}

/// Server `i` was checked and passed.
pub open spec fn passes(checks: Seq<Check>, i: usize) -> bool {
    exists|j: int| 0 <= j < checks.len() && (#[trigger] checks[j]).0 == i && checks[j].1 is Ok
}

/// `s` with each item only where it stands first.
pub open spec fn distinct<T>(s: Seq<T>) -> Seq<T>
    decreases s.len(),
{
    if s.len() == 0 {
        seq![]
    } else {
        let before = distinct(s.drop_last());
        if before.contains(s.last()) {
            before
        } else {
            before.push(s.last())
        }
    }
}

/// `distinct` holds what the list holds, and nothing twice.
pub proof fn distinct_keeps_each_once<T>(s: Seq<T>)
    ensures
        distinct(s).no_duplicates(),
        distinct(s).len() <= s.len(),
        forall|x: T| distinct(s).contains(x) <==> s.contains(x),
        s.len() > 0 ==> distinct(s).len() > 0,
    decreases s.len(),
{
    if s.len() > 0 {
        let rest = s.drop_last();
        distinct_keeps_each_once(rest);
        let before = distinct(rest);
        let d = distinct(s);
        assert(s =~= rest.push(s.last()));
        assert forall|x: T| d.contains(x) <==> s.contains(x) by {
            if s.contains(x) {
                let i = s.index_of(x);
                if i < rest.len() {
                    assert(rest[i] == x);
                    assert(rest.contains(x));
                    assert(before.contains(x));
                }
                if before.contains(x) {
                    let k = before.index_of(x);
                    assert(d[k] == x);
                }
                if !before.contains(s.last()) {
                    assert(d[d.len() - 1] == s.last());
                }
            }
            if d.contains(x) {
                let k = d.index_of(x);
                if k < before.len() {
                    assert(before[k] == x);
                    assert(rest.contains(x));
                    let i = rest.index_of(x);
                    assert(s[i] == x);
                } else {
                    assert(s[s.len() - 1] == x);
                }
            }
        }
    }
}

/// Chooses the `n` nearest servers that serve files, or the head of the pool if none
/// do. `checks` tells what came of checking servers of `ranked`, nearest first.
pub fn nearest(ranked: &Vec<Ranked>, checks: &Vec<Check>, n: usize) -> (r: Vec<Ranked>)
    requires
        forall|j: int| 0 <= j < checks@.len() ==> (#[trigger] checks@[j]).0 < ranked@.len(),
    ensures
        first_of(passed(checks@), n as int).len() > 0 ==> r@ == distinct(
            first_of(passed(checks@), n as int),
        ).map_values(|i: usize| ranked@[i as int]),
        first_of(passed(checks@), n as int).len() == 0 ==> r@.len() == (if n < POOL_SIZE {
            n
        } else {
            POOL_SIZE
        }) && forall|i: int|
            0 <= i < r@.len() ==> (#[trigger] r@[i]).server@ == pool_entries()[i] && r@[i].rtt_ms is None,
        n > 0 ==> r@.len() > 0,
        r@.len() <= n,
{
    let ghost pick = |i: usize| ranked@[i as int];
    let mut ok: Vec<usize> = Vec::new();
    let mut taken: Vec<usize> = Vec::new();
    let mut r: Vec<Ranked> = Vec::new();
    let mut k: usize = 0;
    proof {
        assert(r@ =~= distinct(ok@).map_values(pick));
    }
    while k < checks.len()
        invariant
            k <= checks@.len(),
            forall|j: int| 0 <= j < checks@.len() ==> (#[trigger] checks@[j]).0 < ranked@.len(),
            ok@ == first_of(passed(checks@.take(k as int)), n as int),
            taken@ == distinct(ok@),
            pick == (|i: usize| ranked@[i as int]),
            r@ =~= distinct(ok@).map_values(pick),
        decreases checks.len() - k,
    {
        let ghost seen = checks@.take(k as int);
        proof {
            assert(checks@.take(k + 1).drop_last() =~= seen);
        }
        if checks[k].1.is_ok() && ok.len() < n {
            let at: usize = checks[k].0;
            let ghost before = ok@;
            let again = holds(&taken, at);
            ok.push(at);
            proof {
                assert(ok@.drop_last() =~= before);
            }
            if !again {
                taken.push(at);
                r.push(ranked[at]);
            }
        }
        proof {
            assert(ok@ =~= first_of(passed(checks@.take(k + 1)), n as int));
        }
        k += 1;
    }
    proof {
        assert(checks@.take(k as int) =~= checks@);
        distinct_keeps_each_once(ok@);
    }
    if ok.len() > 0 {
        return r;
    }
    let servers = pool();
    let mut head: Vec<Ranked> = Vec::new();
    let mut i: usize = 0;
    while i < servers.len() && i < n
        invariant
            i <= servers@.len() == POOL_SIZE,
            i <= n,
            head@.len() == i,
            entries(servers@) == pool_entries(),
            forall|j: int|
                0 <= j < i ==> (#[trigger] head@[j]).server@ == pool_entries()[j] && head@[j].rtt_ms is None,
        decreases servers.len() - i,
    {
        proof {
            assert(entries(servers@)[i as int] == servers@[i as int]@);
        }
        head.push(Ranked { server: servers[i], rtt_ms: None });
        i += 1;
    }
    head
}

fn holds(v: &Vec<usize>, x: usize) -> (r: bool)
    ensures
        r == v@.contains(x),
{
    let mut i: usize = 0;
    while i < v.len()
        invariant
            i <= v@.len(),
            forall|j: int| 0 <= j < i ==> v@[j] != x,
        decreases v.len() - i,
    {
        if v[i] == x {
            return true;
        }
        i += 1;
    }
    false
}

proof fn lemma_passed(checks: Seq<Check>)
    requires
        forall|j: int, k: int| 0 <= j < k < checks.len() ==> checks[j].0 < checks[k].0,
    ensures
        forall|a: int|
            0 <= a < passed(checks).len() ==> passes(checks, #[trigger] passed(checks)[a]),
        forall|j: int|
            0 <= j < checks.len() && (#[trigger] checks[j]).1 is Ok ==> passed(checks).contains(
                checks[j].0,
            ),
        forall|a: int, b: int| 0 <= a < b < passed(checks).len() ==> passed(checks)[a] < passed(checks)[b],
    decreases checks.len(),
{
    if checks.len() > 0 {
        let rest = checks.drop_last();
        lemma_passed(rest);
        let p = passed(checks);
        let before = passed(rest);
        assert forall|a: int| 0 <= a < p.len() implies passes(checks, #[trigger] p[a]) by {
            if a < before.len() {
                assert(p[a] == before[a]);
                assert(passes(rest, before[a]));
                let j = choose|j: int|
                    0 <= j < rest.len() && (#[trigger] rest[j]).0 == before[a] && rest[j].1 is Ok;
                assert(checks[j] == rest[j]);
            } else {
                assert(checks[checks.len() - 1].0 == p[a]);
            }
        }
        assert forall|j: int|
            0 <= j < checks.len() && (#[trigger] checks[j]).1 is Ok implies p.contains(checks[j].0) by {
            if j < rest.len() {
                assert(rest[j] == checks[j]);
                let a = before.index_of(checks[j].0);
                assert(p[a] == checks[j].0);
            } else {
                assert(p[p.len() - 1] == checks[j].0);
            }
        }
        assert forall|a: int, b: int| 0 <= a < b < p.len() implies p[a] < p[b] by {
            assert(p[a] == before[a]);
            if b < before.len() {
                assert(p[b] == before[b]);
            } else {
                assert(passes(rest, before[a]));
                let j = choose|j: int|
                    0 <= j < rest.len() && (#[trigger] rest[j]).0 == before[a] && rest[j].1 is Ok;
                assert(checks[j].0 < checks[checks.len() - 1].0);
            }
        }
    }
}

proof fn lemma_distinct_of_distinct<T>(s: Seq<T>)
    requires
        s.no_duplicates(),
    ensures
        distinct(s) == s,
    decreases s.len(),
{
    if s.len() > 0 {
        lemma_distinct_of_distinct(s.drop_last());
        assert(s =~= s.drop_last().push(s.last()));
    } else {
        assert(distinct(s) =~= s);
    }
}

/// Where a ranking's servers are checked in order and some pass, exactly the first
/// `n` that passed are chosen, still nearest first.
pub proof fn chosen_servers_passed_nearest_first(ranked: Seq<Ranked>, checks: Seq<Check>, n: int)
    requires
        sorted(ranked),
        forall|j: int| 0 <= j < checks.len() ==> (#[trigger] checks[j]).0 < ranked.len(),
        forall|j: int, k: int| 0 <= j < k < checks.len() ==> checks[j].0 < checks[k].0,
        0 <= n,
    ensures
        ({
            let chosen = first_of(passed(checks), n);
            &&& distinct(chosen) == chosen
            &&& sorted(distinct(chosen).map_values(|i: usize| ranked[i as int]))
            &&& forall|a: int| 0 <= a < chosen.len() ==> passes(checks, #[trigger] chosen[a])
        }),
{
    lemma_passed(checks);
    let all = passed(checks);
    let chosen = first_of(all, n);
    assert(chosen.no_duplicates());
    lemma_distinct_of_distinct(chosen);
    let t = chosen.map_values(|i: usize| ranked[i as int]);
    assert forall|a: int| 0 <= a < chosen.len() implies passes(checks, #[trigger] chosen[a]) by {
        assert(chosen[a] == all[a]);
    }
    assert forall|i: int, j: int| 0 <= i <= j < t.len() implies t[i].place_of() <= t[j].place_of() by {
        assert(chosen[i] == all[i] && chosen[j] == all[j]);
        assert(chosen[i] <= chosen[j]);
        assert(ranked[chosen[i] as int].place_of() <= ranked[chosen[j] as int].place_of());
    }
}

/// What is told of a mirror that answered a one-byte range request with `code`.
pub open spec fn range_failure(code: u16) -> Option<Seq<char>> {
    if code == 206 {
        None
    } else if code == 200 {
        Some("no range support"@)
    } else {
        Some("HTTP "@ + decimal_text(code as nat))
    }
}

/// Judges the status of a one-byte range request; its body is read only if this is
/// `Ok`. A server that ignores Range would send the whole file.
pub fn range_status(code: u16) -> (r: Result<(), String>)
    ensures
        match range_failure(code) {
            None => r is Ok,
            Some(t) => r matches Err(e) && e@ == t,
        },
{
    if code == 206 {
        Ok(())
    } else if code == 200 {
        Err("no range support".to_owned())
    } else {
        let mut e = "HTTP ".to_owned();
        e.append(decimal(code as u64).as_str());
        Err(e)
    }
}

/// What is told of a mirror that could not be asked.
pub fn describe_probe_error(e: &RequestError) -> (r: String)
    ensures
        r@ == if e.connect {
            "could not connect"@
        } else {
            e.text@
        },
{
    if e.connect {
        "could not connect".to_owned()
    } else {
        e.text.clone()
    }
}

/// The cities of some servers, in order.
pub open spec fn city_names(servers: Seq<Ranked>) -> Seq<Seq<char>> {
    Seq::new(servers.len(), |i: int| servers[i].server.city@)
}

fn listed(v: &Vec<String>, x: &str) -> (r: bool)
    ensures
        r == texts(v@).contains(x@),
{
    let mut k: usize = 0;
    while k < v.len()
        invariant
            k <= v@.len(),
            forall|j: int| 0 <= j < k ==> (#[trigger] texts(v@)[j]) != x@,
        decreases v.len() - k,
    {
        proof {
            assert(texts(v@)[k as int] == v@[k as int]@);
        }
        if same(v[k].as_str(), x) {
            return true;
        }
        k += 1;
    }
    false
}

/// Distinct cities in order, e.g. "London · Amsterdam · Frankfurt".
pub fn cities(servers: &Vec<Ranked>) -> (r: String)
    ensures
        r@ == joined(distinct(city_names(servers@)), " · "@),
{
    let mut seen: Vec<String> = Vec::new();
    let mut i: usize = 0;
    proof {
        assert(texts(seen@) =~= distinct(city_names(servers@).take(0)));
    }
    while i < servers.len()
        invariant
            i <= servers@.len(),
            texts(seen@) == distinct(city_names(servers@).take(i as int)),
        decreases servers.len() - i,
    {
        let city: &'static str = servers[i].server.city;
        let ghost before = texts(seen@);
        proof {
            let names = city_names(servers@);
            assert(names.take(i + 1).drop_last() =~= names.take(i as int));
            assert(names.take(i + 1).last() == city@);
        }
        let found = listed(&seen, city);
        if !found {
            seen.push(city.to_owned());
            proof {
                assert(texts(seen@) =~= before.push(city@));
            }
        }
        i += 1;
    }
    proof {
        assert(city_names(servers@).take(i as int) =~= city_names(servers@));
    }
    join(&seen, " · ")
}

/// What came of checking server `i`, if it was checked.
pub open spec fn outcome(checks: Seq<Check>, i: int) -> Option<Result<(), String>>
    decreases checks.len(),
{
    if checks.len() == 0 {
        None
    } else if checks[0].0 == i {
        Some(checks[0].1)
    } else {
        outcome(checks.skip(1), i)
    }
}

/// Server `i` passed, by the first check of it.
pub open spec fn good(checks: Seq<Check>, i: int) -> bool {
    outcome(checks, i) matches Some(o) && o is Ok
}

/// How many of the servers before `i` are marked as used.
pub open spec fn marks_before(checks: Seq<Check>, i: int) -> int
    decreases i,
{
    if i <= 0 {
        0
    } else if good(checks, i - 1) && marks_before(checks, i - 1) < TEST_SERVERS {
        marks_before(checks, i - 1) + 1
    } else {
        marks_before(checks, i - 1)
    }
}

/// Server `i` is marked as used: one of the first that passed.
pub open spec fn in_use(checks: Seq<Check>, i: int) -> bool {
    good(checks, i) && marks_before(checks, i) < TEST_SERVERS
}

/// One line about server `i`: mark, round trip (`trip`, where it has one), city,
/// provider, host and what went wrong.
pub open spec fn row_text(
    color: bool,
    r: Ranked,
    trip: Seq<char>,
    checks: Seq<Check>,
    i: int,
) -> Seq<char> {
    let (mark, note) = if in_use(checks, i) {
        (styled(color, Accent::Cyan.code(), "●"@), ""@)
    } else {
        match outcome(checks, i) {
            Some(Err(e)) => (styled(color, "31"@, "✗"@), styled(color, "31"@, "  "@ + e@)),
            _ => (styled(color, "2"@, "·"@), ""@),
        }
    };
    let rtt = if r.rtt_ms is Some {
        right_aligned(trip, 9)
    } else {
        styled(color, "2"@, right_aligned("—"@, 9))
    };
    "  "@ + mark + " "@ + rtt + "   "@ + left_aligned(r.server.city@, 13) + " "@ + left_aligned(
        r.server.provider@,
        15,
    ) + " "@ + styled(color, "2"@, host_of(r.server.url@)) + note
}

/// The headline: how many mirrors are reachable, and what they were ranked by.
pub open spec fn headline(color: bool, ranked: Seq<Ranked>, method: Seq<char>) -> Seq<char> {
    "  "@ + styled(color, "1"@, "speed servers"@) + "  "@ + styled(
        color,
        "2"@,
        decimal_text(reachable(ranked).len()) + " of "@ + decimal_text(POOL_SIZE as nat)
            + " reachable · ranked by "@ + method,
    ) + "\n"@
}

fn find_check(checks: &Vec<Check>, i: usize) -> (r: Option<usize>)
    ensures
        match r {
            Some(j) => j < checks@.len() && outcome(checks@, i as int) == Some(checks@[j as int].1),
            None => outcome(checks@, i as int) is None,
        },
{
    let mut j: usize = 0;
    proof {
        assert(checks@.skip(0) =~= checks@);
    }
    while j < checks.len()
        invariant
            j <= checks@.len(),
            outcome(checks@, i as int) == outcome(checks@.skip(j as int), i as int),
        decreases checks.len() - j,
    {
        proof {
            assert(checks@.skip(j as int).skip(1) =~= checks@.skip(j + 1));
        }
        if checks[j].0 == i {
            return Some(j);
        }
        j += 1;
    }
    None
}

/// `speed servers`: every mirror ranked by round trip, with the nearest checked and
/// the ones in use marked. `trips` holds the text of each round trip.
pub fn list(
    color: bool,
    ranked: &Vec<Ranked>,
    method: &str,
    checks: &Vec<Check>,
    trips: &Vec<String>,
) -> (lines: Vec<String>)
    requires
        trips@.len() == ranked@.len(),
        ranked@.len() < usize::MAX,
    ensures
        lines@.len() == ranked@.len() + 1,
        lines@[0]@ == headline(color, ranked@, method@),
        forall|i: int|
            0 <= i < ranked@.len() ==> (#[trigger] lines@[i + 1])@ == row_text(
                color,
                ranked@[i],
                trips@[i]@,
                checks@,
                i,
            ),
{
    let mut count: u64 = 0;
    let mut i: usize = 0;
    while i < ranked.len()
        invariant
            i <= ranked@.len(),
            count == reachable(ranked@.take(i as int)).len(),
            count <= i,
        decreases ranked.len() - i,
    {
        proof {
            assert(ranked@.take(i + 1).drop_last() =~= ranked@.take(i as int));
        }
        if ranked[i].rtt_ms.is_some() {
            count = count + 1;
        }
        i += 1;
    }
    proof {
        assert(ranked@.take(i as int) =~= ranked@);
    }
    let mut summary = decimal(count);
    summary.append(" of ");
    summary.append(decimal(POOL_SIZE as u64).as_str());
    summary.append(" reachable · ranked by ");
    summary.append(method);
    let mut head = "  ".to_owned();
    head.append(bold(color, "speed servers").as_str());
    head.append("  ");
    head.append(dim(color, summary.as_str()).as_str());
    head.append("\n");
    let mut lines: Vec<String> = Vec::new();
    lines.push(head);
    let mut used: usize = 0;
    i = 0;
    while i < ranked.len()
        invariant
            i <= ranked@.len(),
            trips@.len() == ranked@.len(),
            used == marks_before(checks@, i as int),
            used <= TEST_SERVERS,
            lines@.len() == i + 1,
            lines@[0]@ == headline(color, ranked@, method@),
            forall|k: int|
                0 <= k < i ==> (#[trigger] lines@[k + 1])@ == row_text(
                    color,
                    ranked@[k],
                    trips@[k]@,
                    checks@,
                    k,
                ),
        decreases ranked.len() - i,
    {
        let r = ranked[i];
        let check = find_check(checks, i);
        let mut mark = dim(color, "·");
        let mut note = "".to_owned();
        if let Some(j) = check {
            match &checks[j].1 {
                Ok(_) => {
                    if used < TEST_SERVERS {
                        used = used + 1;
                        mark = Accent::Cyan.paint(color, "●");
                    }
                },
                Err(e) => {
                    mark = red(color, "✗");
                    let mut reason = "  ".to_owned();
                    reason.append(e.as_str());
                    note = red(color, reason.as_str());
                },
            }
        }
        let rtt = match r.rtt_ms {
            Some(_) => pad_left(trips[i].as_str(), 9),
            None => dim(color, pad_left("—", 9).as_str()),
        };
        let mut line = "  ".to_owned();
        line.append(mark.as_str());
        line.append(" ");
        line.append(rtt.as_str());
        line.append("   ");
        line.append(pad_right(r.server.city, 13).as_str());
        line.append(" ");
        line.append(pad_right(r.server.provider, 15).as_str());
        line.append(" ");
        line.append(dim(color, host(r.server.url).as_str()).as_str());
        line.append(note.as_str());
        proof {
            assert(line@ == row_text(color, r, trips@[i as int]@, checks@, i as int));
        }
        let ghost before = lines@;
        lines.push(line);
        proof {
            assert forall|k: int| 0 <= k < i + 1 implies (#[trigger] lines@[k + 1])@ == row_text(
                color,
                ranked@[k],
                trips@[k]@,
                checks@,
                k,
            ) by {
                if k < i {
                    assert(lines@[k + 1] == before[k + 1]);
                }
            }
        }
        i += 1;
    }
    lines
}

/// How many of the ascending `p` are below `i`.
spec fn below(p: Seq<usize>, i: int) -> int
    decreases i,
{
    if i <= 0 {
        0
    } else {
        let c = below(p, i - 1);
        if c < p.len() && p[c] == i - 1 {
            c + 1
        } else {
            c
        }
    }
}

proof fn lemma_below(p: Seq<usize>, i: int)
    requires
        0 <= i,
        forall|a: int, b: int| 0 <= a < b < p.len() ==> p[a] < p[b],
    ensures
        0 <= below(p, i) <= p.len(),
        forall|a: int| 0 <= a < below(p, i) ==> p[a] < i,
        forall|a: int| below(p, i) <= a < p.len() ==> p[a] >= i,
    decreases i,
{
    if i > 0 {
        lemma_below(p, i - 1);
    }
}

proof fn lemma_good(checks: Seq<Check>, i: int)
    requires
        forall|j: int, k: int| 0 <= j < k < checks.len() ==> checks[j].0 < checks[k].0,
        0 <= i <= usize::MAX,
    ensures
        good(checks, i) == passes(checks, i as usize),
    decreases checks.len(),
{
    if checks.len() > 0 {
        let rest = checks.skip(1);
        lemma_good(rest, i);
        if checks[0].0 == i {
            assert(checks[0].1 is Ok ==> passes(checks, i as usize));
        } else if passes(checks, i as usize) {
            let j = choose|j: int|
                0 <= j < checks.len() && (#[trigger] checks[j]).0 == i && checks[j].1 is Ok;
            assert(rest[j - 1] == checks[j]);
            assert(passes(rest, i as usize));
        } else if passes(rest, i as usize) {
            let j = choose|j: int|
                0 <= j < rest.len() && (#[trigger] rest[j]).0 == i && rest[j].1 is Ok;
            assert(checks[j + 1] == rest[j]);
        }
    }
}

proof fn lemma_marks(checks: Seq<Check>, i: int)
    requires
        forall|j: int, k: int| 0 <= j < k < checks.len() ==> checks[j].0 < checks[k].0,
        0 <= i <= usize::MAX,
    ensures
        marks_before(checks, i) == if below(passed(checks), i) < TEST_SERVERS {
            below(passed(checks), i)
        } else {
            TEST_SERVERS as int
        },
    decreases i,
{
    if i > 0 {
        lemma_marks(checks, i - 1);
        lemma_good(checks, i - 1);
        lemma_passed(checks);
        lemma_below(passed(checks), i - 1);
        lemma_found(checks, i - 1);
    }
}

proof fn lemma_found(checks: Seq<Check>, i: int)
    requires
        forall|j: int, k: int| 0 <= j < k < checks.len() ==> checks[j].0 < checks[k].0,
        0 <= i <= usize::MAX,
    ensures
        passes(checks, i as usize) == (below(passed(checks), i) < passed(checks).len()
            && passed(checks)[below(passed(checks), i)] == i),
{
    lemma_passed(checks);
    let p = passed(checks);
    lemma_below(p, i);
    let c = below(p, i);
    if passes(checks, i as usize) {
        let j = choose|j: int|
            0 <= j < checks.len() && (#[trigger] checks[j]).0 == i && checks[j].1 is Ok;
        assert(p.contains(checks[j].0));
        let a = p.index_of(i as usize);
        assert(p[a] == i);
        assert(a >= c);
        if a > c {
            assert(p[c] < p[a]);
        }
    } else if c < p.len() && p[c] == i {
        assert(passes(checks, p[c]));
    }
}

/// The servers marked in the list are the ones that would be chosen: the first
/// [`TEST_SERVERS`] that passed.
pub proof fn marked_servers_are_the_chosen(checks: Seq<Check>, i: int)
    requires
        forall|j: int, k: int| 0 <= j < k < checks.len() ==> checks[j].0 < checks[k].0,
        0 <= i <= usize::MAX,
    ensures
        in_use(checks, i) <==> first_of(passed(checks), TEST_SERVERS as int).contains(i as usize),
{
    lemma_good(checks, i);
    lemma_marks(checks, i);
    lemma_found(checks, i);
    lemma_passed(checks);
    let p = passed(checks);
    lemma_below(p, i);
    let f = first_of(p, TEST_SERVERS as int);
    let c = below(p, i);
    if in_use(checks, i) {
        assert(f[c] == i);
    }
    if f.contains(i as usize) {
        let a = f.index_of(i as usize);
        assert(f[a] == p[a]);
        assert(a >= c);
        assert(passes(checks, p[a]));
        if a > c {
            assert(p[c] < p[a]);
        }
    }
}

/// The pool starts with Hetzner's mirrors, and holds no others of Hetzner.
pub proof fn hetzner_comes_first(i: int)
    requires
        0 <= i < pool_entries().len(),
    ensures
        pool_entries()[i].1 == "Hetzner"@ <==> i < 6,
{
    reveal_strlit("Hetzner");
    reveal_strlit("Linode");
    reveal_strlit("OVH");
    reveal_strlit("thinkbroadband");
    assert("Hetzner"@.len() == 7);
    assert("Linode"@.len() == 6);
    assert("OVH"@.len() == 3);
    assert("thinkbroadband"@.len() == 14);
}

/// A URL with fewer than two slashes is its own host; one with a host names it behind
/// the second slash, up to the third or the end.
pub proof fn hosts_are_read(url: &str, r: String, scheme: Seq<char>, name: Seq<char>, path: Seq<char>)
    requires
        call_ensures(host, (url,), r),
        !scheme.contains('/'),
        !name.contains('/'),
    ensures
        url@ == scheme ==> r@ == url@,
        url@ == scheme + seq!['/'] + name ==> r@ == url@,
        (path.len() > 0 ==> path[0] == '/') && url@ == scheme + seq!['/', '/'] + name + path ==> r@
            == name,
{
    if url@ == scheme {
        lemma_next_slash(url@, 0, url@.len() as int);
    }
    if url@ == scheme + seq!['/'] + name {
        let a = scheme.len() as int;
        assert forall|i: int| 0 <= i < a implies url@[i] != '/' by {
            assert(url@[i] == scheme[i]);
        }
        assert forall|i: int| a + 1 <= i < url@.len() implies url@[i] != '/' by {
            assert(url@[i] == name[i - a - 1]);
        }
        lemma_next_slash(url@, 0, a);
        lemma_next_slash(url@, a + 1, url@.len() as int);
    }
    if (path.len() > 0 ==> path[0] == '/') && url@ == scheme + seq!['/', '/'] + name + path {
        host_stands_between_scheme_and_path(scheme, name, path);
    }
}

/// `t` holds what `s` holds, nearest first and the unreachable last.
pub open spec fn in_order(s: Seq<Ranked>, t: Seq<Ranked>) -> bool {
    &&& t.to_multiset() == s.to_multiset()
    &&& t.len() == s.len()
    &&& forall|i: int, j: int|
        #![trigger t[i], t[j]]
        0 <= i < j < t.len() ==> match (t[i].rtt_ms, t[j].rtt_ms) {
            (Some(a), Some(b)) => a.key <= b.key,
            (Some(_), None) => true,
            (None, Some(_)) => false,
            (None, None) => true,
        }
}

proof fn lemma_in_order(s: Seq<Ranked>, t: Seq<Ranked>)
    requires
        ranking_of(s, t),
    ensures
        in_order(s, t),
{
    vstd::seq_lib::to_multiset_len(s);
    vstd::seq_lib::to_multiset_len(t);
    assert forall|i: int, j: int|
        #![trigger t[i], t[j]]
        0 <= i < j < t.len() implies match (t[i].rtt_ms, t[j].rtt_ms) {
        (Some(a), Some(b)) => a.key <= b.key,
        (Some(_), None) => true,
        (None, Some(_)) => false,
        (None, None) => true,
    } by {
        nearest_come_first(s, t, i, j);
    }
}

/// Pings rank the servers as soon as one of them got through, and HTTP only where none
/// did; either way every server is ranked, nearest first and the unreachable last.
pub proof fn every_server_is_ranked(
    pinged: Vec<Ranked>,
    r: Ranking,
    probed: Vec<Ranked>,
    h: (Vec<Ranked>, &'static str),
)
    requires
        call_ensures(rank, (pinged,), r),
        call_ensures(rank_http, (probed,), h),
    ensures
        r is ProbeHttp <==> forall|i: int|
            0 <= i < pinged@.len() ==> (#[trigger] pinged@[i]).rtt_ms is None,
        r matches Ranking::Done(t, method) ==> in_order(pinged@, t@) && method@ == "ping"@,
        in_order(probed@, h.0@) && h.1@ == "http"@,
{
    if let Ranking::Done(t, _) = r {
        lemma_in_order(pinged@, t@);
    }
    lemma_in_order(probed@, h.0@);
}

/// The servers of `s` that are this far, in the order they stand in.
pub open spec fn as_far(s: Seq<Ranked>, rtt: Option<Reading>) -> Seq<Ranked> {
    s.filter(|x: Ranked| x.rtt_ms == rtt)
}

proof fn lemma_as_far(s: Seq<Ranked>, rtt: Option<Reading>, k: int)
    requires
        k == match rtt {
            Some(ms) => ms.key as int,
            None => i64::MAX + 1,
        },
    ensures
        as_far(s, rtt) == at_place(s, k),
    decreases s.len(),
{
    reveal(Seq::filter);
    if s.len() > 0 {
        lemma_as_far(s.drop_last(), rtt, k);
        if let (Some(a), Some(b)) = (s.last().rtt_ms, rtt) {
            assert(a == b <==> a.key == b.key);
        }
    }
}

/// Servers that are equally far keep the order they had.
pub proof fn ties_keep_their_order(pinged: Vec<Ranked>, r: Ranking, rtt: Option<Reading>)
    requires
        call_ensures(rank, (pinged,), r),
    ensures
        r matches Ranking::Done(t, _) ==> as_far(t@, rtt) == as_far(pinged@, rtt),
{
    if let Ranking::Done(t, _) = r {
        let k = match rtt {
            Some(ms) => ms.key as int,
            None => i64::MAX + 1,
        };
        lemma_as_far(t@, rtt, k);
        lemma_as_far(pinged@, rtt, k);
        assert(at_place(t@, k) == at_place(pinged@, k));
    }
}

proof fn lemma_targets(addrs: Seq<Option<[u8; 4]>>)
    requires
        addrs.len() <= usize::MAX,
    ensures
        forall|j: int|
            0 <= j < resolved(addrs).len() ==> (#[trigger] resolved(addrs)[j]).0 < addrs.len()
                && addrs[resolved(addrs)[j].0 as int] == Some(resolved(addrs)[j].1),
        forall|j: int, k: int|
            0 <= j < k < resolved(addrs).len() ==> resolved(addrs)[j].0 < resolved(addrs)[k].0,
        forall|i: int|
            0 <= i < addrs.len() && (#[trigger] addrs[i]) is Some ==> resolved(addrs).contains(
                (i as usize, addrs[i]->0),
            ),
    decreases addrs.len(),
{
    if addrs.len() > 0 {
        let before = addrs.drop_last();
        let r = resolved(addrs);
        let q = resolved(before);
        lemma_targets(before);
        assert forall|j: int| 0 <= j < r.len() implies (#[trigger] r[j]).0 < addrs.len()
            && addrs[r[j].0 as int] == Some(r[j].1) by {
            if j < q.len() {
                assert(r[j] == q[j]);
            }
        }
        assert forall|j: int, k: int| 0 <= j < k < r.len() implies r[j].0 < r[k].0 by {
            assert(r[j] == q[j]);
            if k < q.len() {
                assert(r[k] == q[k]);
            }
        }
        assert forall|i: int| 0 <= i < addrs.len() && (#[trigger] addrs[i]) is Some implies r.contains(
            (i as usize, addrs[i]->0),
        ) by {
            if i < before.len() {
                assert(before[i] == addrs[i]);
                let x = q.index_of((i as usize, addrs[i]->0));
                assert(r[x] == q[x]);
            } else {
                assert(r[r.len() - 1] == (i as usize, addrs[i]->0));
            }
        }
    }
}

/// Every server that resolved is pinged once, at its own address, in the order of the
/// pool, and no other is.
pub proof fn resolved_servers_are_pinged_once(addrs: Vec<Option<[u8; 4]>>, r: Vec<Target>)
    requires
        call_ensures(ping_targets, (&addrs,), r),
        addrs@.len() <= usize::MAX,
    ensures
        forall|j: int|
            0 <= j < r@.len() ==> (#[trigger] r@[j]).0 < addrs@.len() && addrs@[r@[j].0 as int]
                == Some(r@[j].1),
        forall|j: int, k: int| 0 <= j < k < r@.len() ==> r@[j].0 < r@[k].0,
        forall|i: int|
            0 <= i < addrs@.len() && (#[trigger] addrs@[i]) is Some ==> r@.contains(
                (i as usize, addrs@[i]->0),
            ),
{
    lemma_targets(addrs@);
}

proof fn lemma_trips(targets: Seq<Target>, rtts: Seq<Option<Reading>>, i: int)
    requires
        forall|j: int, k: int| 0 <= j < k < targets.len() ==> targets[j].0 < targets[k].0,
    ensures
        forall|j: int|
            0 <= j < targets.len() && j < rtts.len() && (#[trigger] targets[j]).0 == i ==> trip_of(
                targets,
                rtts,
                i,
            ) == rtts[j],
        (forall|j: int| 0 <= j < targets.len() ==> (#[trigger] targets[j]).0 != i) ==> trip_of(
            targets,
            rtts,
            i,
        ) is None,
    decreases targets.len(),
{
    if targets.len() > 0 && rtts.len() > 0 {
        let rest = targets.drop_last();
        lemma_trips(rest, rtts, i);
        assert forall|j: int| 0 <= j < rest.len() implies rest[j] == targets[j] by {}
        assert forall|j: int|
            0 <= j < targets.len() && j < rtts.len() && (#[trigger] targets[j]).0 == i implies trip_of(
            targets,
            rtts,
            i,
        ) == rtts[j] by {
            if j < rest.len() {
                assert(rest[j].0 == i);
                assert(targets[j].0 < targets[targets.len() - 1].0);
            }
        }
        if forall|j: int| 0 <= j < targets.len() ==> (#[trigger] targets[j]).0 != i {
            assert(targets[targets.len() - 1].0 != i);
        }
    }
}

/// Each server keeps its place and gets the round trip that was measured for the target
/// it is; one that is no target gets none.
pub proof fn trips_go_to_their_servers(
    servers: Vec<Server>,
    targets: Vec<Target>,
    rtts: Vec<Option<Reading>>,
    r: Vec<Ranked>,
    i: int,
)
    requires
        call_ensures(ping_all, (&servers, &targets, &rtts), r),
        forall|j: int, k: int| 0 <= j < k < targets@.len() ==> targets@[j].0 < targets@[k].0,
        0 <= i < servers@.len(),
    ensures
        r@.len() == servers@.len(),
        r@[i].server == servers@[i],
        forall|j: int|
            0 <= j < targets@.len() && j < rtts@.len() && (#[trigger] targets@[j]).0 == i
                ==> r@[i].rtt_ms == rtts@[j],
        (forall|j: int| 0 <= j < targets@.len() ==> (#[trigger] targets@[j]).0 != i)
            ==> r@[i].rtt_ms is None,
{
    lemma_trips(targets@, rtts@, i);
}

proof fn lemma_reachable_holds(ranked: Seq<Ranked>, i: int)
    requires
        ranked.len() <= usize::MAX,
        0 <= i < ranked.len(),
        ranked[i].rtt_ms is Some,
    ensures
        reachable(ranked).contains(i as usize),
    decreases ranked.len(),
{
    let before = ranked.drop_last();
    let r = reachable(ranked);
    if i < before.len() {
        lemma_reachable_holds(before, i);
        let q = reachable(before);
        let x = q.index_of(i as usize);
        assert(r[x] == q[x]);
    } else {
        assert(r[r.len() - 1] == i);
    }
}

/// Twice as many servers are checked as are wanted, or all that are reachable: no
/// reachable one is passed over for one behind it.
pub proof fn the_first_reachable_are_checked(ranked: Vec<Ranked>, n: usize, r: Vec<usize>, i: int)
    requires
        call_ensures(verify, (&ranked, n), r),
        ranked@.len() <= usize::MAX,
        0 <= i < ranked@.len(),
    ensures
        r@.len() <= 2 * n,
        forall|j: int|
            0 <= j < r@.len() ==> (#[trigger] r@[j]) < ranked@.len()
                && ranked@[r@[j] as int].rtt_ms is Some,
        forall|j: int, k: int| 0 <= j < k < r@.len() ==> r@[j] < r@[k],
        ranked@[i].rtt_ms is Some && !r@.contains(i as usize) ==> r@.len() == 2 * n && forall|j: int|
            0 <= j < r@.len() ==> #[trigger] r@[j] < i,
{
    let all = reachable(ranked@);
    lemma_reachable(ranked@);
    if ranked@[i].rtt_ms is Some && !r@.contains(i as usize) {
        lemma_reachable_holds(ranked@, i);
        let x = all.index_of(i as usize);
        assert(x >= r@.len()) by {
            if x < r@.len() {
                assert(r@[x] == i);
            }
        }
        assert forall|j: int| 0 <= j < r@.len() implies #[trigger] r@[j] < i by {
            assert(r@[j] == all[j]);
            assert(all[j] < all[x]);
        }
    }
}

/// `c` are the servers that are chosen, by index: each was checked and passed, they come
/// in the order they were checked in, and one that passed is left out only behind `n`
/// that were not.
pub open spec fn chosen_of(checks: Seq<Check>, n: int, c: Seq<usize>) -> bool {
    &&& c.len() <= n
    &&& forall|a: int, b: int| 0 <= a < b < c.len() ==> c[a] < c[b]
    &&& forall|a: int|
        0 <= a < c.len() ==> exists|j: int|
            0 <= j < checks.len() && (#[trigger] checks[j]).0 == #[trigger] c[a]
                && checks[j].1 is Ok
    &&& forall|j: int|
        0 <= j < checks.len() && (#[trigger] checks[j]).1 is Ok && !c.contains(checks[j].0)
            ==> c.len() == n && forall|a: int| 0 <= a < c.len() ==> #[trigger] c[a] < checks[j].0
}

/// Of servers that are checked nearest first, the first `n` that passed are chosen; where
/// none passed, the first `n` of the pool are, and nothing is known of their distance.
pub proof fn the_nearest_that_pass_are_chosen(
    ranked: Vec<Ranked>,
    checks: Vec<Check>,
    n: usize,
    r: Vec<Ranked>,
    servers: Vec<Server>,
)
    requires
        call_ensures(nearest, (&ranked, &checks, n), r),
        call_ensures(pool, (), servers),
        n > 0,
        forall|j: int, k: int| 0 <= j < k < checks@.len() ==> checks@[j].0 < checks@[k].0,
    ensures
        (exists|j: int| 0 <= j < checks@.len() && (#[trigger] checks@[j]).1 is Ok) ==> exists|
            c: Seq<usize>,
        | #[trigger]
            chosen_of(checks@, n as int, c) && c.len() == r@.len() && forall|a: int|
                0 <= a < c.len() ==> #[trigger] r@[a] == ranked@[c[a] as int],
        (forall|j: int| 0 <= j < checks@.len() ==> (#[trigger] checks@[j]).1 is Err) ==> {
            &&& r@.len() == if n < servers@.len() {
                n as nat
            } else {
                servers@.len()
            }
            &&& forall|i: int|
                0 <= i < r@.len() ==> (#[trigger] r@[i]).server@ == servers@[i]@
                    && r@[i].rtt_ms is None
        },
{
    lemma_passed(checks@);
    let all = passed(checks@);
    let c = first_of(all, n as int);
    assert(c.no_duplicates());
    lemma_distinct_of_distinct(c);
    if exists|j: int| 0 <= j < checks@.len() && (#[trigger] checks@[j]).1 is Ok {
        let j = choose|j: int| 0 <= j < checks@.len() && (#[trigger] checks@[j]).1 is Ok;
        assert(all.contains(checks@[j].0));
        assert(c.len() > 0);
        assert forall|a: int| 0 <= a < c.len() implies exists|k: int|
            0 <= k < checks@.len() && (#[trigger] checks@[k]).0 == #[trigger] c[a]
                && checks@[k].1 is Ok by {
            assert(c[a] == all[a]);
            assert(passes(checks@, all[a]));
        }
        assert forall|k: int|
            0 <= k < checks@.len() && (#[trigger] checks@[k]).1 is Ok && !c.contains(
                checks@[k].0,
            ) implies c.len() == n && forall|a: int|
            0 <= a < c.len() ==> #[trigger] c[a] < checks@[k].0 by {
            assert(all.contains(checks@[k].0));
            let x = all.index_of(checks@[k].0);
            assert(x >= c.len()) by {
                if x < c.len() {
                    assert(c[x] == checks@[k].0);
                }
            }
            assert forall|a: int| 0 <= a < c.len() implies #[trigger] c[a] < checks@[k].0 by {
                assert(c[a] == all[a]);
                assert(all[a] < all[x]);
            }
        }
        assert(chosen_of(checks@, n as int, c));
        assert forall|a: int| 0 <= a < c.len() implies #[trigger] r@[a] == ranked@[c[a] as int] by {}
    }
    if forall|j: int| 0 <= j < checks@.len() ==> (#[trigger] checks@[j]).1 is Err {
        if all.len() > 0 {
            assert(passes(checks@, all[0]));
        }
        assert forall|i: int| 0 <= i < r@.len() implies (#[trigger] r@[i]).server@
            == servers@[i]@ by {
            assert(entries(servers@)[i] == servers@[i]@);
        }
    }
}

/// Only partial content passes; a whole file tells that ranges are ignored, and any other
/// status is told by its number.
pub proof fn ranges_have_to_be_honored(code: u16, r: Result<(), String>)
    requires
        call_ensures(range_status, (code,), r),
    ensures
        r is Ok <==> code == 206,
        r matches Err(e) ==> e@ == if code == 200 {
            "no range support"@
        } else {
            "HTTP "@ + decimal_text(code as nat)
        },
{
}

proof fn lemma_distinct_prefix<T>(s: Seq<T>, k: int)
    requires
        0 <= k <= s.len(),
    ensures
        distinct(s.take(k)).len() <= distinct(s).len(),
        distinct(s).take(distinct(s.take(k)).len() as int) == distinct(s.take(k)),
    decreases s.len(),
{
    if k == s.len() {
        assert(s.take(k) =~= s);
        assert(distinct(s).take(distinct(s).len() as int) =~= distinct(s));
    } else {
        let rest = s.drop_last();
        lemma_distinct_prefix(rest, k);
        assert(rest.take(k) =~= s.take(k));
        let d = distinct(s.take(k));
        assert(distinct(s).take(d.len() as int) =~= distinct(rest).take(d.len() as int));
    }
}

/// `d` holds what `s` holds, each once, in the order in which they first stand in `s`.
pub open spec fn first_seen<T>(s: Seq<T>, d: Seq<T>) -> bool {
    &&& d.no_duplicates()
    &&& forall|x: T| d.contains(x) <==> s.contains(x)
    &&& forall|i: int, a: int|
        0 <= i < s.len() && 0 <= a < d.len() && #[trigger] s[i] == #[trigger] d[a] ==> forall|b: int|
            0 <= b < a ==> s.take(i).contains(#[trigger] d[b])
}

proof fn lemma_first_seen<T>(s: Seq<T>)
    ensures
        first_seen(s, distinct(s)),
{
    let d = distinct(s);
    distinct_keeps_each_once(s);
    assert forall|i: int, a: int|
        0 <= i < s.len() && 0 <= a < d.len() && #[trigger] s[i] == #[trigger] d[a] implies forall|
        b: int,
    |
        0 <= b < a ==> s.take(i).contains(#[trigger] d[b]) by {
        let p = s.take(i);
        lemma_distinct_prefix(s, i);
        lemma_distinct_prefix(s, i + 1);
        distinct_keeps_each_once(p);
        distinct_keeps_each_once(s.take(i + 1));
        let e = distinct(p);
        let f = distinct(s.take(i + 1));
        assert(s.take(i + 1).drop_last() =~= p);
        assert(s.take(i + 1)[i] == s[i]);
        assert(s.take(i + 1).contains(s[i]));
        assert(f.contains(s[i]));
        let x = f.index_of(s[i]);
        assert(d[x] == f[x]) by {
            assert(d.take(f.len() as int)[x] == f[x]);
        }
        assert(x == a);
        assert forall|b: int| 0 <= b < a implies p.contains(#[trigger] d[b]) by {
            assert(b < e.len());
            assert(d.take(e.len() as int)[b] == e[b]);
            assert(e.contains(e[b]));
        }
    }
}

/// Each city is named once, in the order of the servers.
pub proof fn cities_are_named_once(servers: Vec<Ranked>, names: Seq<Seq<char>>, r: String)
    requires
        call_ensures(cities, (&servers,), r),
        names.len() == servers@.len(),
        forall|i: int| 0 <= i < names.len() ==> #[trigger] names[i] == servers@[i].server.city@,
    ensures
        exists|d: Seq<Seq<char>>| #[trigger] first_seen(names, d) && r@ == joined(d, " · "@),
{
    assert(names =~= city_names(servers@));
    lemma_first_seen(names);
    assert(first_seen(names, distinct(names)));
}

proof fn lemma_outcome(checks: Seq<Check>, i: int)
    ensures
        match outcome(checks, i) {
            Some(o) => exists|j: int|
                0 <= j < checks.len() && (#[trigger] checks[j]).0 == i && checks[j].1 == o
                    && forall|k: int| 0 <= k < j ==> (#[trigger] checks[k]).0 != i,
            None => forall|k: int| 0 <= k < checks.len() ==> (#[trigger] checks[k]).0 != i,
        },
    decreases checks.len(),
{
    if checks.len() > 0 && checks[0].0 != i {
        let rest = checks.skip(1);
        lemma_outcome(rest, i);
        match outcome(checks, i) {
            Some(o) => {
                let j = choose|j: int|
                    0 <= j < rest.len() && (#[trigger] rest[j]).0 == i && rest[j].1 == o
                        && forall|k: int| 0 <= k < j ==> (#[trigger] rest[k]).0 != i;
                assert(checks[j + 1] == rest[j]);
                assert forall|k: int| 0 <= k < j + 1 implies (#[trigger] checks[k]).0 != i by {
                    if k > 0 {
                        assert(rest[k - 1].0 != i);
                    }
                }
            },
            None => {
                assert forall|k: int| 0 <= k < checks.len() implies (#[trigger] checks[k]).0 != i by {
                    if k > 0 {
                        assert(rest[k - 1].0 != i);
                    }
                }
            },
        }
    } else if checks.len() > 0 {
        assert(checks[0].0 == i);
    }
}

/// The list has a headline and a row for each server, with the columns in line: mark,
/// round trip, city, provider, host, and behind the host why a check failed. The mark is
/// a full one for the servers that would be chosen, a cross for those that failed their
/// check, and a dot for the others.
pub proof fn rows_are_in_line(
    ranked: Vec<Ranked>,
    method: &str,
    checks: Vec<Check>,
    trips: Vec<String>,
    lines: Vec<String>,
    i: int,
    c: Seq<usize>,
    name: String,
)
    requires
        call_ensures(list, (false, &ranked, method, &checks, &trips), lines),
        0 <= i < ranked@.len() <= usize::MAX,
        forall|j: int, k: int| 0 <= j < k < checks@.len() ==> checks@[j].0 < checks@[k].0,
        chosen_of(checks@, 5, c),
        trips@[i]@.len() <= 9,
        ranked@[i].server.city@.len() <= 13,
        ranked@[i].server.provider@.len() <= 15,
        call_ensures(host, (ranked@[i].server.url,), name),
    ensures
        lines@.len() == ranked@.len() + 1,
        ({
            let row = lines@[i + 1]@;
            let r = ranked@[i];
            &&& row.len() >= 46 + name@.len()
            &&& row[2] == if c.contains(i as usize) {
                '●'
            } else if exists|j: int|
                0 <= j < checks@.len() && (#[trigger] checks@[j]).0 == i && checks@[j].1 is Err {
                '✗'
            } else {
                '·'
            }
            &&& r.rtt_ms is Some ==> row.subrange(13 - trips@[i]@.len(), 13) == trips@[i]@
            &&& r.rtt_ms is None ==> row[12] == '—'
            &&& row.subrange(16, (16 + r.server.city@.len()) as int) == r.server.city@
            &&& row.subrange(30, (30 + r.server.provider@.len()) as int) == r.server.provider@
            &&& row.subrange(46, (46 + name@.len()) as int) == name@
            &&& forall|j: int|
                0 <= j < checks@.len() && (#[trigger] checks@[j]).0 == i ==> (
                checks@[j].1 matches Err(e) ==> row.skip((46 + name@.len()) as int) == "  "@ + e@)
        }),
{
    reveal_strlit("  ");
    reveal_strlit("   ");
    reveal_strlit(" ");
    reveal_strlit("");
    reveal_strlit("●");
    reveal_strlit("✗");
    reveal_strlit("·");
    reveal_strlit("—");
    let row = lines@[i + 1]@;
    let r = ranked@[i];
    assert(row == row_text(false, r, trips@[i]@, checks@, i));
    lemma_outcome(checks@, i);
    lemma_passed(checks@);
    marked_servers_are_the_chosen(checks@, i);
    let f = first_of(passed(checks@), TEST_SERVERS as int);
    assert(c.contains(i as usize) <==> f.contains(i as usize)) by {
        lemma_chosen_is_first(checks@, 5, c);
    }
    if r.rtt_ms is Some {
        assert(row.subrange(13 - trips@[i]@.len(), 13) =~= trips@[i]@);
    }
    assert(row.subrange(16, (16 + r.server.city@.len()) as int) =~= r.server.city@);
    assert(row.subrange(30, (30 + r.server.provider@.len()) as int) =~= r.server.provider@);
    assert(row.subrange(46, (46 + name@.len()) as int) =~= name@);
    assert forall|j: int| 0 <= j < checks@.len() && (#[trigger] checks@[j]).0 == i implies (
    checks@[j].1 matches Err(e) ==> row.skip((46 + name@.len()) as int) == "  "@ + e@) by {
        if let Err(e) = checks@[j].1 {
            assert(outcome(checks@, i) == Some(checks@[j].1));
            assert(row.skip((46 + name@.len()) as int) =~= "  "@ + e@);
        }
    }
}

proof fn lemma_chosen_is_first(checks: Seq<Check>, n: int, c: Seq<usize>)
    requires
        0 <= n,
        chosen_of(checks, n, c),
        forall|j: int, k: int| 0 <= j < k < checks.len() ==> checks[j].0 < checks[k].0,
    ensures
        c == first_of(passed(checks), n),
{
    lemma_passed(checks);
    let p = passed(checks);
    let f = first_of(p, n);
    lemma_same_start(checks, n, c, p, c.len());
    if c.len() < f.len() {
        let x = p[c.len() as int];
        assert(passes(checks, x));
        let j = choose|j: int|
            0 <= j < checks.len() && (#[trigger] checks[j]).0 == x && checks[j].1 is Ok;
        assert(!c.contains(x)) by {
            if c.contains(x) {
                let a = c.index_of(x);
                assert(c[a] == p[a]);
                assert(p[a] < p[c.len() as int]);
            }
        }
        assert(c.len() == n);
    }
    assert(c =~= f);
}

proof fn lemma_same_start(checks: Seq<Check>, n: int, c: Seq<usize>, p: Seq<usize>, m: nat)
    requires
        0 <= n,
        chosen_of(checks, n, c),
        forall|j: int, k: int| 0 <= j < k < checks.len() ==> checks[j].0 < checks[k].0,
        p == passed(checks),
        m <= c.len(),
    ensures
        m <= p.len(),
        forall|a: int| 0 <= a < m ==> c[a] == p[a],
    decreases m,
{
    lemma_passed(checks);
    if m > 0 {
        lemma_same_start(checks, n, c, p, (m - 1) as nat);
        let a = m - 1;
        let j = choose|j: int|
            0 <= j < checks.len() && (#[trigger] checks[j]).0 == c[a] && checks[j].1 is Ok;
        assert(p.contains(checks[j].0));
        let x = p.index_of(c[a]);
        assert(x >= a) by {
            if x < a {
                assert(c[x] == p[x]);
                assert(c[x] < c[a]);
            }
        }
        if x > a {
            assert(p[a] < p[x]);
            assert(passes(checks, p[a]));
            let k = choose|k: int|
                0 <= k < checks.len() && (#[trigger] checks[k]).0 == p[a] && checks[k].1 is Ok;
            assert(!c.contains(p[a])) by {
                if c.contains(p[a]) {
                    let y = c.index_of(p[a]);
                    if y < a {
                        assert(c[y] == p[y]);
                        assert(p[y] < p[a]);
                    } else if y > a {
                        assert(c[a] < c[y]);
                    }
                }
            }
            assert(c[a] < checks[k].0);
        }
    }
}

proof fn lemma_reachable_count(s: Seq<Ranked>)
    ensures
        reachable(s).len() == s.filter(|x: Ranked| x.rtt_ms is Some).len(),
    decreases s.len(),
{
    reveal(Seq::filter);
    if s.len() > 0 {
        lemma_reachable_count(s.drop_last());
    }
}

/// The headline of the list tells how many servers have a round trip, of how many there
/// are, and what they were ranked by.
pub proof fn headlines_count_the_reachable(
    ranked: Vec<Ranked>,
    method: &str,
    checks: Vec<Check>,
    trips: Vec<String>,
    lines: Vec<String>,
    servers: Vec<Server>,
)
    requires
        call_ensures(list, (false, &ranked, method, &checks, &trips), lines),
        call_ensures(pool, (), servers),
    ensures
        lines@[0]@ == "  "@ + "speed servers"@ + "  "@ + (decimal_text(
            ranked@.filter(|x: Ranked| x.rtt_ms is Some).len(),
        ) + " of "@ + decimal_text(servers@.len()) + " reachable · ranked by "@ + method@) + "\n"@,
{
    lemma_reachable_count(ranked@);
}

/// A mirror that could not be reached is told as such, any other failure in its own words.
pub proof fn probe_failures_are_told(e: RequestError, r: String)
    requires
        call_ensures(describe_probe_error, (&e,), r),
    ensures
        e.connect ==> r@ == "could not connect"@,
        !e.connect ==> r@ == e.text@,
{
}

proof fn lemma_row_shows(color: bool, r: Ranked, trip: Seq<char>, checks: Seq<Check>, i: int)
    requires
        bare(trip),
        bare(r.server.city@),
        bare(r.server.provider@),
        bare(host_of(r.server.url@)),
        outcome(checks, i) matches Some(Err(e)) ==> bare(e@),
    ensures
        shows(row_text(color, r, trip, checks, i), row_text(false, r, trip, checks, i)),
{
    reveal_strlit("  ");
    reveal_strlit("   ");
    reveal_strlit(" ");
    reveal_strlit("");
    reveal_strlit("●");
    reveal_strlit("✗");
    reveal_strlit("·");
    reveal_strlit("—");
    codes_have_no_letters(Accent::Cyan);
    let (mark, note, m, n) = if in_use(checks, i) {
        styles_do_not_show(color, Accent::Cyan.code(), "●"@);
        bare_texts_show(""@);
        (styled(color, Accent::Cyan.code(), "●"@), ""@, "●"@, ""@)
    } else {
        match outcome(checks, i) {
            Some(Err(e)) => {
                styles_do_not_show(color, "31"@, "✗"@);
                styles_do_not_show(color, "31"@, "  "@ + e@);
                (styled(color, "31"@, "✗"@), styled(color, "31"@, "  "@ + e@), "✗"@, "  "@ + e@)
            },
            _ => {
                styles_do_not_show(color, "2"@, "·"@);
                bare_texts_show(""@);
                (styled(color, "2"@, "·"@), ""@, "·"@, ""@)
            },
        }
    };
    let dash = right_aligned("—"@, 9);
    let (rtt, t) = if r.rtt_ms is Some {
        bare_texts_show(right_aligned(trip, 9));
        (right_aligned(trip, 9), right_aligned(trip, 9))
    } else {
        styles_do_not_show(color, "2"@, dash);
        (styled(color, "2"@, dash), dash)
    };
    let city = left_aligned(r.server.city@, 13);
    let provider = left_aligned(r.server.provider@, 15);
    let name = host_of(r.server.url@);
    let host_text = styled(color, "2"@, name);
    bare_texts_show("  "@);
    bare_texts_show("   "@);
    bare_texts_show(" "@);
    bare_texts_show(city);
    bare_texts_show(provider);
    styles_do_not_show(color, "2"@, name);
    let (a, x) = ("  "@ + mark, "  "@ + m);
    texts_show_in_turn("  "@, "  "@, mark, m);
    texts_show_in_turn(a, x, " "@, " "@);
    texts_show_in_turn(a + " "@, x + " "@, rtt, t);
    let (b, y) = (a + " "@ + rtt, x + " "@ + t);
    texts_show_in_turn(b, y, "   "@, "   "@);
    texts_show_in_turn(b + "   "@, y + "   "@, city, city);
    let (c, z) = (b + "   "@ + city, y + "   "@ + city);
    texts_show_in_turn(c, z, " "@, " "@);
    texts_show_in_turn(c + " "@, z + " "@, provider, provider);
    let (d, w) = (c + " "@ + provider, z + " "@ + provider);
    texts_show_in_turn(d, w, " "@, " "@);
    texts_show_in_turn(d + " "@, w + " "@, host_text, name);
    texts_show_in_turn(d + " "@ + host_text, w + " "@ + name, note, n);
}

proof fn lemma_headline_shows(color: bool, ranked: Seq<Ranked>, method: Seq<char>)
    requires
        bare(method),
    ensures
        shows(headline(color, ranked, method), headline(false, ranked, method)),
{
    reveal_strlit("  ");
    reveal_strlit("\n");
    reveal_strlit("speed servers");
    reveal_strlit(" of ");
    reveal_strlit(" reachable · ranked by ");
    codes_have_no_letters(Accent::Cyan);
    figures_are_bare(reachable(ranked).len());
    figures_are_bare(POOL_SIZE as nat);
    let told = decimal_text(reachable(ranked).len()) + " of "@ + decimal_text(POOL_SIZE as nat)
        + " reachable · ranked by "@ + method;
    bare_texts_show("  "@);
    bare_texts_show("\n"@);
    styles_do_not_show(color, "1"@, "speed servers"@);
    styles_do_not_show(color, "2"@, told);
    let name = styled(color, "1"@, "speed servers"@);
    texts_show_in_turn("  "@, "  "@, name, "speed servers"@);
    texts_show_in_turn("  "@ + name, "  "@ + "speed servers"@, "  "@, "  "@);
    texts_show_in_turn(
        "  "@ + name + "  "@,
        "  "@ + "speed servers"@ + "  "@,
        styled(color, "2"@, told),
        told,
    );
    texts_show_in_turn(
        "  "@ + name + "  "@ + styled(color, "2"@, told),
        "  "@ + "speed servers"@ + "  "@ + told,
        "\n"@,
        "\n"@,
    );
}

/// The colored list shows as the plain one, line by line.
pub proof fn colored_lists_show_the_same(
    ranked: Vec<Ranked>,
    method: &str,
    checks: Vec<Check>,
    trips: Vec<String>,
    colored: Vec<String>,
    plain: Vec<String>,
    i: int,
)
    requires
        call_ensures(list, (true, &ranked, method, &checks, &trips), colored),
        call_ensures(list, (false, &ranked, method, &checks, &trips), plain),
        0 <= i < ranked@.len(),
        bare(method@),
        bare(trips@[i]@),
        bare(ranked@[i].server.city@),
        bare(ranked@[i].server.provider@),
        bare(ranked@[i].server.url@),
        forall|j: int|
            0 <= j < checks@.len() ==> ((#[trigger] checks@[j]).1 matches Err(e) ==> bare(e@)),
    ensures
        colored@.len() == plain@.len(),
        shown_of(colored@[0]@) == plain@[0]@,
        shown_of(colored@[i + 1]@) == plain@[i + 1]@,
{
    lemma_headline_shows(true, ranked@, method@);
    shown_is_shown(colored@[0]@, plain@[0]@);
    let r = ranked@[i];
    lemma_host_bare(r.server.url@);
    lemma_outcome(checks@, i);
    lemma_row_shows(true, r, trips@[i]@, checks@, i);
    assert(colored@[i + 1]@ == row_text(true, r, trips@[i]@, checks@, i));
    assert(plain@[i + 1]@ == row_text(false, r, trips@[i]@, checks@, i));
    shown_is_shown(colored@[i + 1]@, plain@[i + 1]@);
}

proof fn lemma_slash_after(url: Seq<char>, from: int)
    requires
        0 <= from <= url.len(),
    ensures
        from <= next_slash(url, from) <= url.len(),
    decreases url.len() - from,
{
    if from < url.len() && url[from] != '/' {
        lemma_slash_after(url, from + 1);
    }
}

proof fn lemma_host_bare(url: Seq<char>)
    requires
        bare(url),
    ensures
        bare(host_of(url)),
{
    lemma_slash_after(url, 0);
    let first = next_slash(url, 0);
    if first < url.len() {
        lemma_slash_after(url, first + 1);
        let second = next_slash(url, first + 1);
        if second < url.len() {
            lemma_slash_after(url, second + 1);
        }
    }
}

} // verus!
