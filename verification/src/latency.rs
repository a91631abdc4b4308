//! Round-trip latency via ICMP echo: an unprivileged ICMP socket where the OS allows
//! one, else the system `ping` binary (which has the privileges), else timed HTTP
//! requests on a warm connection.

use std::collections::HashMap;
use vstd::prelude::*;
use vstd::string::*;

use crate::net::{ascending, balanced, the_median_is_in_the_middle, median_of, overall, Median};
use crate::reading::Reading;
use crate::text::{decimal, is_white_space};
use crate::text::{decimal_text, texts, white_space};

verus! {

/// The number of a pair of bytes, high byte first.
pub open spec fn word(high: u8, low: u8) -> nat {
    (high * 256 + low) as nat
}

/// The sum of `data` taken as 16-bit words, an odd byte at the end as a high byte.
pub open spec fn word_sum(data: Seq<u8>) -> nat
    decreases data.len(),
{
    if data.len() == 0 {
        0
    } else if data.len() == 1 {
        word(data[0], 0)
    } else {
        word(data[0], data[1]) + word_sum(data.skip(2))
    }
}

/// A sum in 16 bits with the carries added back in: what remains by 65535, with
/// 65535 in place of 0 where the sum is not 0.
pub open spec fn end_around(sum: nat) -> nat {
    if sum == 0 {
        0
    } else {
        ((sum - 1) % 65535 + 1) as nat
    }
}

/// The internet checksum: the complement of the sum of the words.
pub open spec fn checksum_of(data: Seq<u8>) -> int {
    65535 - end_around(word_sum(data))
}

/// The internet checksum of `data`.
pub fn checksum(data: &[u8]) -> (r: u16)
    requires
        word_sum(data@) <= u32::MAX,
    ensures
        r == checksum_of(data@),
{
    let mut sum: u32 = 0;
    let mut i: usize = 0;
    proof {
        assert(data@.skip(0) =~= data@);
    }
    while i < data.len()
        invariant
            i <= data@.len(),
            word_sum(data@) <= u32::MAX,
            sum + word_sum(data@.skip(i as int)) == word_sum(data@),
        decreases data.len() - i,
    {
        let ghost rest = data@.skip(i as int);
        if data.len() - i >= 2 {
            proof {
                assert(rest.skip(2) =~= data@.skip(i + 2));
            }
            sum = sum + (data[i] as u32 * 256 + data[i + 1] as u32);
            i += 2;
        } else {
            proof {
                assert(data@.skip(i + 1) =~= Seq::<u8>::empty());
            }
            sum = sum + data[i] as u32 * 256;
            i += 1;
        }
    }
    proof {
        assert(data@.skip(i as int) =~= Seq::<u8>::empty());
    }
    let ghost total = sum as nat;
    while sum >> 16 != 0
        invariant
            end_around(sum as nat) == end_around(total),
        decreases sum,
    {
        let ghost before = sum;
        let low: u32 = sum & 0xffff;
        let high: u32 = sum >> 16;
        proof {
            assert(low == before % 65536 && high == before / 65536 && high < 65536) by (bit_vector)
                requires
                    low == before & 0xffff,
                    high == before >> 16,
            ;
            lemma_carry(before as nat);
        }
        sum = low + high;
    }
    proof {
        assert(sum < 65536) by (bit_vector)
            requires
                sum >> 16 == 0u32,
        ;
        if sum > 0 {
            vstd::arithmetic::div_mod::lemma_small_mod((sum - 1) as nat, 65535);
        }
    }
    let folded: u16 = sum as u16;
    proof {
        assert(!folded == 0xffff - folded) by (bit_vector);
    }
    !folded
}

proof fn lemma_carry(sum: nat)
    requires
        sum >= 65536,
    ensures
        end_around(sum % 65536 + sum / 65536) == end_around(sum),
        0 < sum % 65536 + sum / 65536 < sum,
{
    let h = (sum / 65536) as int;
    let folded = sum % 65536 + sum / 65536;
    assert(folded == sum - 65535 * h);
    vstd::arithmetic::div_mod::lemma_mod_multiples_vanish(-h, sum - 1, 65535);
    assert(65535 * (-h) + (sum - 1) == folded - 1);
}

/// What an echo carries, to know it by.
pub open spec fn payload() -> Seq<u8> {
    seq![115u8, 112, 101, 101, 100, 45, 114, 115]
}

/// An ICMP message with this type and checksum.
pub open spec fn echo_message(kind: u8, sum: int, id: u16, seq: u16) -> Seq<u8> {
    seq![
        kind,
        0u8,
        (sum / 256) as u8,
        (sum % 256) as u8,
        (id / 256) as u8,
        (id % 256) as u8,
        (seq / 256) as u8,
        (seq % 256) as u8,
    ] + payload()
}

/// The echo request numbered `seq`, under its checksum.
pub open spec fn request_message(id: u16, seq: u16) -> Seq<u8> {
    echo_message(8, checksum_of(echo_message(8, 0, id, seq)), id, seq)
}

proof fn lemma_message_sum(kind: u8, sum: int, id: u16, seq: u16)
    requires
        0 <= sum < 65536,
    ensures
        word_sum(echo_message(kind, sum, id, seq)) == kind * 256 + sum + id + seq + 0x7370 + 0x6565
            + 0x642d + 0x7273,
{
    let m = echo_message(kind, sum, id, seq);
    reveal_with_fuel(word_sum, 9);
    assert(m.len() == 16);
    assert(m.skip(2).skip(2).skip(2).skip(2) =~= m.skip(8));
    assert(m.skip(8) =~= payload());
    assert(sum / 256 * 256 + sum % 256 == sum);
    assert(id / 256 * 256 + id % 256 == id);
    assert(seq / 256 * 256 + seq % 256 == seq);
    assert(m.skip(8).skip(2).skip(2).skip(2).skip(2) =~= Seq::<u8>::empty());
}

/// Builds the echo request numbered `seq`, from the process `id`.
pub fn echo_request(id: u16, seq: u16) -> (pkt: [u8; 16])
    ensures
        pkt@ == request_message(id, seq),
{
    let id_high: u8 = (id / 256) as u8;
    let id_low: u8 = (id % 256) as u8;
    let seq_high: u8 = (seq / 256) as u8;
    let seq_low: u8 = (seq % 256) as u8;
    let blank: [u8; 16] = [
        8,
        0,
        0,
        0,
        id_high,
        id_low,
        seq_high,
        seq_low,
        115,
        112,
        101,
        101,
        100,
        45,
        114,
        115,
    ];
    proof {
        lemma_message_sum(8, 0, id, seq);
        assert(blank@ =~= echo_message(8, 0, id, seq));
    }
    let sum: u16 = checksum(&blank);
    let pkt: [u8; 16] = [
        8,
        0,
        (sum / 256) as u8,
        (sum % 256) as u8,
        id_high,
        id_low,
        seq_high,
        seq_low,
        115,
        112,
        101,
        101,
        100,
        45,
        114,
        115,
    ];
    proof {
        assert(pkt@ =~= request_message(id, seq));
    }
    pkt
}

/// A request carries the checksum that makes it check: summed with it, the message
/// gives 0.
pub proof fn request_checks(id: u16, seq: u16)
    ensures
        checksum_of(request_message(id, seq)) == 0,
{
    let s = word_sum(echo_message(8, 0, id, seq)) as int;
    let sum = checksum_of(echo_message(8, 0, id, seq));
    lemma_message_sum(8, 0, id, seq);
    lemma_message_sum(8, sum, id, seq);
    let q = (s - 1) / 65535;
    assert(s - 1 == 65535 * q + (s - 1) % 65535);
    assert(s + sum - 1 == 65535 * q + 65534);
    vstd::arithmetic::div_mod::lemma_mod_multiples_vanish(q, 65534, 65535);
}

/// `datagram` without the IP header it may start with: macOS includes the IP header,
/// Linux doesn't. The low half of its first byte is its length in 4-byte words.
pub open spec fn message_part(datagram: Seq<u8>) -> Seq<u8> {
    if datagram.len() > 0 && datagram[0] / 16 == 4 {
        let header = datagram[0] % 16 * 4;
        if header < datagram.len() {
            datagram.skip(header as int)
        } else {
            Seq::empty()
        }
    } else {
        datagram
    }
}

/// The sequence number of the echo that `datagram` answers, if it is a reply to one
/// of ours. It is told by its type and payload: Linux rewrites the identifier.
pub open spec fn answered(datagram: Seq<u8>) -> Option<u16> {
    let m = message_part(datagram);
    if m.len() >= 16 && m[0] == 0 && m.subrange(8, 16) == payload() {
        Some(word(m[6], m[7]) as u16)
    } else {
        None
    }
}

/// Reads the sequence number of the echo that `datagram` answers.
pub fn reply_seq(datagram: &[u8]) -> (r: Option<u16>)
    ensures
        r == answered(datagram@),
{
    let mut start: usize = 0;
    if datagram.len() > 0 {
        let first: u8 = datagram[0];
        if first / 16 == 4 {
            let header: usize = (first % 16) as usize * 4;
            start = if header < datagram.len() { header } else { datagram.len() };
        }
    }
    let ghost m = message_part(datagram@);
    proof {
        assert(m =~= datagram@.skip(start as int));
    }
    if datagram.len() - start < 16 {
        return None;
    }
    let ours = datagram[start + 8] == 115 && datagram[start + 9] == 112 && datagram[start + 10]
        == 101 && datagram[start + 11] == 101 && datagram[start + 12] == 100 && datagram[start + 13]
        == 45 && datagram[start + 14] == 114 && datagram[start + 15] == 115;
    proof {
        let p = m.subrange(8, 16);
        if ours {
            assert(p =~= payload());
        } else {
            assert(p[0] == m[8] && p[1] == m[9] && p[2] == m[10] && p[3] == m[11] && p[4] == m[12]
                && p[5] == m[13] && p[6] == m[14] && p[7] == m[15]);
            assert(p != payload());
        }
    }
    if datagram[start] != 0 || !ours {
        return None;
    }
    Some(datagram[start + 6] as u16 * 256 + datagram[start + 7] as u16)
}

/// A host's answer is known for what it answers, whatever identifier and checksum it
/// comes back under, and whether or not an IP header stands before it.
pub proof fn answers_are_recognised(header: Seq<u8>, sum: int, id: u16, seq: u16)
    requires
        header.len() > 0 ==> header[0] / 16 == 4 && header[0] % 16 * 4 == header.len(),
    ensures
        answered(header + echo_message(0, sum, id, seq)) == Some(seq),
{
    let m = echo_message(0, sum, id, seq);
    let d = header + m;
    if header.len() > 0 {
        assert(d.skip(header.len() as int) =~= m);
    } else {
        assert(d =~= m);
    }
    assert(message_part(d) == m);
    assert(m.subrange(8, 16) =~= payload());
    assert(seq / 256 * 256 + seq % 256 == seq);
}

/// Our own request, should it come back to us, is not taken for an answer.
pub proof fn requests_are_no_answers(id: u16, seq: u16)
    ensures
        answered(request_message(id, seq)) is None,
{
}

/// The sequence numbers that have been given out.
pub struct SeqCounter {
    pub next: u16,
}

/// The `k`th number of the block that starts at `first`.
pub open spec fn seq_at(first: u16, k: int) -> u16 {
    ((first + k) % 65536) as u16
}

fn numbered(first: u16, k: usize) -> (r: u16)
    ensures
        r == seq_at(first, k as int),
{
    let step: u16 = (k % 65536) as u16;
    proof {
        let q = (k / 65536) as int;
        assert(first + k == 65536 * q + (first + step));
        vstd::arithmetic::div_mod::lemma_mod_multiples_vanish(q, first + step, 65536);
    }
    first.wrapping_add(step)
}

impl SeqCounter {
    pub fn new() -> (r: SeqCounter)
        ensures
            r.next == 0,
    {
        SeqCounter { next: 0 }
    }

    /// Reserves a block of `n` sequence numbers and gives the first.
    pub fn next_seqs(&mut self, n: usize) -> (first: u16)
        ensures
            first == old(self).next,
            final(self).next == seq_at(first, n as int),
    {
        let first: u16 = self.next;
        self.next = numbered(first, n);
        first
    }
}

/// Blocks reserved one after the other share no number, as long as they fit into the
/// 65536 there are: concurrent pings never collide.
pub proof fn reserved_blocks_are_disjoint(first: u16, n: int, m: int, i: int, j: int)
    requires
        0 <= i < n,
        0 <= j < m,
        n + m <= 65536,
    ensures
        seq_at(first, i) != seq_at(seq_at(first, n), j),
{
}

/// The numbers of one block differ.
pub proof fn block_numbers_differ(first: u16, i: int, j: int)
    requires
        0 <= i < j < 65536,
    ensures
        seq_at(first, i) != seq_at(first, j),
{
}

/// Where a batch of echoes stands: by sequence number, which address an echo that is
/// still out went to and when; and the best round trip of each address so far.
#[verifier::ext_equal]
pub struct BatchState {
    pub outstanding: Map<u16, (usize, u64)>,
    pub best: Seq<Option<u64>>,
}

/// The time from `from` to `to`, none where the clock went back.
pub open spec fn elapsed(from: u64, to: u64) -> u64 {
    if to >= from {
        (to - from) as u64
    } else {
        0
    }
}

/// The better of the best round trip so far and a new one.
pub open spec fn better(best: Option<u64>, new: u64) -> u64 {
    match best {
        Some(b) => if b <= new {
            b
        } else {
            new
        },
        None => new,
    }
}

impl BatchState {
    /// Every echo that is out went to one of the addresses.
    pub open spec fn wf(self) -> bool {
        forall|seq: u16| #[trigger]
            self.outstanding.contains_key(seq) ==> self.outstanding[seq].0 < self.best.len()
    }

    /// The state after `datagram` arrived at `now`: a reply to an echo that is out
    /// settles that echo, anything else is passed over.
    pub open spec fn with_reply(self, datagram: Seq<u8>, now: u64) -> BatchState {
        match answered(datagram) {
            Some(seq) => if self.outstanding.contains_key(seq) {
                let (i, sent) = self.outstanding[seq];
                BatchState {
                    outstanding: self.outstanding.remove(seq),
                    best: self.best.update(
                        i as int,
                        Some(better(self.best[i as int], elapsed(sent, now))),
                    ),
                }
            } else {
                self
            },
            None => self,
        }
    }
}

/// Echoes to a list of addresses, `rounds` to each, from a single socket. One socket
/// matters: with many concurrent ICMP sockets, macOS delivers some replies to the
/// wrong one. Times are nanoseconds on any one clock.
pub struct EchoBatch {
    pub count: usize,
    pub rounds: usize,
    pub first_seq: u16,
    pub attempts: usize,
    pub outstanding: HashMap<u16, (usize, u64)>,
    pub best: Vec<Option<u64>>,
}

impl View for EchoBatch {
    type V = BatchState;

    open spec fn view(&self) -> BatchState {
        BatchState { outstanding: self.outstanding@, best: self.best@ }
    }
}

impl EchoBatch {
    /// How many echoes the batch is made of.
    pub open spec fn total(&self) -> int {
        self.count * self.rounds
    }

    pub open spec fn wf(&self) -> bool {
        &&& self.best@.len() == self.count
        &&& self.attempts <= self.total() <= usize::MAX
        &&& self@.wf()
    }

    /// The echo to try next: the addresses in turn, as often as there are rounds.
    pub open spec fn upcoming(&self) -> Option<(usize, u16)> {
        if self.attempts < self.total() {
            Some(
                (
                    (self.attempts as int % self.count as int) as usize,
                    seq_at(self.first_seq, self.attempts as int),
                ),
            )
        } else {
            None
        }
    }

    /// A batch of which nothing has been sent yet.
    pub fn new(count: usize, first_seq: u16, rounds: usize) -> (r: EchoBatch)
        requires
            count * rounds <= usize::MAX,
        ensures
            r.wf(),
            r.count == count,
            r.rounds == rounds,
            r.first_seq == first_seq,
            r.attempts == 0,
            r@.outstanding == Map::<u16, (usize, u64)>::empty(),
            r@.best == Seq::new(count as nat, |_i: int| None::<u64>),
    {
        broadcast use vstd::std_specs::hash::group_hash_axioms;

        let mut best: Vec<Option<u64>> = Vec::new();
        let mut i: usize = 0;
        while i < count
            invariant
                i <= count,
                best@ =~= Seq::new(i as nat, |_i: int| None::<u64>),
            decreases count - i,
        {
            best.push(None);
            i += 1;
        }
        EchoBatch { count, rounds, first_seq, attempts: 0, outstanding: HashMap::new(), best }
    }

    /// Which address to send to next, and under which number; `None` once all are
    /// sent.
    pub fn next_echo(&self) -> (r: Option<(usize, u16)>)
        requires
            self.wf(),
        ensures
            r == self.upcoming(),
    {
        if self.attempts < self.count * self.rounds {
            assert(self.count > 0) by (nonlinear_arith)
                requires
                    self.attempts < self.count * self.rounds,
                    self.attempts >= 0,
                    self.count >= 0,
            ;
            Some((self.attempts % self.count, numbered(self.first_seq, self.attempts)))
        } else {
            None
        }
    }

    /// Takes note of the echo that was up: when it went out, if it did.
    pub fn record(&mut self, sent_at: Option<u64>)
        requires
            old(self).wf(),
            old(self).upcoming() is Some,
        ensures
            final(self).wf(),
            final(self).count == old(self).count,
            final(self).rounds == old(self).rounds,
            final(self).first_seq == old(self).first_seq,
            final(self).attempts == old(self).attempts + 1,
            final(self)@.best == old(self)@.best,
            final(self)@.outstanding == match sent_at {
                Some(t) => old(self)@.outstanding.insert(
                    (old(self).upcoming()->0).1,
                    ((old(self).upcoming()->0).0, t),
                ),
                None => old(self)@.outstanding,
            },
    {
        broadcast use vstd::std_specs::hash::group_hash_axioms;

        let up = self.next_echo();
        if let (Some((i, seq)), Some(t)) = (up, sent_at) {
            assert(i < self.count) by (nonlinear_arith)
                requires
                    i == self.attempts as int % self.count as int,
                    self.attempts < self.count * self.rounds,
                    self.attempts >= 0,
                    self.count >= 0,
            ;
            self.outstanding.insert(seq, (i, t));
        }
        self.attempts = self.attempts + 1;
        proof {
            assert forall|k: u16| #[trigger]
                self@.outstanding.contains_key(k) implies self@.outstanding[k].0
                < self@.best.len() by {
                if !(sent_at is Some && k == (old(self).upcoming()->0).1) {
                    assert(old(self)@.outstanding.contains_key(k));
                }
            }
        }
    }

    /// How long to wait for a reply; `None` once every echo is answered or the time is
    /// up.
    pub fn wait(&self, now: u64, deadline: u64) -> (r: Option<u64>)
        ensures
            r == if self@.outstanding.dom().len() > 0 && now < deadline {
                Some((deadline - now) as u64)
            } else {
                None
            },
    {
        broadcast use vstd::std_specs::hash::group_hash_axioms;

        if !self.outstanding.is_empty() && now < deadline {
            Some(deadline - now)
        } else {
            None
        }
    }

    /// Takes in a datagram that arrived at `now`.
    pub fn receive(&mut self, datagram: &[u8], now: u64)
        requires
            old(self).wf(),
        ensures
            final(self).wf(),
            final(self).count == old(self).count,
            final(self).rounds == old(self).rounds,
            final(self).first_seq == old(self).first_seq,
            final(self).attempts == old(self).attempts,
            final(self)@ == old(self)@.with_reply(datagram@, now),
    {
        broadcast use vstd::std_specs::hash::group_hash_axioms;

        if let Some(seq) = reply_seq(datagram) {
            if let Some((i, sent)) = self.outstanding.remove(&seq) {
                proof {
                    let s = old(self)@;
                    assert(s.outstanding.contains_key(seq));
                    assert(s.outstanding[seq] == (i, sent));
                }
                let trip: u64 = now.saturating_sub(sent);
                let new: u64 = match self.best[i] {
                    Some(b) if b <= trip => b,
                    _ => trip,
                };
                self.best.set(i, Some(new));
            }
        }
        proof {
            assert(self@ =~= old(self)@.with_reply(datagram@, now));
            assert forall|k: u16| #[trigger]
                self@.outstanding.contains_key(k) implies self@.outstanding[k].0
                < self@.best.len() by {
                assert(old(self)@.outstanding.contains_key(k));
            }
        }
    }

    /// The best round trip of each address, in nanoseconds.
    pub fn finish(self) -> (r: Vec<Option<u64>>)
        ensures
            r@ == self@.best,
    {
        self.best
    }
}

/// A reply that comes twice counts once.
pub proof fn repeated_replies_change_nothing(s: BatchState, datagram: Seq<u8>, now: u64, later: u64)
    ensures
        s.with_reply(datagram, now).with_reply(datagram, later) == s.with_reply(datagram, now),
{
}

/// A reply only ever improves a round trip, and only that of the address its echo
/// went to.
pub proof fn replies_improve_their_address(s: BatchState, datagram: Seq<u8>, now: u64, j: int)
    requires
        s.wf(),
        0 <= j < s.best.len(),
    ensures
        s.with_reply(datagram, now).wf(),
        s.with_reply(datagram, now).best.len() == s.best.len(),
        s.best[j] matches Some(b) ==> (s.with_reply(datagram, now).best[j] matches Some(c) && c
            <= b),
        s.with_reply(datagram, now).best[j] != s.best[j] ==> (answered(datagram) matches Some(seq)
            && s.outstanding.contains_key(seq) && s.outstanding[seq].0 == j),
{
}

/// What is not a reply to one of our echoes is passed over.
pub proof fn strangers_change_nothing(s: BatchState, datagram: Seq<u8>, now: u64)
    requires
        answered(datagram) is None,
    ensures
        s.with_reply(datagram, now) == s,
{
}

/// The state after `replies`, each a datagram and the time it arrived at.
pub open spec fn after_replies(s: BatchState, replies: Seq<(Seq<u8>, u64)>) -> BatchState
    decreases replies.len(),
{
    if replies.len() == 0 {
        s
    } else {
        after_replies(s, replies.drop_last()).with_reply(replies.last().0, replies.last().1)
    }
}

/// The round trip of the echo to address `j` that the `k`th of `replies` settles, if it
/// settles one.
pub open spec fn trip_by(s: BatchState, replies: Seq<(Seq<u8>, u64)>, k: int, j: int) -> Option<
    u64,
> {
    let out = after_replies(s, replies.take(k)).outstanding;
    match answered(replies[k].0) {
        Some(seq) => if out.contains_key(seq) && out[seq].0 == j {
            Some(elapsed(out[seq].1, replies[k].1))
        } else {
            None
        },
        None => None,
    }
}

/// What a batch tells of an address is the shortest round trip of the echoes to it that
/// were answered, and nothing only where none was.
pub proof fn best_is_the_shortest_trip(s: BatchState, replies: Seq<(Seq<u8>, u64)>, j: int)
    requires
        s.wf(),
        0 <= j < s.best.len(),
        s.best[j] is None,
    ensures
        match after_replies(s, replies).best[j] {
            Some(b) => {
                &&& exists|k: int|
                    0 <= k < replies.len() && #[trigger] trip_by(s, replies, k, j) == Some(b)
                &&& forall|k: int|
                    0 <= k < replies.len() ==> (#[trigger] trip_by(s, replies, k, j) matches Some(t)
                        ==> b <= t)
            },
            None => forall|k: int|
                0 <= k < replies.len() ==> #[trigger] trip_by(s, replies, k, j) is None,
        },
        after_replies(s, replies).wf(),
        after_replies(s, replies).best.len() == s.best.len(),
    decreases replies.len(),
{
    if replies.len() > 0 {
        let rest = replies.drop_last();
        let last = replies.len() - 1;
        let before = after_replies(s, rest);
        best_is_the_shortest_trip(s, rest, j);
        replies_improve_their_address(before, replies[last].0, replies[last].1, j);
        assert forall|k: int| 0 <= k < last implies #[trigger] trip_by(s, replies, k, j) == trip_by(
            s,
            rest,
            k,
            j,
        ) by {
            assert(replies.take(k) =~= rest.take(k));
        }
        assert(replies.take(last) =~= rest);
        if let Some(b) = before.best[j] {
            let k = choose|k: int|
                0 <= k < rest.len() && #[trigger] trip_by(s, rest, k, j) == Some(b);
            assert(trip_by(s, replies, k, j) == Some(b));
        }
        assert(trip_by(s, replies, last, j) is Some ==> after_replies(s, replies).best[j] == Some(
            better(before.best[j], trip_by(s, replies, last, j)->0),
        ));
        assert(trip_by(s, replies, last, j) is None ==> after_replies(s, replies).best[j]
            == before.best[j]);
    }
}

/// How round trips are measured.
pub enum Pinger {
    /// Echoes over an unprivileged socket, to this address.
    Icmp([u8; 4]),
    /// The system `ping` binary, to this address.
    SystemPing([u8; 4]),
    /// Timed requests for this file.
    Http { url: String },
}

impl Pinger {
    /// What the measurement is called.
    pub open spec fn name(self) -> Seq<char> {
        match self {
            Pinger::Icmp(_) => "icmp"@,
            Pinger::SystemPing(_) => "icmp"@,
            Pinger::Http { .. } => "http"@,
        }
    }

    pub fn method(&self) -> (r: &'static str)
        ensures
            r@ == self.name(),
    {
        match self {
            Pinger::Icmp(_) => "icmp",
            Pinger::SystemPing(_) => "icmp",
            Pinger::Http { .. } => "http",
        }
    }

    /// The ways to try, best first: if there is an address, both kinds of echo to it;
    /// then requests to `fallback_url`, if there is one.
    pub fn new(addr: Option<[u8; 4]>, fallback_url: Option<&str>) -> (r: Vec<Pinger>)
        ensures
            r@.len() == if addr is Some {
                2int
            } else {
                0
            } + if fallback_url is Some {
                1int
            } else {
                0
            },
            addr matches Some(a) ==> r@[0] == Pinger::Icmp(a) && r@[1] == Pinger::SystemPing(a),
            fallback_url matches Some(u) ==> (r@.last() matches Pinger::Http { url } && url@ == u@),
    {
        let mut r: Vec<Pinger> = Vec::new();
        if let Some(a) = addr {
            r.push(Pinger::Icmp(a));
            r.push(Pinger::SystemPing(a));
        }
        if let Some(u) = fallback_url {
            r.push(Pinger::Http { url: u.to_owned() });
        }
        r
    }

    /// ICMP if an echo gets through, else HTTP, else nothing: of `count` candidates,
    /// the first that got a reply, as far as they have been tried in their order.
    pub fn pick(count: usize, replied: &Vec<bool>) -> (r: PingerChoice)
        ensures
            r == choice(count as int, replied@),
    {
        let mut i: usize = 0;
        while i < replied.len()
            invariant
                i <= replied@.len(),
                first_reply(replied@, 0) == first_reply(replied@, i as int),
            decreases replied.len() - i,
        {
            if replied[i] {
                return PingerChoice::Use(i);
            }
            i += 1;
        }
        if i < count {
            PingerChoice::Try(i)
        } else {
            PingerChoice::Unavailable
        }
    }
}

/// Where the choice of a way to measure stands, by the index of a candidate.
#[derive(Clone, Copy, PartialEq, Eq, Structural, Debug)]
pub enum PingerChoice {
    /// Measure this way.
    Use(usize),
    /// Nothing has replied yet: try this one.
    Try(usize),
    /// No way is left.
    Unavailable,
}

/// The index of the first reply from `from` on; the length where there is none.
pub open spec fn first_reply(replied: Seq<bool>, from: int) -> int
    decreases replied.len() - from,
{
    if from >= replied.len() || replied[from] {
        from
    } else {
        first_reply(replied, from + 1)
    }
}

/// The choice among `count` candidates, of which the first have been tried.
pub open spec fn choice(count: int, replied: Seq<bool>) -> PingerChoice {
    let i = first_reply(replied, 0);
    if i < replied.len() {
        PingerChoice::Use(i as usize)
    } else if i < count {
        PingerChoice::Try(i as usize)
    } else {
        PingerChoice::Unavailable
    }
}

proof fn lemma_first_reply(replied: Seq<bool>, from: int)
    requires
        0 <= from <= replied.len(),
    ensures
        from <= first_reply(replied, from) <= replied.len(),
        forall|j: int| from <= j < first_reply(replied, from) ==> !replied[j],
        first_reply(replied, from) < replied.len() ==> replied[first_reply(replied, from)],
    decreases replied.len() - from,
{
    if from < replied.len() && !replied[from] {
        lemma_first_reply(replied, from + 1);
    }
}

/// The one that is used got a reply and none before it did; as long as none did, the
/// next is tried, and only when all have been tried without one there is no way.
pub proof fn first_to_reply_is_used(count: int, replied: Seq<bool>)
    requires
        replied.len() <= count <= usize::MAX,
    ensures
        match choice(count, replied) {
            PingerChoice::Use(i) => i < replied.len() && replied[i as int] && (forall|j: int|
                0 <= j < i ==> !replied[j]),
            PingerChoice::Try(i) => i == replied.len() && i < count && (forall|j: int|
                0 <= j < i ==> !replied[j]),
            PingerChoice::Unavailable => replied.len() == count && (forall|j: int|
                0 <= j < count ==> !replied[j]),
        },
{
    lemma_first_reply(replied, 0);
}

/// An address that a name stands for.
pub enum Address {
    V4([u8; 4]),
    V6([u8; 16]),
}

/// The first IPv4 address.
pub open spec fn first_v4(addrs: Seq<Address>) -> Option<[u8; 4]>
    decreases addrs.len(),
{
    if addrs.len() == 0 {
        None
    } else {
        match addrs[0] {
            Address::V4(a) => Some(a),
            Address::V6(_) => first_v4(addrs.skip(1)),
        }
    }
}

/// Picks the first IPv4 address of those that a name was resolved to.
pub fn resolve_v4(addrs: &Vec<Address>) -> (r: Option<[u8; 4]>)
    ensures
        r == first_v4(addrs@),
{
    let mut i: usize = 0;
    proof {
        assert(addrs@.skip(0) =~= addrs@);
    }
    while i < addrs.len()
        invariant
            i <= addrs@.len(),
            first_v4(addrs@) == first_v4(addrs@.skip(i as int)),
        decreases addrs.len() - i,
    {
        proof {
            assert(addrs@.skip(i as int).skip(1) =~= addrs@.skip(i + 1));
        }
        if let Address::V4(a) = &addrs[i] {
            return Some(*a);
        }
        i += 1;
    }
    None
}

/// An IPv4 address with dots.
pub open spec fn dotted(a: [u8; 4]) -> Seq<char> {
    decimal_text(a@[0] as nat) + "."@ + decimal_text(a@[1] as nat) + "."@ + decimal_text(
        a@[2] as nat,
    ) + "."@ + decimal_text(a@[3] as nat)
}

fn dotted_address(a: [u8; 4]) -> (r: String)
    ensures
        r@ == dotted(a),
{
    let mut r = decimal(a[0] as u64);
    r.append(".");
    r.append(decimal(a[1] as u64).as_str());
    r.append(".");
    r.append(decimal(a[2] as u64).as_str());
    r.append(".");
    r.append(decimal(a[3] as u64).as_str());
    r
}

/// What to call the system `ping` with: `count` echoes, 0.2 s apart.
pub fn ping_args(addr: [u8; 4], count: u32) -> (r: Vec<String>)
    ensures
        texts(r@) == seq!["-c"@, decimal_text(count as nat), "-i"@, "0.2"@, dotted(addr)],
{
    let mut r: Vec<String> = Vec::new();
    r.push("-c".to_owned());
    r.push(decimal(count as u64));
    r.push("-i".to_owned());
    r.push("0.2".to_owned());
    r.push(dotted_address(addr));
    proof {
        assert(texts(r@) =~= seq![
            "-c"@,
            decimal_text(count as nat),
            "-i"@,
            "0.2"@,
            dotted(addr),
        ]);
    }
    r
}

/// What stands before each round trip that `ping` prints.
pub open spec fn mark() -> Seq<char> {
    "time="@
}

/// The mark stands at `i`.
pub open spec fn marked(s: Seq<char>, i: int) -> bool {
    i + mark().len() <= s.len() && s.subrange(i, i + mark().len()) == mark()
}

/// Where the mark stands next, from `from` on; the end of `s` where it does not.
pub open spec fn next_mark(s: Seq<char>, from: int) -> int
    decreases s.len() - from,
{
    if from >= s.len() {
        s.len() as int
    } else if marked(s, from) {
        from
    } else {
        next_mark(s, from + 1)
    }
}

/// Where the white space that stands at `from` ends, before `to`.
pub open spec fn word_start(s: Seq<char>, from: int, to: int) -> int
    decreases to - from,
{
    if from < to && white_space(s[from]) {
        word_start(s, from + 1, to)
    } else {
        from
    }
}

/// Where the next white space stands, from `from` on, before `to`.
pub open spec fn word_end(s: Seq<char>, from: int, to: int) -> int
    decreases to - from,
{
    if from < to && !white_space(s[from]) {
        word_end(s, from + 1, to)
    } else {
        from
    }
}

/// The first word of `s` between `from` and `to`, nothing where there is none.
pub open spec fn first_word(s: Seq<char>, from: int, to: int) -> Seq<char> {
    let start = word_start(s, from, to);
    s.subrange(start, word_end(s, start, to))
}

/// The first word behind each mark from `from` on, up to the next mark.
pub open spec fn marked_words(s: Seq<char>, from: int) -> Seq<Seq<char>>
    decreases s.len() - from,
{
    let m = next_mark(s, from);
    if m < from || m + 5 > s.len() {
        seq![]
    } else {
        let start = m + 5;
        let w = first_word(s, start, next_mark(s, start));
        (if w.len() == 0 {
            seq![]
        } else {
            seq![w]
        }) + marked_words(s, start)
    }
}

fn next_mark_from(chars: &Vec<char>, from: usize) -> (r: usize)
    requires
        from <= chars@.len(),
    ensures
        r == next_mark(chars@, from as int),
        from <= r <= chars@.len(),
        r < chars@.len() ==> r + 5 <= chars@.len(),
{
    proof {
        reveal_strlit("time=");
    }
    let n: usize = chars.len();
    let mut i: usize = from;
    while i < n
        invariant
            from <= i <= n,
            n == chars@.len(),
            mark() == "time="@,
            mark().len() == 5,
            mark()[0] == 't',
            mark()[1] == 'i',
            mark()[2] == 'm',
            mark()[3] == 'e',
            mark()[4] == '=',
            next_mark(chars@, from as int) == next_mark(chars@, i as int),
        decreases n - i,
    {
        let here = n - i >= 5 && chars[i] == 't' && chars[i + 1] == 'i' && chars[i + 2] == 'm'
            && chars[i + 3] == 'e' && chars[i + 4] == '=';
        proof {
            if n - i >= 5 {
                let sub = chars@.subrange(i as int, i + 5);
                assert(sub[0] == chars@[i as int] && sub[1] == chars@[i + 1] && sub[2]
                    == chars@[i + 2] && sub[3] == chars@[i + 3] && sub[4] == chars@[i + 4]);
                if here {
                    assert(sub =~= mark());
                }
            }
            assert(here == marked(chars@, i as int));
        }
        if here {
            return i;
        }
        i += 1;
    }
    n
}

/// The characters of `s`.
fn chars_of(s: &str) -> (r: Vec<char>)
    ensures
        r@ == s@,
{
    let n: usize = s.unicode_len();
    let mut r: Vec<char> = Vec::new();
    let mut i: usize = 0;
    while i < n
        invariant
            i <= n,
            n == s@.len(),
            r@ =~= s@.take(i as int),
        decreases n - i,
    {
        r.push(s.get_char(i));
        i += 1;
    }
    r
}

/// Reads what the system `ping` printed: the first word behind each "time=". Both
/// macOS and Linux print "... time=12.3 ms" per reply.
pub fn reply_times(printed: &str) -> (r: Vec<String>)
    ensures
        texts(r@) == marked_words(printed@, 0),
{
    proof {
        reveal_strlit("time=");
    }
    let chars: Vec<char> = chars_of(printed);
    let n: usize = chars.len();
    let mut r: Vec<String> = Vec::new();
    let mut from: usize = 0;
    proof {
        assert(texts(r@) + marked_words(printed@, 0) =~= marked_words(printed@, 0));
    }
    while from < n
        invariant
            from <= n,
            n == chars@.len(),
            chars@ == printed@,
            mark().len() == 5,
            texts(r@) + marked_words(printed@, from as int) == marked_words(printed@, 0),
        decreases n - from,
    {
        let m: usize = next_mark_from(&chars, from);
        if m >= n {
            proof {
                assert(marked_words(printed@, from as int) == Seq::<Seq<char>>::empty());
                assert(texts(r@) =~= marked_words(printed@, 0));
            }
            return r;
        }
        let start: usize = m + 5;
        let end: usize = next_mark_from(&chars, start);
        let mut a: usize = start;
        while a < end && is_white_space(chars[a])
            invariant
                start <= a <= end <= n,
                n == chars@.len(),
                word_start(chars@, start as int, end as int) == word_start(
                    chars@,
                    a as int,
                    end as int,
                ),
            decreases end - a,
        {
            a += 1;
        }
        let mut b: usize = a;
        while b < end && !is_white_space(chars[b])
            invariant
                a <= b <= end <= n,
                n == chars@.len(),
                word_end(chars@, a as int, end as int) == word_end(chars@, b as int, end as int),
            decreases end - b,
        {
            b += 1;
        }
        let ghost w = first_word(printed@, start as int, end as int);
        let ghost rest = marked_words(printed@, start as int);
        let ghost before = texts(r@);
        proof {
            assert(w == printed@.subrange(a as int, b as int));
            assert(marked_words(printed@, from as int) == (if w.len() == 0 {
                seq![]
            } else {
                seq![w]
            }) + rest);
        }
        if a < b {
            r.push(printed.substring_char(a, b).to_owned());
            proof {
                assert(texts(r@) =~= before.push(w));
                assert(before.push(w) + rest =~= before + (seq![w] + rest));
            }
        } else {
            proof {
                assert(w.len() == 0);
                assert(before + rest =~= before + (Seq::<Seq<char>>::empty() + rest));
            }
        }
        from = start;
    }
    proof {
        assert(marked_words(printed@, from as int) == Seq::<Seq<char>>::empty());
        assert(texts(r@) =~= marked_words(printed@, 0));
    }
    r
}

/// The best of some round trips.
pub fn best(trips: &Vec<Reading>) -> (r: Option<Reading>)
    ensures
        match r {
            Some(b) => trips@.contains(b) && (forall|i: int|
                0 <= i < trips@.len() ==> b.key <= (#[trigger] trips@[i]).key),
            None => trips@.len() == 0,
        },
{
    if trips.len() == 0 {
        return None;
    }
    let mut b: Reading = trips[0];
    let mut i: usize = 1;
    while i < trips.len()
        invariant
            1 <= i <= trips@.len(),
            trips@.contains(b),
            forall|j: int| 0 <= j < i ==> b.key <= (#[trigger] trips@[j]).key,
        decreases trips.len() - i,
    {
        if trips[i].key < b.key {
            b = trips[i];
        }
        i += 1;
    }
    Some(b)
}

/// What some round trips come to: their median, and each next to the one before it,
/// which the jitter is the mean difference of.
pub struct Idle {
    pub median: Median,
    pub steps: Vec<(Reading, Reading)>,
}

/// Each of `s` but the first, next to the one before it.
pub open spec fn consecutive(s: Seq<Reading>) -> Seq<(Reading, Reading)> {
    Seq::new(
        if s.len() > 0 {
            (s.len() - 1) as nat
        } else {
            0
        },
        |i: int| (s[i], s[i + 1]),
    )
}

/// Sums up the round trips measured on an idle line; nothing where none was.
pub fn idle(trips: Vec<Reading>) -> (r: Option<Idle>)
    ensures
        match r {
            Some(l) => {
                &&& trips@.len() > 0
                &&& l.steps@ == consecutive(trips@)
                &&& median_of(trips@, l.median)
            },
            None => trips@.len() == 0,
        },
{
    if trips.len() == 0 {
        return None;
    }
    let mut steps: Vec<(Reading, Reading)> = Vec::new();
    let mut i: usize = 1;
    while i < trips.len()
        invariant
            1 <= i <= trips@.len(),
            steps@ =~= consecutive(trips@).take(i - 1),
        decreases trips.len() - i,
    {
        steps.push((trips[i - 1], trips[i]));
        i += 1;
    }
    match overall(trips) {
        Some(median) => Some(Idle { median, steps }),
        None => None,
    }
}

proof fn lemma_word_sum(a: Seq<u8>, b: Seq<u8>)
    requires
        a.len() % 2 == 0,
    ensures
        word_sum(a + b) == word_sum(a) + word_sum(b),
    decreases a.len(),
{
    if a.len() == 0 {
        assert(a + b =~= b);
    } else {
        lemma_word_sum(a.skip(2), b);
        assert((a + b).skip(2) =~= a.skip(2) + b);
    }
}

/// The words of two parts add up, the first part being whole words; a word counts 256
/// times its first byte and its second, which is 0 where it is missing.
pub proof fn word_sums_add_up(a: Seq<u8>, b: Seq<u8>, high: u8, low: u8)
    requires
        a.len() % 2 == 0,
    ensures
        word_sum(a + b) == word_sum(a) + word_sum(b),
        word_sum(seq![high, low]) == 256 * high + low,
        word_sum(seq![high]) == 256 * high,
        word_sum(Seq::<u8>::empty()) == 0,
{
    lemma_word_sum(a, b);
    reveal_with_fuel(word_sum, 2);
    assert(seq![high, low].skip(2) =~= Seq::<u8>::empty());
}

/// A checksum and the words it is of make up a multiple of 65535, and it is 65535 itself
/// only where the words are all 0.
pub proof fn checksums_complete(data: &[u8], r: u16)
    requires
        call_ensures(checksum, (data,), r),
    ensures
        (r + word_sum(data@)) % 65535 == 0,
        r == 65535 <==> word_sum(data@) == 0,
{
    let s = word_sum(data@) as int;
    if s > 0 {
        let q = (s - 1) / 65535;
        assert(r + s == 65535 * (q + 1));
        vstd::arithmetic::div_mod::lemma_mod_multiples_basic(q + 1, 65535);
    }
}

/// A request is a type 8 message of 16 bytes that carries its process, its number and
/// our payload.
pub proof fn requests_say_whose_they_are(id: u16, seq: u16, pkt: [u8; 16])
    requires
        call_ensures(echo_request, (id, seq), pkt),
    ensures
        pkt@.len() == 16,
        pkt@[0] == 8 && pkt@[1] == 0,
        256 * pkt@[4] + pkt@[5] == id,
        256 * pkt@[6] + pkt@[7] == seq,
        pkt@.skip(8) == seq![115u8, 112, 101, 101, 100, 45, 114, 115],
        word_sum(pkt@) % 65535 == 0,
        word_sum(pkt@) > 0,
{
    let sum = checksum_of(echo_message(8, 0, id, seq));
    lemma_message_sum(8, sum, id, seq);
    request_checks(id, seq);
    assert(pkt@.skip(8) =~= seq![115u8, 112, 101, 101, 100, 45, 114, 115]);
    let s = word_sum(pkt@) as int;
    let q = (s - 1) / 65535;
    assert(s == 65535 * (q + 1));
    vstd::arithmetic::div_mod::lemma_mod_multiples_basic(q + 1, 65535);
}

/// `m` is an answer to the echo numbered `seq`: of type 0, with our payload.
pub open spec fn answer_to(m: Seq<u8>, seq: u16) -> bool {
    &&& m.len() >= 16
    &&& m[0] == 0
    &&& 256 * m[6] + m[7] == seq
    &&& m[8] == 115 && m[9] == 112 && m[10] == 101 && m[11] == 101
    &&& m[12] == 100 && m[13] == 45 && m[14] == 114 && m[15] == 115
}

/// A datagram is taken for an answer exactly where it is one, or is one behind the IP
/// header that it starts with.
pub proof fn only_answers_are_taken(datagram: &[u8], r: Option<u16>, seq: u16)
    requires
        call_ensures(reply_seq, (datagram,), r),
    ensures
        r == Some(seq) <==> {
            ||| answer_to(datagram@, seq)
            ||| datagram@.len() > 0 && datagram@[0] / 16 == 4 && datagram@[0] % 16 * 4
                <= datagram@.len() && answer_to(datagram@.skip(datagram@[0] % 16 * 4), seq)
        },
{
    let m = message_part(datagram@);
    if m.len() >= 16 {
        let p = m.subrange(8, 16);
        assert(p[0] == m[8] && p[1] == m[9] && p[2] == m[10] && p[3] == m[11] && p[4] == m[12]
            && p[5] == m[13] && p[6] == m[14] && p[7] == m[15]);
        if answer_to(m, seq) {
            assert(p =~= payload());
        }
        assert(answered(datagram@) == Some(seq) <==> answer_to(m, seq));
    }
}

/// Two blocks that are reserved one after the other share no number, as long as both fit
/// into the 65536 there are.
pub proof fn reservations_are_apart(n: usize, m: usize, i: int, j: int)
    requires
        0 <= i < n,
        0 <= j < m,
        n + m <= 65536,
    ensures
        forall|c: &mut SeqCounter, d: &mut SeqCounter, first: u16, second: u16|
            #[trigger] call_ensures(SeqCounter::next_seqs, (c, n), first)
                && #[trigger] call_ensures(SeqCounter::next_seqs, (d, m), second) && *d == *final(c)
                ==> (first + i) % 65536 != (second + j) % 65536,
{
    assert forall|c: &mut SeqCounter, d: &mut SeqCounter, first: u16, second: u16|
        #[trigger] call_ensures(SeqCounter::next_seqs, (c, n), first) && #[trigger] call_ensures(
            SeqCounter::next_seqs,
            (d, m),
            second,
        ) && *d == *final(c) implies (first + i) % 65536 != (second + j) % 65536 by {
        reserved_blocks_are_disjoint(first, n as int, m as int, i, j);
        assert(second == seq_at(first, n as int));
    }
}

/// The echoes go round the addresses: echo `round * count + i` goes to address `i`, under
/// the number that far behind the first; after `rounds` rounds there is none.
pub proof fn echoes_go_round(b: EchoBatch, round: int, i: int, r: Option<(usize, u16)>)
    requires
        b.wf(),
        call_ensures(EchoBatch::next_echo, (&b,), r),
    ensures
        0 <= i < b.count && 0 <= round < b.rounds && b.attempts == round * b.count + i ==> (
        r matches Some(echo) && echo.0 == i && echo.1 as int == (b.first_seq + b.attempts)
            % 65536),
        b.attempts == b.count * b.rounds ==> r is None,
{
    if 0 <= i < b.count && 0 <= round < b.rounds && b.attempts == round * b.count + i {
        let count = b.count as int;
        assert(round * count + i < count * b.rounds) by (nonlinear_arith)
            requires
                0 <= i < count,
                0 <= round < b.rounds,
        ;
        vstd::arithmetic::div_mod::lemma_fundamental_div_mod_converse(
            b.attempts as int,
            count,
            round,
            i,
        );
    }
}

/// Of an echo that went out, its address and the time are kept under its number, and the
/// next one is up; what is known of other numbers stays.
pub proof fn echoes_are_remembered(sent_at: Option<u64>)
    ensures
        forall|b: &mut EchoBatch, echo: (usize, u16)|
            #[trigger] call_ensures(EchoBatch::record, (b, sent_at), ()) && b.wf()
                && #[trigger] call_ensures(EchoBatch::next_echo, (&*b,), Some(echo)) ==> {
                &&& final(b).attempts == b.attempts + 1
                &&& final(b).best@ == b.best@
                &&& final(b).count == b.count && final(b).rounds == b.rounds
                    && final(b).first_seq == b.first_seq
                &&& sent_at matches Some(t) ==> final(b).outstanding@ == b.outstanding@.insert(
                    echo.1,
                    (echo.0, t),
                )
                &&& sent_at is None ==> final(b).outstanding@ == b.outstanding@
            },
{
}

/// The round trip of an echo is exactly the time between its sending and its answer. It
/// becomes the best of its address where that has none, or a longer one; it settles that
/// echo and touches nothing else.
pub proof fn round_trips_are_the_time_between(datagram: &[u8], now: u64, seq: u16)
    requires
        call_ensures(reply_seq, (datagram,), Some(seq)),
    ensures
        forall|b: &mut EchoBatch| #[trigger]
            call_ensures(EchoBatch::receive, (b, datagram, now), ()) && b.wf() ==> if
                b.outstanding@.contains_key(seq) {
                let (j, sent) = b.outstanding@[seq];
                &&& final(b).outstanding@ == b.outstanding@.remove(seq)
                &&& final(b).best@.len() == b.best@.len()
                &&& sent <= now ==> (final(b).best@[j as int] matches Some(t) && match
                    b.best@[j as int] {
                    None => t == now - sent,
                    Some(o) => (t == o || t == now - sent) && t <= o && t <= now - sent,
                })
                &&& forall|k: int|
                    0 <= k < b.best@.len() && k != j ==> #[trigger] final(b).best@[k] == b.best@[k]
            } else {
                final(b).outstanding@ == b.outstanding@ && final(b).best@ == b.best@
            },
{
    assert forall|b: &mut EchoBatch| #[trigger]
        call_ensures(EchoBatch::receive, (b, datagram, now), ()) && b.wf() implies if
        b.outstanding@.contains_key(seq) {
        let (j, sent) = b.outstanding@[seq];
        &&& final(b).outstanding@ == b.outstanding@.remove(seq)
        &&& final(b).best@.len() == b.best@.len()
        &&& sent <= now ==> (final(b).best@[j as int] matches Some(t) && match b.best@[j as int] {
            None => t == now - sent,
            Some(o) => (t == o || t == now - sent) && t <= o && t <= now - sent,
        })
        &&& forall|k: int|
            0 <= k < b.best@.len() && k != j ==> #[trigger] final(b).best@[k] == b.best@[k]
    } else {
        final(b).outstanding@ == b.outstanding@ && final(b).best@ == b.best@
    } by {
        let s = b@;
        assert(final(b)@ == s.with_reply(datagram@, now));
        if s.outstanding.contains_key(seq) {
            assert(s.outstanding[seq].0 < s.best.len());
        }
    }
}

/// A wait goes on to the deadline, and only while an echo is out.
pub proof fn waits_end_at_the_deadline(b: EchoBatch, now: u64, deadline: u64, r: Option<u64>)
    requires
        call_ensures(EchoBatch::wait, (&b, now, deadline), r),
    ensures
        r matches Some(left) ==> left > 0 && now + left == deadline,
        r is None <==> b.outstanding@.dom().len() == 0 || deadline <= now,
{
}

/// The way that is used replied and none before it did; while none has, the next is
/// tried; when all have been tried in vain there is none.
pub proof fn pingers_are_picked_in_order(count: usize, replied: Vec<bool>, r: PingerChoice)
    requires
        replied@.len() <= count,
        call_ensures(Pinger::pick, (count, &replied), r),
    ensures
        match r {
            PingerChoice::Use(i) => i < replied@.len() && replied@[i as int] && forall|j: int|
                0 <= j < i ==> !replied@[j],
            PingerChoice::Try(i) => i == replied@.len() && i < count && forall|j: int|
                0 <= j < i ==> !replied@[j],
            PingerChoice::Unavailable => replied@.len() == count && forall|j: int|
                0 <= j < count ==> !replied@[j],
        },
{
    first_to_reply_is_used(count as int, replied@);
}

proof fn lemma_first_v4(addrs: Seq<Address>)
    ensures
        match first_v4(addrs) {
            Some(a) => exists|i: int|
                0 <= i < addrs.len() && #[trigger] addrs[i] == Address::V4(a) && forall|j: int|
                    0 <= j < i ==> (#[trigger] addrs[j]) is V6,
            None => forall|j: int| 0 <= j < addrs.len() ==> (#[trigger] addrs[j]) is V6,
        },
    decreases addrs.len(),
{
    if addrs.len() > 0 && addrs[0] is V6 {
        let rest = addrs.skip(1);
        lemma_first_v4(rest);
        match first_v4(addrs) {
            Some(a) => {
                let i = choose|i: int|
                    0 <= i < rest.len() && #[trigger] rest[i] == Address::V4(a) && forall|j: int|
                        0 <= j < i ==> (#[trigger] rest[j]) is V6;
                assert(addrs[i + 1] == Address::V4(a));
                assert forall|j: int| 0 <= j < i + 1 implies (#[trigger] addrs[j]) is V6 by {
                    if j > 0 {
                        assert(rest[j - 1] is V6);
                    }
                }
            },
            None => {
                assert forall|j: int| 0 <= j < addrs.len() implies (#[trigger] addrs[j]) is V6 by {
                    if j > 0 {
                        assert(rest[j - 1] is V6);
                    }
                }
            },
        }
    } else if addrs.len() > 0 {
        assert(addrs[0] == Address::V4(first_v4(addrs)->0));
    }
}

/// A name resolves to an IPv4 address that it has, before which it has no other, and to
/// nothing only where it has none.
pub proof fn the_first_v4_address_is_taken(addrs: Vec<Address>, r: Option<[u8; 4]>)
    requires
        call_ensures(resolve_v4, (&addrs,), r),
    ensures
        match r {
            Some(a) => exists|i: int|
                0 <= i < addrs@.len() && #[trigger] addrs@[i] == Address::V4(a) && forall|j: int|
                    0 <= j < i ==> (#[trigger] addrs@[j]) is V6,
            None => forall|j: int| 0 <= j < addrs@.len() ==> (#[trigger] addrs@[j]) is V6,
        },
{
    lemma_first_v4(addrs@);
}

/// The best of some round trips is one of them and none is shorter.
pub proof fn no_trip_is_shorter(trips: Vec<Reading>, r: Option<Reading>)
    requires
        call_ensures(best, (&trips,), r),
    ensures
        r is None <==> trips@.len() == 0,
        r matches Some(b) ==> trips@.contains(b) && forall|i: int|
            0 <= i < trips@.len() ==> b.key <= (#[trigger] trips@[i]).key,
{
}

/// The idle latency is the median of all round trips, and the jitter is taken over each
/// two that follow each other.
pub proof fn idle_trips_all_count(trips: Vec<Reading>, r: Option<Idle>)
    requires
        call_ensures(idle, (trips,), r),
    ensures
        r is None <==> trips@.len() == 0,
        r matches Some(l) ==> {
            &&& l.steps@.len() == trips@.len() - 1
            &&& forall|i: int|
                0 <= i < trips@.len() - 1 ==> #[trigger] l.steps@[i] == (trips@[i], trips@[i + 1])
            &&& exists|t: Seq<Reading>| #[trigger]
                ascending(trips@, t) && balanced(t, l.median, (trips@.len() - 1) / 2)
        },
{
    if let Some(l) = r {
        the_median_is_in_the_middle(trips@, l.median);
    }
}

/// Behind the mark at `m` a word stands from `a` to `b`: only white space is between, and
/// the word ends at white space, at the next mark or with the text.
pub open spec fn stands(s: Seq<char>, m: int, a: int, b: int) -> bool {
    &&& 0 <= m && m + 5 <= a < b <= s.len()
    &&& s.subrange(m, m + 5) == "time="@
    &&& forall|i: int| m + 5 <= i < a ==> white_space(#[trigger] s[i])
    &&& forall|i: int| a <= i < b ==> !white_space(#[trigger] s[i])
    &&& forall|i: int| m + 5 <= i < b && i + 5 <= s.len() ==> #[trigger] s.subrange(i, i + 5)
        != "time="@
    &&& b < s.len() ==> white_space(s[b]) || (b + 5 <= s.len() && s.subrange(b, b + 5)
        == "time="@)
}

/// `w` is the word behind the mark at `m`.
pub open spec fn told(s: Seq<char>, m: int, w: Seq<char>) -> bool {
    exists|a: int, b: int| #[trigger] stands(s, m, a, b) && w == s.subrange(a, b)
}

/// `ms` are the marks from `from` on that have a word behind them, in order, and `words`
/// are these words.
pub open spec fn all_told(s: Seq<char>, from: int, ms: Seq<int>, words: Seq<Seq<char>>) -> bool {
    &&& ms.len() == words.len()
    &&& forall|i: int, j: int| 0 <= i < j < ms.len() ==> ms[i] < ms[j]
    &&& forall|k: int| 0 <= k < ms.len() ==> from <= #[trigger] ms[k] && told(s, ms[k], words[k])
    &&& forall|m: int, w: Seq<char>| from <= m && #[trigger] told(s, m, w) ==> ms.contains(m)
}

proof fn lemma_next_mark(s: Seq<char>, from: int)
    requires
        0 <= from <= s.len(),
    ensures
        from <= next_mark(s, from) <= s.len(),
        next_mark(s, from) < s.len() ==> marked(s, next_mark(s, from)),
        forall|i: int| from <= i < next_mark(s, from) ==> !(#[trigger] marked(s, i)),
    decreases s.len() - from,
{
    if from < s.len() && !marked(s, from) {
        lemma_next_mark(s, from + 1);
    }
}

proof fn lemma_word_start(s: Seq<char>, from: int, to: int)
    requires
        0 <= from <= to <= s.len(),
    ensures
        from <= word_start(s, from, to) <= to,
        forall|i: int| from <= i < word_start(s, from, to) ==> white_space(#[trigger] s[i]),
        word_start(s, from, to) < to ==> !white_space(s[word_start(s, from, to)]),
    decreases to - from,
{
    if from < to && white_space(s[from]) {
        lemma_word_start(s, from + 1, to);
    }
}

proof fn lemma_word_end(s: Seq<char>, from: int, to: int)
    requires
        0 <= from <= to <= s.len(),
    ensures
        from <= word_end(s, from, to) <= to,
        forall|i: int| from <= i < word_end(s, from, to) ==> !white_space(#[trigger] s[i]),
        word_end(s, from, to) < to ==> white_space(s[word_end(s, from, to)]),
    decreases to - from,
{
    if from < to && !white_space(s[from]) {
        lemma_word_end(s, from + 1, to);
    }
}

proof fn lemma_told(s: Seq<char>, from: int) -> (ms: Seq<int>)
    requires
        0 <= from <= s.len(),
    ensures
        all_told(s, from, ms, marked_words(s, from)),
    decreases s.len() - from,
{
    reveal_strlit("time=");
    lemma_next_mark(s, from);
    let m = next_mark(s, from);
    if m + 5 > s.len() {
        assert forall|k: int, w: Seq<char>| from <= k implies !(#[trigger] told(s, k, w)) by {
            if told(s, k, w) {
                assert(marked(s, k));
            }
        }
        Seq::empty()
    } else {
        let start = m + 5;
        lemma_next_mark(s, start);
        let end = next_mark(s, start);
        lemma_word_start(s, start, end);
        let a = word_start(s, start, end);
        lemma_word_end(s, a, end);
        let b = word_end(s, a, end);
        let w = first_word(s, start, end);
        let rest = lemma_told(s, start);
        let words = marked_words(s, from);
        assert forall|k: int, v: Seq<char>| from <= k && #[trigger] told(s, k, v) implies k == m
            || start <= k by {
            assert(marked(s, k));
            if k < start && k != m {
                assert(m < k < m + 5);
                let x = s.subrange(m, m + 5);
                let y = s.subrange(k, k + 5);
                assert(x[k - m] == s[k] && y[0] == s[k]);
                assert(x[0] == 't' && x[1] == 'i' && x[2] == 'm' && x[3] == 'e' && x[4] == '=');
                assert(y[0] == 't');
            }
        }
        if w.len() == 0 {
            assert(words =~= marked_words(s, start));
            assert forall|v: Seq<char>| !(#[trigger] told(s, m, v)) by {
                if told(s, m, v) {
                    let (p, q) = choose|p: int, q: int| #[trigger]
                        stands(s, m, p, q) && v == s.subrange(p, q);
                    if end < q {
                        assert(marked(s, end));
                        assert(s.subrange(end, end + 5) == "time="@);
                    }
                    assert(!white_space(s[p]));
                    assert(a == b);
                    if a < end {
                        assert(!white_space(s[a]));
                    } else {
                        assert(white_space(s[p]));
                    }
                }
            }
            rest
        } else {
            assert(stands(s, m, a, b)) by {
                assert forall|i: int| m + 5 <= i < b && i + 5 <= s.len() implies #[trigger] s.subrange(
                    i,
                    i + 5,
                ) != "time="@ by {
                    assert(!marked(s, i));
                }
            }
            assert(told(s, m, w));
            let ms = seq![m] + rest;
            assert(words =~= seq![w] + marked_words(s, start));
            assert forall|k: int| 0 <= k < ms.len() implies from <= #[trigger] ms[k] && told(
                s,
                ms[k],
                words[k],
            ) by {
                if k > 0 {
                    assert(ms[k] == rest[k - 1]);
                    assert(words[k] == marked_words(s, start)[k - 1]);
                }
            }
            assert forall|k: int, v: Seq<char>| from <= k && #[trigger] told(
                s,
                k,
                v,
            ) implies ms.contains(k) by {
                if k == m {
                    assert(ms[0] == m);
                } else {
                    assert(rest.contains(k));
                    let x = rest.index_of(k);
                    assert(ms[x + 1] == k);
                }
            }
            assert forall|i: int, j: int| 0 <= i < j < ms.len() implies ms[i] < ms[j] by {
                assert(ms[j] == rest[j - 1]);
                if i > 0 {
                    assert(ms[i] == rest[i - 1]);
                }
            }
            ms
        }
    }
}

/// Of what `ping` printed, every word behind a "time=" is read, in order, and nothing
/// else.
pub proof fn all_times_are_read(printed: &str, r: Vec<String>)
    requires
        call_ensures(reply_times, (printed,), r),
    ensures
        exists|ms: Seq<int>| #[trigger] all_told(printed@, 0, ms, texts(r@)),
{
    let ms = lemma_told(printed@, 0);
    assert(all_told(printed@, 0, ms, texts(r@)));
}

/// A new batch has sent nothing and knows nothing of its addresses; what it knows at the
/// end is what it tells.
pub proof fn batches_start_empty(
    count: usize,
    first_seq: u16,
    rounds: usize,
    b: EchoBatch,
    e: EchoBatch,
    r: Vec<Option<u64>>,
)
    requires
        call_ensures(EchoBatch::new, (count, first_seq, rounds), b),
        call_ensures(EchoBatch::finish, (e,), r),
    ensures
        b.wf(),
        b.count == count && b.rounds == rounds && b.first_seq == first_seq && b.attempts == 0,
        b.best@.len() == count,
        forall|j: int| 0 <= j < count ==> (#[trigger] b.best@[j]) is None,
        b.outstanding@.dom() == Set::<u16>::empty(),
        r@ == e.best@,
{
    assert(b@.best =~= Seq::new(count as nat, |_i: int| None::<u64>));
    assert(b.outstanding@.dom() =~= Set::<u16>::empty());
}

/// A datagram that is no answer changes nothing.
pub proof fn only_answers_count(datagram: &[u8], now: u64)
    requires
        call_ensures(reply_seq, (datagram,), None::<u16>),
    ensures
        forall|b: &mut EchoBatch| #[trigger]
            call_ensures(EchoBatch::receive, (b, datagram, now), ()) ==> final(b).outstanding@
                == b.outstanding@ && final(b).best@ == b.best@,
{
    assert forall|b: &mut EchoBatch| #[trigger]
        call_ensures(EchoBatch::receive, (b, datagram, now), ()) implies final(b).outstanding@
        == b.outstanding@ && final(b).best@ == b.best@ by {
        assert(final(b)@ == b@.with_reply(datagram@, now));
    }
}

/// `ping` is called with the count, the interval and the address, whose four numbers are
/// written in order with dots between.
pub proof fn ping_is_told_whom_to_ask(
    addr: [u8; 4],
    count: u32,
    r: Vec<String>,
    n: String,
    a: String,
    b: String,
    c: String,
    d: String,
)
    requires
        call_ensures(ping_args, (addr, count), r),
        call_ensures(decimal, (count as u64,), n),
        call_ensures(decimal, (addr@[0] as u64,), a),
        call_ensures(decimal, (addr@[1] as u64,), b),
        call_ensures(decimal, (addr@[2] as u64,), c),
        call_ensures(decimal, (addr@[3] as u64,), d),
    ensures
        r@.len() == 5,
        r@[0]@ == "-c"@ && r@[1]@ == n@ && r@[2]@ == "-i"@ && r@[3]@ == "0.2"@,
        r@[4]@ == a@ + "."@ + b@ + "."@ + c@ + "."@ + d@,
{
    assert(texts(r@).len() == 5);
    assert(texts(r@)[0] == r@[0]@ && texts(r@)[1] == r@[1]@ && texts(r@)[2] == r@[2]@);
    assert(texts(r@)[3] == r@[3]@ && texts(r@)[4] == r@[4]@);
}

/// Both kinds of echo are tried before HTTP, and each only where there is something to
/// try it on.
pub proof fn echoes_are_tried_first(addr: Option<[u8; 4]>, url: Option<&str>, r: Vec<Pinger>)
    requires
        call_ensures(Pinger::new, (addr, url), r),
    ensures
        addr is None && url is None ==> r@.len() == 0,
        addr matches Some(a) ==> r@.len() >= 2 && r@[0] == Pinger::Icmp(a) && r@[1]
            == Pinger::SystemPing(a),
        addr is Some && url is None ==> r@.len() == 2,
        url matches Some(u) ==> r@.len() == (if addr is Some {
            3int
        } else {
            1
        }) && (r@[r@.len() - 1] matches Pinger::Http { url: x } && x@ == u@),
{
}

} // verus!
