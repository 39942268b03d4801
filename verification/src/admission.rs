//! Admission control: counting the requests of each client in the current
//! window and refusing the clients that sent too many.

use vstd::prelude::*;

verus! {

/// The network address of a client.
#[derive(Clone, Copy, Debug, PartialEq, Eq, Structural)]
pub struct ClientId {
    /// The address is an IPv6 address.
    pub v6: bool,
    /// The address, as a number.
    pub addr: u128,
    pub port: u16,
    /// The flow label of an IPv6 address, else zero.
    pub flow: u32,
    /// The scope of an IPv6 address, else zero.
    pub scope: u32,
}

/// A client with the number of its requests in the current window.
pub struct Rate {
    pub client: ClientId,
    pub count: u64,
}

/// The answer of admission control to one request.
#[derive(Clone, Copy, Debug)]
pub struct Decision {
    /// The request goes on to be served.
    pub admitted: bool,
    /// Why it does not, for the log.
    pub reason: Option<&'static str>,
}

/// The rate table of the current window and the blacklist.
pub struct Admission {
    rates: Vec<Rate>,
    blacklist: Vec<ClientId>,
}

/// The mathematical value of the admission state.
pub ghost struct Ledger {
    /// The requests seen of each client in the current window. A client of
    /// which none was seen has no entry.
    pub counts: Map<ClientId, nat>,
    /// The clients that are refused.
    pub banned: Set<ClientId>,
}

/// What admission control sees.
pub ghost enum Event {
    /// A request of this client arrives while refusing is switched on.
    Request(ClientId),
    /// A new window begins.
    Reset,
}

/// The length of a window, in seconds.
pub const WINDOW_SECS: u64 = 60;

/// Whether a new window begins `elapsed_secs` seconds after startup: at every
/// full multiple of the window length.
pub fn reset_due(elapsed_secs: u64) -> (r: bool)
    ensures
        r == (elapsed_secs % WINDOW_SECS == 0),
{
    elapsed_secs % WINDOW_SECS == 0
}

/// A count after one more request. It stays at the largest value once there.
pub open spec fn step_up(count: nat) -> nat {
    if count < u64::MAX {
        count + 1
    } else {
        count
    }
}

/// The requests seen of `client` in the current window.
pub open spec fn count_in(l: Ledger, client: ClientId) -> nat {
    if l.counts.dom().contains(client) {
        l.counts[client]
    } else {
        0
    }
}

/// The ledger after one request of `client`: its count goes up by one, and
/// where the count then exceeds ten times the threshold the client is banned.
pub open spec fn observed(l: Ledger, client: ClientId, threshold: int) -> Ledger {
    let count = step_up(count_in(l, client));
    Ledger {
        counts: l.counts.insert(client, count),
        banned: if count > threshold * 10 {
            l.banned.insert(client)
        } else {
            l.banned
        },
    }
}

/// The ledger at the start of a new window: no counts, the same bans.
pub open spec fn cleared(l: Ledger) -> Ledger {
    Ledger { counts: Map::empty(), banned: l.banned }
}

/// The ledger after `events`, in order.
pub open spec fn run(l: Ledger, events: Seq<Event>, threshold: int) -> Ledger
    decreases events.len(),
{
    if events.len() == 0 {
        l
    } else {
        let before = run(l, events.drop_last(), threshold);
        match events.last() {
            Event::Request(client) => observed(before, client, threshold),
            Event::Reset => cleared(before),
        }
    }
}

/// The place of `client` in `rates`, where it has one.
pub open spec fn slot(rates: Seq<Rate>, client: ClientId) -> Option<int> {
    if exists|i: int| 0 <= i < rates.len() && rates[i].client == client {
        Some(choose|i: int| 0 <= i < rates.len() && rates[i].client == client)
    } else {
        None
    }
}

/// No client has two places in `rates`.
pub open spec fn distinct(rates: Seq<Rate>) -> bool {
    forall|i: int, j: int| 0 <= i < j < rates.len() ==> rates[i].client != rates[j].client
}

/// Where no client has two places, a place that holds `client` is its place.
proof fn lemma_slot(rates: Seq<Rate>, client: ClientId, i: int)
    requires
        distinct(rates),
        0 <= i < rates.len(),
        rates[i].client == client,
    ensures
        slot(rates, client) == Some(i),
{
    let c = choose|c: int| 0 <= c < rates.len() && rates[c].client == client;
    if c < i {
        assert(rates[c].client != rates[i].client);
    } else if i < c {
        assert(rates[i].client != rates[c].client);
    }
}

impl Admission {
    /// The requests seen of `client` in the current window.
    pub closed spec fn count_of(&self, client: ClientId) -> nat {
        match slot(self.rates@, client) {
            Some(i) => self.rates@[i].count as nat,
            None => 0,
        }
    }

    /// `client` is on the blacklist.
    pub closed spec fn is_banned(&self, client: ClientId) -> bool {
        self.blacklist@.contains(client)
    }

    /// No client is counted twice, no count is zero, and no client is on the
    /// blacklist twice.
    pub closed spec fn wf(&self) -> bool {
        &&& distinct(self.rates@)
        &&& forall|i: int| 0 <= i < self.rates@.len() ==> self.rates@[i].count >= 1
        &&& self.blacklist@.no_duplicates()
    }

    /// A client of which no request was seen in the current window has no
    /// entry in the rate table.
    pub proof fn lemma_counts_positive(&self)
        ensures
            forall|c: ClientId| #[trigger]
                self@.counts.dom().contains(c) ==> self@.counts[c] >= 1,
    {
    }

    /// A fresh state: nothing counted, nobody banned.
    pub fn new() -> (r: Admission)
        ensures
            r.wf(),
            r@ == (Ledger { counts: Map::empty(), banned: Set::empty() }),
    {
        let r = Admission { rates: Vec::new(), blacklist: Vec::new() };
        proof {
            assert(r@.counts =~= Map::empty());
            assert(r@.banned =~= Set::empty());
        }
        r
    }

    /// The place of `client` in the rate table, where it has one.
    fn find(&self, client: ClientId) -> (r: Option<usize>)
        requires
            self.wf(),
        ensures
            r matches Some(i) ==> i < self.rates@.len() && self.rates@[i as int].client == client,
            r is None ==> forall|j: int|
                0 <= j < self.rates@.len() ==> self.rates@[j].client != client,
    {
        let mut i: usize = 0;
        while i < self.rates.len()
            invariant
                i <= self.rates@.len(),
                forall|j: int| 0 <= j < i ==> self.rates@[j].client != client,
            decreases self.rates.len() - i,
        {
            if self.rates[i].client == client {
                return Some(i);
            }
            i += 1;
        }
        None
    }

    /// The requests seen of `client` in the current window.
    pub fn requests(&self, client: ClientId) -> (r: u64)
        requires
            self.wf(),
        ensures
            r == count_in(self@, client),
    {
        match self.find(client) {
            Some(i) => {
                proof {
                    lemma_slot(self.rates@, client, i as int);
                }
                self.rates[i].count
            },
            None => 0,
        }
    }

    /// Whether `client` is on the blacklist.
    pub fn is_blacklisted(&self, client: ClientId) -> (r: bool)
        ensures
            r == self@.banned.contains(client),
    {
        let mut i: usize = 0;
        while i < self.blacklist.len()
            invariant
                i <= self.blacklist@.len(),
                forall|j: int| 0 <= j < i ==> self.blacklist@[j] != client,
            decreases self.blacklist.len() - i,
        {
            if self.blacklist[i] == client {
                return true;
            }
            i += 1;
        }
        false
    }

    /// Begins a new window: the rate table is emptied, the blacklist stays.
    pub fn reset_window(&mut self)
        requires
            old(self).wf(),
        ensures
            final(self).wf(),
            final(self)@ == cleared(old(self)@),
    {
        self.rates = Vec::new();
        proof {
            assert(final(self)@.counts =~= Map::empty());
            assert(final(self)@.banned =~= old(self)@.banned);
        }
    }

    /// Counts one request of `client` and returns its new count.
    fn count_up(&mut self, client: ClientId) -> (r: u64)
        requires
            old(self).wf(),
        ensures
            final(self).wf(),
            final(self).blacklist == old(self).blacklist,
            r == step_up(old(self).count_of(client)),
            forall|c: ClientId|
                final(self).count_of(c) == if c == client {
                    r as nat
                } else {
                    old(self).count_of(c)
                },
    {
        let ghost before = self.rates@;
        match self.find(client) {
            Some(i) => {
                proof {
                    lemma_slot(before, client, i as int);
                }
                let seen: u64 = self.rates[i].count;
                let next: u64 = if seen < u64::MAX {
                    seen + 1
                } else {
                    seen
                };
                self.rates.set(i, Rate { client, count: next });
                proof {
                    let after = self.rates@;
                    assert(distinct(after)) by {
                        assert forall|a: int, b: int| 0 <= a < b < after.len() implies after[a].client
                            != after[b].client by {
                            assert(before[a].client != before[b].client);
                        }
                    }
                    assert forall|c: ClientId|
                        final(self).count_of(c) == if c == client {
                            next as nat
                        } else {
                            old(self).count_of(c)
                        } by {
                        if c == client {
                            lemma_slot(after, client, i as int);
                        } else {
                            match slot(before, c) {
                                Some(j) => {
                                    assert(after[j].client == c);
                                    lemma_slot(after, c, j);
                                },
                                None => {
                                    assert forall|j: int| 0 <= j < after.len() implies after[j].client
                                        != c by {
                                        assert(before[j].client != c || j == i);
                                    }
                                },
                            }
                        }
                    }
                }
                next
            },
            None => {
                self.rates.push(Rate { client, count: 1 });
                proof {
                    let after = self.rates@;
                    let last = after.len() - 1;
                    assert(distinct(after)) by {
                        assert forall|a: int, b: int| 0 <= a < b < after.len() implies after[a].client
                            != after[b].client by {
                            if b < last {
                                assert(before[a].client != before[b].client);
                            } else {
                                assert(before[a].client != client);
                            }
                        }
                    }
                    assert forall|c: ClientId|
                        final(self).count_of(c) == if c == client {
                            1nat
                        } else {
                            old(self).count_of(c)
                        } by {
                        if c == client {
                            lemma_slot(after, client, last);
                        } else {
                            match slot(before, c) {
                                Some(j) => {
                                    assert(after[j].client == c);
                                    lemma_slot(after, c, j);
                                },
                                None => {
                                    assert forall|j: int| 0 <= j < after.len() implies after[j].client
                                        != c by {
                                        if j < last {
                                            assert(before[j].client != c);
                                        }
                                    }
                                },
                            }
                        }
                    }
                }
                1
            },
        }
    }

    /// Puts `client` on the blacklist, unless it is there.
    fn ban(&mut self, client: ClientId)
        requires
            old(self).wf(),
        ensures
            final(self).wf(),
            final(self).rates == old(self).rates,
            forall|c: ClientId| final(self).is_banned(c) == (c == client || old(self).is_banned(c)),
    {
        if !self.is_blacklisted(client) {
            let ghost before = self.blacklist@;
            self.blacklist.push(client);
            proof {
                let after = self.blacklist@;
                assert forall|c: ClientId| after.contains(c) == (c == client || before.contains(
                    c,
                )) by {
                    if before.contains(c) {
                        let j = choose|j: int| 0 <= j < before.len() && before[j] == c;
                        assert(after[j] == c);
                    }
                    if c == client {
                        assert(after[after.len() - 1] == c);
                    }
                }
            }
        }
    }

    /// Takes note of one request of `client` and decides whether it is
    /// served. With `enabled` off nothing is noted and every request is
    /// admitted. Otherwise the request is counted, the client is put on the
    /// blacklist where its count now exceeds ten times `threshold`, and the
    /// request is refused where the client is on the blacklist.
    pub fn observe(&mut self, client: ClientId, threshold: i32, enabled: bool) -> (r: Decision)
        requires
            old(self).wf(),
        ensures
            final(self).wf(),
            enabled ==> final(self)@ == observed(old(self)@, client, threshold as int),
            enabled ==> r.admitted == !final(self)@.banned.contains(client),
            !enabled ==> final(self)@ == old(self)@ && r.admitted,
            r.reason == if r.admitted {
                None
            } else {
                Some("Blacklisted")
            },
    {
        if !enabled {
            return Decision { admitted: true, reason: None };
        }
        let count: u64 = self.count_up(client);
        let ghost counted = *self;
        let over: bool = (count as i128) > (threshold as i128) * 10;
        if over {
            self.ban(client);
        }
        let refused: bool = self.is_blacklisted(client);
        proof {
            let goal = observed(old(self)@, client, threshold as int);
            assert(self.rates == counted.rates);
            assert forall|c: ClientId| self.count_of(c) == counted.count_of(c) by {}
            assert(count_in(old(self)@, client) == old(self).count_of(client));
            assert forall|c: ClientId| #[trigger]
                self@.counts.dom().contains(c) == goal.counts.dom().contains(c) by {
                assert(self.count_of(c) == counted.count_of(c));
            }
            assert forall|c: ClientId| #[trigger]
                self@.counts.dom().contains(c) implies self@.counts[c] == goal.counts[c] by {
                assert(self.count_of(c) == counted.count_of(c));
            }
            assert(final(self)@.counts =~= goal.counts);
            assert(final(self)@.banned =~= goal.banned);
        }
        if refused {
            Decision { admitted: false, reason: Some("Blacklisted") }
        } else {
            Decision { admitted: true, reason: None }
        }
    }
}

impl View for Admission {
    type V = Ledger;

    closed spec fn view(&self) -> Ledger {
        Ledger {
            counts: Map::new(
                |c: ClientId| self.count_of(c) > 0,
                |c: ClientId| self.count_of(c),
            ),
            banned: Set::new(|c: ClientId| self.is_banned(c)),
        }
    }
}

/// A ban is never lifted: who is banned stays banned through every request
/// and every new window.
pub proof fn lemma_ban_is_permanent(l: Ledger, client: ClientId, events: Seq<Event>, threshold: int)
    requires
        l.banned.contains(client),
    ensures
        run(l, events, threshold).banned.contains(client),
    decreases events.len(),
{
    if events.len() > 0 {
        lemma_ban_is_permanent(l, client, events.drop_last(), threshold);
    }
}

/// Once a request brings the count of a client over ten times the threshold,
/// that request and every later request of the client is refused, whatever
/// happens in between and whatever the count of the client then is.
pub proof fn lemma_refused_for_good(
    l: Ledger,
    client: ClientId,
    events: Seq<Event>,
    threshold: int,
)
    requires
        step_up(count_in(l, client)) > threshold * 10,
    ensures
        observed(l, client, threshold).banned.contains(client),
        observed(
            run(observed(l, client, threshold), events, threshold),
            client,
            threshold,
        ).banned.contains(client),
{
    lemma_ban_is_permanent(observed(l, client, threshold), client, events, threshold);
}

} // verus!
