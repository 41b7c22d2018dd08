//! Service discovery: the broadcast probe/response strategy and the
//! deduplication shared with the multicast strategy.
//!
//! A discovery call is bounded by an absolute deadline.  The caller owns the
//! socket work; [`BroadcastSession`] makes every decision: what payload to
//! probe with, how long each receive may wait, which datagrams count as
//! responses, and how the result list is deduplicated.

use vstd::prelude::*;

verus! {

/// UDP port the broadcast probe is sent to.
pub const DISCOVERY_PORT: u16 = 53530;

/// Service port assumed for a responder that names none.
pub const DEFAULT_SERVICE_PORT: u16 = 8080;

/// Timeout applied when a discovery call names none.
pub const DEFAULT_TIMEOUT_MS: u64 = 1500;

/// Longest single wait of the receive loop, so it stays responsive to the
/// deadline without busy-spinning.
pub const POLL_SLICE_MS: u64 = 250;

/// One discovered endpoint.  Value object: no identity beyond its fields.
#[derive(Debug)]
pub struct DiscoveredServer {
    pub instance_name: String,
    pub service_type: String,
    pub hostname: String,
    pub ip_v4: Vec<String>,
    pub port: u16,
}

/// The mathematical content of a [`DiscoveredServer`].
pub ghost struct ServerView {
    pub instance_name: Seq<char>,
    pub service_type: Seq<char>,
    pub hostname: Seq<char>,
    pub ip_v4: Seq<Seq<char>>,
    pub port: u16,
}

impl View for DiscoveredServer {
    type V = ServerView;

    open spec fn view(&self) -> ServerView {
        ServerView {
            instance_name: self.instance_name@,
            service_type: self.service_type@,
            hostname: self.hostname@,
            ip_v4: self.ip_v4.deep_view(),
            port: self.port,
        }
    }
}

impl DeepView for DiscoveredServer {
    type V = ServerView;

    open spec fn deep_view(&self) -> ServerView {
        self@
    }
}

/// The views of a sequence of servers.
pub open spec fn seq_views(s: Seq<DiscoveredServer>) -> Seq<ServerView> {
    s.map_values(|d: DiscoveredServer| d@)
}

/// Whether `s` already holds an entry with uniqueness key `(host, port)`.
pub open spec fn has_key(s: Seq<ServerView>, host: Seq<char>, port: u16) -> bool {
    exists|i: int| 0 <= i < s.len() && s[i].hostname == host && s[i].port == port
}

/// No two entries of `s` share a `(hostname, port)` key.
pub open spec fn distinct_keys(s: Seq<ServerView>) -> bool {
    forall|i: int, j: int|
        0 <= i < j < s.len() ==> !(s[i].hostname == s[j].hostname && s[i].port == s[j].port)
}

/// Whether `list` holds an entry with key `(host, port)`.
fn contains_key(list: &Vec<DiscoveredServer>, host: &String, port: u16) -> (r: bool)
    ensures
        r == has_key(seq_views(list@), host@, port),
{
    let mut i: usize = 0;
    while i < list.len()
        invariant
            0 <= i <= list@.len(),
            forall|j: int| 0 <= j < i ==> !(list@[j]@.hostname == host@ && list@[j]@.port == port),
        decreases list@.len() - i,
    {
        let same_host = list[i].hostname == *host;
        if same_host && list[i].port == port {
            proof {
                assert(seq_views(list@)[i as int].hostname == host@ && seq_views(list@)[
                    i as int].port == port);
            }
            return true;
        }
        i += 1;
    }
    proof {
        assert forall|k: int| 0 <= k < seq_views(list@).len() implies !(seq_views(list@)[k].hostname
            == host@ && seq_views(list@)[k].port == port) by {
            assert(seq_views(list@)[k] == list@[k]@);
        }
    }
    false
}

/// Whether the entry at `i` repeats the key of an earlier entry.
fn contains_key_prefix(list: &Vec<DiscoveredServer>, i: usize) -> (r: bool)
    requires
        i < list@.len(),
    ensures
        r == exists|a: int|
            0 <= a < i && seq_views(list@)[a].hostname == seq_views(list@)[i as int].hostname
                && seq_views(list@)[a].port == seq_views(list@)[i as int].port,
{
    let mut a: usize = 0;
    while a < i
        invariant
            0 <= a <= i < list@.len(),
            forall|t: int|
                0 <= t < a ==> !(seq_views(list@)[t].hostname == seq_views(list@)[i as int].hostname
                    && seq_views(list@)[t].port == seq_views(list@)[i as int].port),
        decreases i - a,
    {
        let same_host = list[a].hostname == list[i].hostname;
        if same_host && list[a].port == list[i].port {
            proof {
                assert(seq_views(list@)[a as int].hostname == seq_views(list@)[i as int].hostname
                    && seq_views(list@)[a as int].port == seq_views(list@)[i as int].port);
            }
            return true;
        }
        proof {
            assert(seq_views(list@)[a as int] == list@[a as int]@);
            assert(seq_views(list@)[i as int] == list@[i as int]@);
        }
        a += 1;
    }
    false
}

/// The well-known service type of the application service.
pub open spec fn primary_service_type_text() -> Seq<char> {
    "_nascraft._tcp.local."@
}

/// The well-known service type of the application service.
pub fn primary_service_type() -> (r: &'static str)
    ensures
        r@ == primary_service_type_text(),
{
    "_nascraft._tcp.local."
}

/// The probe datagram's exact text.
pub open spec fn probe_payload_text() -> Seq<char> {
    "{\"t\":\"nascraft_discover\",\"v\":1}"@
}

/// The probe datagram sent to the broadcast address.
pub fn probe_payload() -> (r: String)
    ensures
        r@ == probe_payload_text(),
{
    String::from_str("{\"t\":\"nascraft_discover\",\"v\":1}")
}

/// Whether a datagram's type tag and version mark it as a discovery response.
pub open spec fn is_here_message(t: Seq<char>, v: u64) -> bool {
    t == "nascraft_here"@ && v == 1
}

/// Checks a datagram's type tag and version.
pub fn check_here_message(t: &str, v: u64) -> (r: bool)
    ensures
        r == is_here_message(t@, v),
{
    let lhs = String::from_str(t);
    let rhs = String::from_str("nascraft_here");
    lhs == rhs && v == 1
}

/// The view of an optional string.
pub open spec fn opt_text(s: Option<String>) -> Option<Seq<char>> {
    match s {
        Option::Some(v) => Option::Some(v@),
        Option::None => Option::None,
    }
}

/// A responder's service port: the one it named, or the default.
pub open spec fn effective_port(port: Option<u16>) -> u16 {
    match port {
        Option::Some(p) => p,
        Option::None => DEFAULT_SERVICE_PORT,
    }
}

/// A responder's instance name: the one it named, or its address.
pub open spec fn effective_name(name: Option<Seq<char>>, sender_ip: Seq<char>) -> Seq<char> {
    match name {
        Option::Some(n) => n,
        Option::None => sender_ip,
    }
}

/// The endpoint a valid broadcast response from `sender_ip` resolves to.
pub open spec fn response_server(
    name: Option<Seq<char>>,
    port: Option<u16>,
    sender_ip: Seq<char>,
) -> ServerView {
    ServerView {
        instance_name: effective_name(name, sender_ip),
        service_type: primary_service_type_text(),
        hostname: sender_ip,
        ip_v4: seq![sender_ip],
        port: effective_port(port),
    }
}

/// The deadline of a discovery call that starts at `now_ms` with the given
/// timeout (or the default), saturating at the largest representable time.
pub open spec fn deadline_spec(now_ms: u64, timeout_ms: Option<u64>) -> u64 {
    let t = match timeout_ms {
        Option::Some(t) => t,
        Option::None => DEFAULT_TIMEOUT_MS,
    };
    if now_ms + t > u64::MAX {
        u64::MAX
    } else {
        (now_ms + t) as u64
    }
}

/// How long the receive loop may wait when the time is `now`: until the
/// deadline, but at most one poll slice; nothing once the deadline has passed.
pub open spec fn poll_wait_spec(deadline: u64, now: u64) -> Option<u64> {
    if now >= deadline {
        Option::None
    } else if deadline - now > POLL_SLICE_MS {
        Option::Some(POLL_SLICE_MS)
    } else {
        Option::Some((deadline - now) as u64)
    }
}

/// The absolute deadline of a discovery call starting now, shared by both
/// strategies' polling loops.
pub fn deadline_after(now_ms: u64, timeout_ms: Option<u64>) -> (d: u64)
    ensures
        d == deadline_spec(now_ms, timeout_ms),
{
    let t = match timeout_ms {
        Option::Some(t) => t,
        Option::None => DEFAULT_TIMEOUT_MS,
    };
    if now_ms as u128 + t as u128 > u64::MAX as u128 {
        u64::MAX
    } else {
        now_ms + t
    }
}

/// How long one poll of either strategy's event source may wait at `now_ms`;
/// `None` once the deadline has been reached.
pub fn bounded_wait(deadline_ms: u64, now_ms: u64) -> (w: Option<u64>)
    ensures
        w == poll_wait_spec(deadline_ms, now_ms),
{
    if now_ms >= deadline_ms {
        Option::None
    } else if deadline_ms - now_ms > POLL_SLICE_MS {
        Option::Some(POLL_SLICE_MS)
    } else {
        Option::Some(deadline_ms - now_ms)
    }
}

/// The receive loop never waits past the deadline, never longer than one poll
/// slice, and stops exactly when the deadline has been reached.
pub proof fn lemma_poll_wait_bounded(deadline: u64, now: u64)
    ensures
        poll_wait_spec(deadline, now) is Some <==> now < deadline,
        poll_wait_spec(deadline, now) matches Some(w) ==> w <= POLL_SLICE_MS && now + w
            <= deadline,
{
}

/// The first `n` elements of `s` deduplicated by `(hostname, port)`, keeping
/// the first entry of each key.
pub open spec fn dedup_upto(s: Seq<ServerView>, n: int) -> Seq<ServerView>
    decreases n,
{
    if n <= 0 {
        Seq::empty()
    } else {
        let p = dedup_upto(s, n - 1);
        if has_key(p, s[n - 1].hostname, s[n - 1].port) {
            p
        } else {
            p.push(s[n - 1])
        }
    }
}

/// `s` deduplicated by `(hostname, port)`, keeping the first entry of each
/// key, in first-seen order.
pub open spec fn dedup_first(s: Seq<ServerView>) -> Seq<ServerView> {
    dedup_upto(s, s.len() as int)
}

/// Deduplication keeps exactly one entry per key: the result's entries have
/// pairwise distinct keys, and every key of the input is still represented.
pub proof fn lemma_dedup_one_per_key(s: Seq<ServerView>, n: int)
    requires
        0 <= n <= s.len(),
    ensures
        distinct_keys(dedup_upto(s, n)),
        forall|i: int|
            0 <= i < n ==> has_key(dedup_upto(s, n), s[i].hostname, s[i].port),
    decreases n,
{
    if n > 0 {
        lemma_dedup_one_per_key(s, n - 1);
        let p = dedup_upto(s, n - 1);
        let q = dedup_upto(s, n);
        assert forall|i: int| 0 <= i < n implies has_key(q, s[i].hostname, s[i].port) by {
            if i < n - 1 {
                let w = choose|k: int|
                    0 <= k < p.len() && p[k].hostname == s[i].hostname && p[k].port == s[i].port;
                assert(q[w] == p[w]);
            } else {
                if !has_key(p, s[n - 1].hostname, s[n - 1].port) {
                    assert(q[q.len() - 1] == s[n - 1]);
                }
            }
        }
    }
}

/// Every entry of the deduplicated sequence is an entry of the input.
pub proof fn lemma_dedup_entries_from_input(s: Seq<ServerView>, n: int)
    requires
        0 <= n <= s.len(),
    ensures
        forall|j: int|
            0 <= j < dedup_upto(s, n).len() ==> exists|i: int|
                0 <= i < n && s[i] == #[trigger] dedup_upto(s, n)[j],
    decreases n,
{
    if n > 0 {
        lemma_dedup_entries_from_input(s, n - 1);
        let p = dedup_upto(s, n - 1);
        let q = dedup_upto(s, n);
        assert forall|j: int| 0 <= j < q.len() implies exists|i: int|
            0 <= i < n && s[i] == #[trigger] q[j] by {
            if j < p.len() {
                let w = choose|i: int| 0 <= i < n - 1 && s[i] == p[j];
                assert(0 <= w < n && s[w] == q[j]);
            } else {
                assert(q[j] == s[n - 1]);
            }
        }
    }
}

/// Deduplicates `list` by `(hostname, port)`, keeping the first entry of each
/// key, in first-seen order.
pub fn dedup_servers(list: Vec<DiscoveredServer>) -> (r: Vec<DiscoveredServer>)
    ensures
        seq_views(r@) == dedup_first(seq_views(list@)),
        distinct_keys(seq_views(r@)),
{
    let ghost orig = list@;
    let mut rest = list;
    let mut r: Vec<DiscoveredServer> = Vec::new();
    let ghost mut i: int = 0;
    proof {
        assert(seq_views(r@) =~= dedup_upto(seq_views(orig), 0));
        assert(rest@ =~= orig.skip(0));
    }
    while rest.len() > 0
        invariant
            0 <= i <= orig.len(),
            i + rest@.len() == orig.len(),
            rest@ == orig.skip(i),
            seq_views(r@) == dedup_upto(seq_views(orig), i),
        decreases rest@.len(),
    {
        let d = rest.remove(0);
        proof {
            assert(d == orig[i]);
            assert(rest@ =~= orig.skip(i + 1));
        }
        if !contains_key(&r, &d.hostname, d.port) {
            r.push(d);
        }
        proof {
            assert(seq_views(orig)[i] == orig[i]@);
            assert(seq_views(r@) =~= dedup_upto(seq_views(orig), i + 1));
            i = i + 1;
        }
    }
    proof {
        assert(seq_views(orig) =~= seq_views(list@));
        lemma_dedup_one_per_key(seq_views(orig), seq_views(orig).len() as int);
    }
    r
}

/// One broadcast probe/response discovery call.
pub struct BroadcastSession {
    deadline_ms: u64,
    servers: Vec<DiscoveredServer>,
}

impl BroadcastSession {
    /// The absolute deadline of this call.
    pub closed spec fn deadline(&self) -> u64 {
        self.deadline_ms
    }

    /// The endpoints accepted so far, in arrival order.
    pub closed spec fn found(&self) -> Seq<ServerView> {
        seq_views(self.servers@)
    }

    /// No two accepted endpoints share a key.
    pub open spec fn wf(&self) -> bool {
        distinct_keys(self.found())
    }

    /// Whether no two accepted endpoints share a key; true for every session
    /// this module hands out, and testable by unverified callers before they
    /// feed a datagram.
    pub fn check_well_formed(&self) -> (r: bool)
        ensures
            r == self.wf(),
    {
        let mut i: usize = 1;
        while i < self.servers.len()
            invariant
                1 <= i,
                forall|a: int, b: int|
                    0 <= a < b < i && b < self.found().len() ==> !(self.found()[a].hostname
                        == self.found()[b].hostname && self.found()[a].port
                        == self.found()[b].port),
            decreases self.servers@.len() - i,
        {
            if contains_key_prefix(&self.servers, i) {
                return false;
            }
            i += 1;
        }
        true
    }

    /// Starts a discovery call at `now_ms`, bounded by `timeout_ms` (or the
    /// default timeout), with nothing found yet.
    pub fn begin(now_ms: u64, timeout_ms: Option<u64>) -> (s: Self)
        ensures
            s.deadline() == deadline_spec(now_ms, timeout_ms),
            s.found() == Seq::<ServerView>::empty(),
            s.wf(),
    {
        let deadline_ms = deadline_after(now_ms, timeout_ms);
        let s = BroadcastSession { deadline_ms, servers: Vec::new() };
        proof {
            assert(s.found() =~= Seq::<ServerView>::empty());
        }
        s
    }

    /// How long the next receive may wait at time `now_ms`; `None` once the
    /// deadline has been reached, upon which the call must finish.
    pub fn poll_wait(&self, now_ms: u64) -> (w: Option<u64>)
        ensures
            w == poll_wait_spec(self.deadline(), now_ms),
    {
        bounded_wait(self.deadline_ms, now_ms)
    }

    /// Feeds one received datagram, already split into its fields.  A
    /// datagram is accepted exactly when its tag and version match and no
    /// endpoint with the same `(address, port)` key was accepted before;
    /// everything else leaves the call unchanged (malformed datagrams are
    /// ignored, not an error).
    pub fn on_datagram(
        &mut self,
        t: &str,
        v: u64,
        name: Option<String>,
        port: Option<u16>,
        sender_ip: String,
    )
        requires
            old(self).wf(),
        ensures
            final(self).wf(),
            final(self).deadline() == old(self).deadline(),
            final(self).found() == if is_here_message(t@, v) && !has_key(
                old(self).found(),
                sender_ip@,
                effective_port(port),
            ) {
                old(self).found().push(response_server(opt_text(name), port, sender_ip@))
            } else {
                old(self).found()
            },
    {
        if !check_here_message(t, v) {
            return ;
        }
        let p = match port {
            Option::Some(p) => p,
            Option::None => DEFAULT_SERVICE_PORT,
        };
        if contains_key(&self.servers, &sender_ip, p) {
            return ;
        }
        let instance_name = match name {
            Option::Some(n) => n,
            Option::None => sender_ip.clone(),
        };
        let mut ips: Vec<String> = Vec::new();
        ips.push(sender_ip.clone());
        let server = DiscoveredServer {
            instance_name,
            service_type: String::from_str(primary_service_type()),
            hostname: sender_ip,
            ip_v4: ips,
            port: p,
        };
        proof {
            assert(server@.ip_v4 =~= seq![server.hostname@]);
        }
        self.servers.push(server);
        proof {
            assert(final(self).found() =~= old(self).found().push(
                response_server(opt_text(name), port, final(self).servers@.last().hostname@),
            ));
        }
    }

    /// Ends the call and hands out the endpoints found, in arrival order,
    /// deduplicated by `(hostname, port)`.
    pub fn finish(self) -> (r: Vec<DiscoveredServer>)
        requires
            self.wf(),
        ensures
            seq_views(r@) == self.found(),
            distinct_keys(seq_views(r@)),
    {
        self.servers
    }
}

} // verus!
