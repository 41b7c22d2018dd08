//! The multicast query strategy: handling of resolution events and the merge
//! of results across service types.
//!
//! The platform's multicast browse session delivers resolution events; a
//! [`MdnsTypePass`] turns them into endpoints, deduplicated by full name
//! within one service-type pass.  [`merge_discoveries`] then merges the
//! per-type result lists, deduplicated by `(hostname, port)`, first-seen
//! kept.

use vstd::prelude::*;
use crate::discovery::DiscoveredServer;
use crate::discovery::ServerView;
use crate::discovery::seq_views;
use crate::discovery::dedup_first;
use crate::discovery::dedup_servers;
use crate::discovery::distinct_keys;
use crate::textorder::sorted_unique;
use crate::textorder::sort_dedup_strings;
use crate::textorder::contains_string;

verus! {

/// Whether `full` ends with `"." + ty`.
pub open spec fn has_type_suffix(full: Seq<char>, ty: Seq<char>) -> bool {
    full.len() > ty.len() && full.skip(full.len() - (ty.len() + 1)) == seq!['.'] + ty
}

/// The short instance name of a resolved full name: the full name with its
/// trailing `"." + ty` stripped, or unchanged when that suffix is absent.
pub open spec fn instance_of(full: Seq<char>, ty: Seq<char>) -> Seq<char> {
    if has_type_suffix(full, ty) {
        full.take(full.len() - (ty.len() + 1))
    } else {
        full
    }
}

/// Whether `s` ends with `suffix`.
fn str_ends_with(s: &str, suffix: &str) -> (r: bool)
    ensures
        r == (s@.len() >= suffix@.len() && s@.skip(s@.len() - suffix@.len()) == suffix@),
{
    let ls = s.unicode_len();
    let lt = suffix.unicode_len();
    if ls < lt {
        return false;
    }
    let off = ls - lt;
    let mut i: usize = 0;
    while i < lt
        invariant
            0 <= i <= lt,
            ls == s@.len(),
            lt == suffix@.len(),
            lt <= ls,
            off == ls - lt,
            forall|j: int| 0 <= j < i ==> s@[off + j] == suffix@[j],
        decreases lt - i,
    {
        if s.get_char(off + i) != suffix.get_char(i) {
            proof {
                assert(s@.skip(off as int)[i as int] == s@[off + i]);
            }
            return false;
        }
        i += 1;
    }
    proof {
        assert(s@.skip(off as int) =~= suffix@);
    }
    true
}

/// Strips the trailing `"." + service_type` from `full`; a full name without
/// that suffix is returned unchanged.
pub fn strip_service_suffix(full: &str, service_type: &str) -> (r: String)
    ensures
        r@ == instance_of(full@, service_type@),
{
    let mut sfx = String::from_str(".");
    sfx.append(service_type);
    proof {
        reveal_strlit(".");
        assert(sfx@ =~= seq!['.'] + service_type@);
    }
    if str_ends_with(full, sfx.as_str()) {
        let keep = full.unicode_len() - sfx.unicode_len();
        let pre = full.substring_char(0, keep);
        String::from_str(pre)
    } else {
        String::from_str(full)
    }
}

/// The endpoint one valid resolution event yields: the instance name derived
/// from the full name, the addresses sorted ascending and deduplicated, and
/// the hostname standing in when no address was resolved.
pub open spec fn resolved_server(
    full: Seq<char>,
    ty: Seq<char>,
    hostname: Seq<char>,
    port: u16,
    addrs: Seq<Seq<char>>,
) -> ServerView {
    let ips = sorted_unique(addrs);
    ServerView {
        instance_name: instance_of(full, ty),
        service_type: ty,
        hostname: hostname,
        ip_v4: if ips.len() == 0 {
            seq![hostname]
        } else {
            ips
        },
        port: port,
    }
}

/// One multicast browse pass for a single service type.
pub struct MdnsTypePass {
    service_type: String,
    seen_fullnames: Vec<String>,
    servers: Vec<DiscoveredServer>,
}

impl MdnsTypePass {
    /// The service type this pass browses for.
    pub closed spec fn service_type_text(&self) -> Seq<char> {
        self.service_type@
    }

    /// The full names already resolved in this pass, in arrival order.
    pub closed spec fn seen(&self) -> Seq<Seq<char>> {
        self.seen_fullnames.deep_view()
    }

    /// The endpoints collected so far, in arrival order.
    pub closed spec fn found(&self) -> Seq<ServerView> {
        seq_views(self.servers@)
    }

    /// Starts a pass for `service_type` with nothing resolved yet.
    pub fn begin(service_type: String) -> (s: Self)
        ensures
            s.service_type_text() == service_type@,
            s.seen() == Seq::<Seq<char>>::empty(),
            s.found() == Seq::<ServerView>::empty(),
    {
        let s = MdnsTypePass {
            service_type,
            seen_fullnames: Vec::new(),
            servers: Vec::new(),
        };
        proof {
            assert(s.seen() =~= Seq::<Seq<char>>::empty());
            assert(s.found() =~= Seq::<ServerView>::empty());
        }
        s
    }

    /// Feeds one resolution event.  A full name resolved before in this pass
    /// is dropped; otherwise the event's endpoint is collected and the full
    /// name marked as seen.
    pub fn on_resolved(&mut self, fullname: String, hostname: String, port: u16, addrs: Vec<String>)
        ensures
            final(self).service_type_text() == old(self).service_type_text(),
            old(self).seen().contains(fullname@) ==> final(self).seen() == old(self).seen()
                && final(self).found() == old(self).found(),
            !old(self).seen().contains(fullname@) ==> final(self).seen() == old(self).seen().push(
                fullname@,
            ) && final(self).found() == old(self).found().push(
                resolved_server(
                    fullname@,
                    old(self).service_type_text(),
                    hostname@,
                    port,
                    addrs.deep_view(),
                ),
            ),
    {
        if contains_string(&self.seen_fullnames, &fullname) {
            return ;
        }
        let instance_name = strip_service_suffix(fullname.as_str(), self.service_type.as_str());
        let ghost addr_views = addrs.deep_view();
        let mut ips = sort_dedup_strings(addrs);
        if ips.len() == 0 {
            ips.push(hostname.clone());
            proof {
                assert(ips.deep_view() =~= seq![hostname@]);
            }
        }
        let server = DiscoveredServer {
            instance_name,
            service_type: self.service_type.clone(),
            hostname,
            ip_v4: ips,
            port,
        };
        proof {
            assert(server@ == resolved_server(
                fullname@,
                old(self).service_type_text(),
                server.hostname@,
                port,
                addr_views,
            ));
        }
        self.seen_fullnames.push(fullname);
        self.servers.push(server);
        proof {
            assert(final(self).seen() =~= old(self).seen().push(
                final(self).seen_fullnames@.last()@,
            ));
            assert(final(self).found() =~= old(self).found().push(final(self).servers@.last()@));
        }
    }

    /// Ends the pass and hands out the endpoints resolved, in arrival order.
    pub fn finish(self) -> (r: Vec<DiscoveredServer>)
        ensures
            seq_views(r@) == self.found(),
    {
        self.servers
    }
}

/// Merges the per-service-type result lists into one, deduplicated by
/// `(hostname, port)`, keeping the first-seen entry of each key.
pub fn merge_discoveries(lists: Vec<Vec<DiscoveredServer>>) -> (r: Vec<DiscoveredServer>)
    ensures
        seq_views(r@) == dedup_first(lists.deep_view().flatten()),
        distinct_keys(seq_views(r@)),
{
    let ghost orig = lists.deep_view();
    let mut rest = lists;
    let mut all: Vec<DiscoveredServer> = Vec::new();
    let ghost mut i: int = 0;
    proof {
        assert(seq_views(all@) =~= orig.take(0).flatten());
        assert(rest.deep_view() =~= orig.skip(0));
    }
    while rest.len() > 0
        invariant
            0 <= i <= orig.len(),
            i + rest@.len() == orig.len(),
            rest.deep_view() == orig.skip(i),
            seq_views(all@) == orig.take(i).flatten(),
        decreases rest@.len(),
    {
        let ghost prev = rest.deep_view();
        let ghost prev_vec = rest@;
        let ghost all_prev = all@;
        let mut l = rest.remove(0);
        proof {
            assert(l@ == prev_vec[0]@);
            assert(prev[0] == orig.skip(i)[0]);
            assert(orig.skip(i)[0] == orig[i]);
            assert(prev[0] == prev_vec[0].deep_view());
            assert forall|k: int| 0 <= k < l@.len() implies #[trigger] seq_views(l@)[k] == orig[i][k] by {
                assert(seq_views(l@)[k] == l@[k]@);
                assert(prev_vec[0].deep_view()[k] == prev_vec[0]@[k]@);
            }
            assert(seq_views(l@) =~= orig[i]);
            assert forall|k: int| 0 <= k < rest@.len() implies #[trigger] rest.deep_view()[k]
                == orig.skip(i + 1)[k] by {
                assert(rest@[k] == prev_vec[k + 1]);
                assert(prev[k + 1] == prev_vec[k + 1].deep_view());
                assert(prev[k + 1] == orig.skip(i)[k + 1]);
            }
            assert(rest.deep_view() =~= orig.skip(i + 1));
        }
        all.append(&mut l);
        proof {
            assert(orig.take(i + 1) =~= orig.take(i).push(orig[i]));
            orig.take(i).lemma_flatten_push(orig[i]);
            assert(seq_views(all@) =~= seq_views(all_prev) + seq_views(prev_vec[0]@));
            assert(seq_views(all@) =~= orig.take(i + 1).flatten());
            i = i + 1;
        }
    }
    proof {
        assert(orig.take(orig.len() as int) =~= orig);
    }
    dedup_servers(all)
}

} // verus!
