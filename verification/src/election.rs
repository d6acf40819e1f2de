//! The coordination plane: heartbeat-fed peer priorities, per-request
//! coordinator election, and idempotent coordinator notifications.
//!
//! Each server tracks the priority every peer last broadcast and when it was
//! heard. Before electing, stale peers are pruned. A server decides to
//! coordinate a request exactly when it has not seen the request before and
//! it beats every live peer: higher priority wins, and among equal
//! priorities the lexicographically greater address wins. The sockets that
//! carry heartbeats and notifications live outside the library.

use vstd::prelude::*;

use crate::encoding::{lemma_lex_lt_asymmetric, lemma_lex_lt_total, lemma_lex_lt_transitive,
    lex_lt, str_lex_lt};
use crate::kvlist::{keys_unique, kv_get, kv_map, kv_upsert, lemma_kv_map_dom, lemma_kv_map_index};

verus! {

/// The request ids a server has seen, as a set.
pub open spec fn str_set(s: Seq<String>) -> Set<Seq<char>> {
    Set::new(|k: Seq<char>| exists|i: int| 0 <= i < s.len() && s[i]@ == k)
}

proof fn lemma_str_set_push(s: Seq<String>, x: String)
    ensures
        str_set(s.push(x)) =~= str_set(s).insert(x@),
{
    assert forall|k: Seq<char>| str_set(s.push(x)).contains(k) implies str_set(s).insert(
        x@,
    ).contains(k) by {
        let i = choose|i: int| 0 <= i < s.push(x).len() && s.push(x)[i]@ == k;
        if i < s.len() {
            assert(s[i]@ == k);
        }
    }
    assert forall|k: Seq<char>| str_set(s).insert(x@).contains(k) implies str_set(
        s.push(x),
    ).contains(k) by {
        if k == x@ {
            assert(s.push(x)[s.len() as int]@ == k);
        } else {
            let i = choose|i: int| 0 <= i < s.len() && s[i]@ == k;
            assert(s.push(x)[i]@ == k);
        }
    }
}

fn queue_contains(q: &Vec<String>, rid: &String) -> (r: bool)
    ensures
        r == str_set(q@).contains(rid@),
{
    let mut i: usize = 0;
    while i < q.len()
        invariant
            i <= q@.len(),
            forall|j: int| 0 <= j < i ==> q@[j]@ != rid@,
        decreases q@.len() - i,
    {
        if q[i] == *rid {
            return true;
        }
        i += 1;
    }
    false
}

// --- the candidate order ------------------------------------------------------

/// The first candidate takes the request from the second: strictly higher
/// priority, or equal priority and the lexicographically greater address.
pub open spec fn candidate_beats(pr1: u64, addr1: Seq<char>, pr2: u64, addr2: Seq<char>) -> bool {
    pr1 > pr2 || (pr1 == pr2 && lex_lt(addr2, addr1))
}

/// A server coordinates exactly when it beats every live peer in its table.
pub open spec fn self_is_winner(pr: u64, addr: Seq<char>, table: Map<Seq<char>, u64>) -> bool {
    forall|k: Seq<char>| #[trigger] table.dom().contains(k) ==> candidate_beats(pr, addr, table[k], k)
}

proof fn lemma_beats_asymmetric(pr1: u64, a1: Seq<char>, pr2: u64, a2: Seq<char>)
    ensures
        !(candidate_beats(pr1, a1, pr2, a2) && candidate_beats(pr2, a2, pr1, a1)),
{
    lemma_lex_lt_asymmetric(a1, a2);
}

proof fn lemma_beats_total(pr1: u64, a1: Seq<char>, pr2: u64, a2: Seq<char>)
    requires
        a1 != a2,
    ensures
        candidate_beats(pr1, a1, pr2, a2) || candidate_beats(pr2, a2, pr1, a1),
{
    lemma_lex_lt_total(a1, a2);
}

proof fn lemma_beats_transitive(
    pr1: u64,
    a1: Seq<char>,
    pr2: u64,
    a2: Seq<char>,
    pr3: u64,
    a3: Seq<char>,
)
    requires
        candidate_beats(pr1, a1, pr2, a2),
        candidate_beats(pr2, a2, pr3, a3),
    ensures
        candidate_beats(pr1, a1, pr3, a3),
{
    if pr1 == pr2 && pr2 == pr3 {
        lemma_lex_lt_transitive(a3, a2, a1);
    }
}

// --- server state ---------------------------------------------------------------

/// One server's view of the cluster.
pub struct ServerStats {
    /// This server's own `ip:port`.
    pub self_addr: String,
    /// This server's current priority.
    pub pr: u64,
    /// The last priority each peer broadcast.
    pub peer_priorities: Vec<(String, u64)>,
    /// When each peer was last heard, in milliseconds.
    pub peer_alive: Vec<(String, u64)>,
    /// Request ids seen: being handled here, or claimed by a coordinator.
    pub client_request_queue: Vec<String>,
    /// The configured peers, for notifications.
    pub peer_nodes: Vec<String>,
    /// Whether the server accepts requests.
    pub is_active: bool,
}

impl ServerStats {
    pub open spec fn wf(&self) -> bool {
        &&& keys_unique(self.peer_priorities@)
        &&& keys_unique(self.peer_alive@)
        &&& forall|i: int|
            0 <= i < self.peer_priorities@.len() ==> #[trigger] self.peer_priorities@[i].0@
                != self.self_addr@
    }

    /// The effective priority table: peer address to priority.
    pub open spec fn table(&self) -> Map<Seq<char>, u64> {
        kv_map(self.peer_priorities@)
    }

    /// When each peer was last heard.
    pub open spec fn alive(&self) -> Map<Seq<char>, u64> {
        kv_map(self.peer_alive@)
    }

    /// The request ids seen so far.
    pub open spec fn queue(&self) -> Set<Seq<char>> {
        str_set(self.client_request_queue@)
    }

    pub fn new(self_addr: String, pr: u64, peer_nodes: Vec<String>) -> (r: ServerStats)
        ensures
            r.wf(),
            r.self_addr == self_addr,
            r.pr == pr,
            r.table() =~= Map::<Seq<char>, u64>::empty(),
            r.alive() =~= Map::<Seq<char>, u64>::empty(),
            r.queue() =~= Set::<Seq<char>>::empty(),
            r.peer_nodes == peer_nodes,
            r.is_active,
    {
        let r = ServerStats {
            self_addr,
            pr,
            peer_priorities: Vec::new(),
            peer_alive: Vec::new(),
            client_request_queue: Vec::new(),
            peer_nodes,
            is_active: true,
        };
        proof {
            assert(r.queue() =~= Set::<Seq<char>>::empty());
        }
        r
    }
}

/// Records a peer's heartbeat: its priority and the time it was heard. A
/// heartbeat from this server's own address changes nothing.
pub fn handle_heartbeat(stats: &mut ServerStats, sender_addr: &String, priority: u64, now_ms: u64)
    requires
        old(stats).wf(),
    ensures
        final(stats).wf(),
        sender_addr@ == old(stats).self_addr@ ==> *final(stats) == *old(stats),
        sender_addr@ != old(stats).self_addr@ ==> final(stats).table() =~= old(
            stats,
        ).table().insert(sender_addr@, priority) && final(stats).alive() =~= old(
            stats,
        ).alive().insert(sender_addr@, now_ms),
        final(stats).self_addr == old(stats).self_addr,
        final(stats).pr == old(stats).pr,
        final(stats).client_request_queue == old(stats).client_request_queue,
        final(stats).peer_nodes == old(stats).peer_nodes,
        final(stats).is_active == old(stats).is_active,
{
    if *sender_addr == stats.self_addr {
        return ;
    }
    kv_upsert(&mut stats.peer_priorities, sender_addr, priority);
    kv_upsert(&mut stats.peer_alive, sender_addr, now_ms);
}

/// Drops every peer not heard from within the timeout: its priority leaves
/// the effective table until its next heartbeat re-learns it.
pub fn prune_dead_peers(stats: &mut ServerStats, now_ms: u64, timeout_ms: u64)
    requires
        old(stats).wf(),
    ensures
        final(stats).wf(),
        forall|k: Seq<char>|
            #[trigger] final(stats).table().dom().contains(k) <==> (old(
                stats,
            ).table().dom().contains(k) && old(stats).alive().dom().contains(k) && old(
                stats,
            ).alive()[k] + timeout_ms >= now_ms),
        forall|k: Seq<char>|
            #[trigger] final(stats).table().dom().contains(k) ==> final(stats).table()[k] == old(
                stats,
            ).table()[k],
        final(stats).alive() == old(stats).alive(),
        final(stats).self_addr == old(stats).self_addr,
        final(stats).pr == old(stats).pr,
        final(stats).client_request_queue == old(stats).client_request_queue,
        final(stats).peer_nodes == old(stats).peer_nodes,
        final(stats).is_active == old(stats).is_active,
{
    let ghost entries = stats.peer_priorities@;
    let mut kept: Vec<(String, u64)> = Vec::new();
    let mut i: usize = 0;
    while i < stats.peer_priorities.len()
        invariant
            old(stats) == stats,
            stats.wf(),
            i <= entries.len(),
            entries == stats.peer_priorities@,
            keys_unique(kept@),
            forall|t: int|
                0 <= t < kept@.len() ==> exists|j: int|
                    0 <= j < i && entries[j] == #[trigger] kept@[t],
            forall|t: int|
                0 <= t < kept@.len() ==> stats.alive().dom().contains(#[trigger] kept@[t].0@)
                    && stats.alive()[kept@[t].0@] + timeout_ms >= now_ms,
            forall|j: int|
                0 <= j < i && stats.alive().dom().contains(#[trigger] entries[j].0@)
                    && stats.alive()[entries[j].0@] + timeout_ms >= now_ms ==> exists|t: int|
                    0 <= t < kept@.len() && kept@[t] == entries[j],
        decreases entries.len() - i,
    {
        let key = stats.peer_priorities[i].0.clone();
        let pr = stats.peer_priorities[i].1;
        let fresh_enough: bool = match kv_get(&stats.peer_alive, &key) {
            Some(last) => {
                if now_ms <= timeout_ms {
                    true
                } else {
                    last >= now_ms - timeout_ms
                }
            },
            None => false,
        };
        if fresh_enough {
            let ghost pre = kept@;
            kept.push((key, pr));
            proof {
                assert(kept@[pre.len() as int] == entries[i as int]);
                assert(keys_unique(kept@)) by {
                    assert forall|a: int, b: int|
                        0 <= a < b < kept@.len() implies kept@[a].0@ != kept@[b].0@ by {
                        if b == kept@.len() - 1 {
                            let j = choose|j: int| 0 <= j < i && entries[j] == kept@[a];
                            assert(entries[j].0@ != entries[i as int].0@);
                        }
                    }
                }
                assert forall|j: int|
                    0 <= j < i + 1 && stats.alive().dom().contains(#[trigger] entries[j].0@)
                        && stats.alive()[entries[j].0@] + timeout_ms >= now_ms implies exists|
                    t: int,
                |
                    0 <= t < kept@.len() && kept@[t] == entries[j] by {
                    if j < i {
                        let t = choose|t: int| 0 <= t < pre.len() && pre[t] == entries[j];
                        assert(kept@[t] == entries[j]);
                    } else {
                        assert(kept@[pre.len() as int] == entries[j]);
                    }
                }
            }
        } else {
            proof {
                assert(!(stats.alive().dom().contains(entries[i as int].0@) && stats.alive()[entries[i as int].0@]
                    + timeout_ms >= now_ms));
            }
        }
        i += 1;
    }
    let ghost keptv = kept@;
    stats.peer_priorities = kept;
    proof {
        assert forall|k: Seq<char>| #[trigger]
            kv_map(keptv).dom().contains(k) implies (kv_map(entries).dom().contains(k) && old(
            stats,
        ).alive().dom().contains(k) && old(stats).alive()[k] + timeout_ms >= now_ms) by {
            lemma_kv_map_dom(keptv, k);
            let t = choose|t: int| 0 <= t < keptv.len() && keptv[t].0@ == k;
            let j = choose|j: int| 0 <= j < entries.len() && entries[j] == keptv[t];
            lemma_kv_map_dom(entries, k);
            assert(entries[j].0@ == k);
        }
        assert forall|k: Seq<char>|
            (kv_map(entries).dom().contains(k) && old(stats).alive().dom().contains(k) && old(
                stats,
            ).alive()[k] + timeout_ms >= now_ms) implies #[trigger] kv_map(
            keptv,
        ).dom().contains(k) by {
            lemma_kv_map_dom(entries, k);
            let j = choose|j: int| 0 <= j < entries.len() && entries[j].0@ == k;
            assert(exists|t: int| 0 <= t < keptv.len() && keptv[t] == entries[j]);
            let t = choose|t: int| 0 <= t < keptv.len() && keptv[t] == entries[j];
            lemma_kv_map_dom(keptv, k);
            assert(keptv[t].0@ == k);
        }
        assert forall|k: Seq<char>| #[trigger] kv_map(keptv).dom().contains(k) implies kv_map(
            keptv,
        )[k] == kv_map(entries)[k] by {
            lemma_kv_map_dom(keptv, k);
            let t = choose|t: int| 0 <= t < keptv.len() && keptv[t].0@ == k;
            lemma_kv_map_index(keptv, t);
            let j = choose|j: int| 0 <= j < entries.len() && entries[j] == keptv[t];
            lemma_kv_map_index(entries, j);
        }
        assert forall|t: int|
            0 <= t < keptv.len() implies #[trigger] keptv[t].0@ != stats.self_addr@ by {
            let j = choose|j: int| 0 <= j < entries.len() && entries[j] == keptv[t];
            assert(entries[j].0@ != old(stats).self_addr@);
        }
        assert(stats.wf());
    }
}

/// Decides whether this server coordinates the request: yes exactly when the
/// request is new here and this server beats every peer in its table. A
/// winning server records the request id; the caller then notifies the
/// peers in `peer_nodes` and runs the handler.
pub fn process_client_request(stats: &mut ServerStats, request_id: &String) -> (coordinator: bool)
    requires
        old(stats).wf(),
    ensures
        final(stats).wf(),
        coordinator == (!old(stats).queue().contains(request_id@) && self_is_winner(
            old(stats).pr,
            old(stats).self_addr@,
            old(stats).table(),
        )),
        coordinator ==> final(stats).queue() =~= old(stats).queue().insert(request_id@),
        !coordinator ==> *final(stats) == *old(stats),
        final(stats).table() == old(stats).table(),
        final(stats).alive() == old(stats).alive(),
        final(stats).self_addr == old(stats).self_addr,
        final(stats).pr == old(stats).pr,
        final(stats).peer_nodes == old(stats).peer_nodes,
{
    if queue_contains(&stats.client_request_queue, request_id) {
        return false;
    }
    let ghost entries = stats.peer_priorities@;
    let mut best_pr: u64 = stats.pr;
    let mut best_addr: String = stats.self_addr.clone();
    let mut best_is_self: bool = true;
    let mut i: usize = 0;
    while i < stats.peer_priorities.len()
        invariant
            old(stats) == stats,
            stats.wf(),
            i <= entries.len(),
            entries == stats.peer_priorities@,
            best_is_self ==> best_pr == stats.pr && best_addr@ == stats.self_addr@,
            best_is_self ==> forall|j: int|
                0 <= j < i ==> candidate_beats(
                    stats.pr,
                    stats.self_addr@,
                    entries[j].1,
                    #[trigger] entries[j].0@,
                ),
            !best_is_self ==> exists|j: int|
                0 <= j < i && #[trigger] entries[j].1 == best_pr && entries[j].0@ == best_addr@
                    && !candidate_beats(stats.pr, stats.self_addr@, best_pr, best_addr@),
        decreases entries.len() - i,
    {
        let peer_addr = &stats.peer_priorities[i].0;
        let peer_pr = stats.peer_priorities[i].1;
        let takes_over: bool = peer_pr > best_pr || (peer_pr == best_pr && str_lex_lt(
            best_addr.as_str(),
            peer_addr.as_str(),
        ));
        proof {
            if best_is_self {
                if takes_over {
                    if peer_pr == stats.pr {
                        lemma_lex_lt_asymmetric(stats.self_addr@, entries[i as int].0@);
                    }
                    assert(!candidate_beats(
                        stats.pr,
                        stats.self_addr@,
                        peer_pr,
                        entries[i as int].0@,
                    ));
                } else {
                    lemma_lex_lt_total(entries[i as int].0@, stats.self_addr@);
                    assert(entries[i as int].0@ != stats.self_addr@);
                    assert(candidate_beats(
                        stats.pr,
                        stats.self_addr@,
                        peer_pr,
                        entries[i as int].0@,
                    ));
                }
            } else {
                if takes_over {
                    let j = choose|j: int|
                        0 <= j < i && #[trigger] entries[j].1 == best_pr && entries[j].0@
                            == best_addr@ && !candidate_beats(
                            stats.pr,
                            stats.self_addr@,
                            best_pr,
                            best_addr@,
                        );
                    assert(!candidate_beats(
                        stats.pr,
                        stats.self_addr@,
                        peer_pr,
                        entries[i as int].0@,
                    )) by {
                        if candidate_beats(
                            stats.pr,
                            stats.self_addr@,
                            peer_pr,
                            entries[i as int].0@,
                        ) {
                            if peer_pr == best_pr {
                                if stats.pr == peer_pr {
                                    lemma_lex_lt_transitive(
                                        best_addr@,
                                        entries[i as int].0@,
                                        stats.self_addr@,
                                    );
                                }
                            }
                        }
                    }
                }
            }
        }
        if takes_over {
            best_pr = peer_pr;
            best_addr = stats.peer_priorities[i].0.clone();
            best_is_self = false;
            proof {
                assert(entries[i as int].1 == best_pr && entries[i as int].0@ == best_addr@);
            }
        }
        i += 1;
    }
    proof {
        if best_is_self {
            assert forall|k: Seq<char>| #[trigger]
                stats.table().dom().contains(k) implies candidate_beats(
                stats.pr,
                stats.self_addr@,
                stats.table()[k],
                k,
            ) by {
                lemma_kv_map_dom(entries, k);
                let j = choose|j: int| 0 <= j < entries.len() && entries[j].0@ == k;
                lemma_kv_map_index(entries, j);
            }
        } else {
            let j = choose|j: int|
                0 <= j < entries.len() && #[trigger] entries[j].1 == best_pr && entries[j].0@
                    == best_addr@ && !candidate_beats(
                    stats.pr,
                    stats.self_addr@,
                    best_pr,
                    best_addr@,
                );
            lemma_kv_map_index(entries, j);
            assert(!self_is_winner(stats.pr, stats.self_addr@, stats.table()));
        }
    }
    if best_is_self {
        proof {
            lemma_str_set_push(stats.client_request_queue@, *request_id);
        }
        stats.client_request_queue.push(request_id.clone());
        proof {
            assert(stats.client_request_queue@ == old(stats).client_request_queue@.push(
                *request_id,
            ));
        }
        true
    } else {
        false
    }
}

/// Records that some peer coordinates this request, so that a duplicate of
/// the client's datagram is not handled here too. Receiving the same
/// notification again changes nothing.
pub fn handle_coordinator_notification(stats: &mut ServerStats, request_id: &String)
    requires
        old(stats).wf(),
    ensures
        final(stats).wf(),
        final(stats).queue() =~= old(stats).queue().insert(request_id@),
        old(stats).queue().contains(request_id@) ==> *final(stats) == *old(stats),
        final(stats).table() == old(stats).table(),
        final(stats).alive() == old(stats).alive(),
        final(stats).self_addr == old(stats).self_addr,
        final(stats).pr == old(stats).pr,
        final(stats).peer_nodes == old(stats).peer_nodes,
        final(stats).is_active == old(stats).is_active,
{
    if !queue_contains(&stats.client_request_queue, request_id) {
        proof {
            lemma_str_set_push(stats.client_request_queue@, *request_id);
        }
        stats.client_request_queue.push(request_id.clone());
        proof {
            assert(stats.client_request_queue@ == old(stats).client_request_queue@.push(
                *request_id,
            ));
        }
    } else {
        proof {
            assert(final(stats).queue() =~= old(stats).queue().insert(request_id@));
        }
    }
}


/// Clears a completed request: the coordinator removes the id from its
/// in-flight set when the handler returns.
pub fn finish_client_request(stats: &mut ServerStats, request_id: &String)
    requires
        old(stats).wf(),
    ensures
        final(stats).wf(),
        final(stats).queue() =~= old(stats).queue().remove(request_id@),
        final(stats).table() == old(stats).table(),
        final(stats).alive() == old(stats).alive(),
        final(stats).self_addr == old(stats).self_addr,
        final(stats).pr == old(stats).pr,
        final(stats).peer_nodes == old(stats).peer_nodes,
        final(stats).is_active == old(stats).is_active,
{
    let ghost entries = stats.client_request_queue@;
    let mut kept: Vec<String> = Vec::new();
    let mut i: usize = 0;
    while i < stats.client_request_queue.len()
        invariant
            old(stats) == stats,
            i <= entries.len(),
            entries == stats.client_request_queue@,
            forall|t: int|
                0 <= t < kept@.len() ==> #[trigger] kept@[t]@ != request_id@ && exists|j: int|
                    0 <= j < i && entries[j]@ == kept@[t]@,
            forall|j: int|
                0 <= j < i && #[trigger] entries[j]@ != request_id@ ==> exists|t: int|
                    0 <= t < kept@.len() && kept@[t]@ == entries[j]@,
        decreases entries.len() - i,
    {
        if !(stats.client_request_queue[i] == *request_id) {
            let ghost pre = kept@;
            kept.push(stats.client_request_queue[i].clone());
            proof {
                assert(kept@[pre.len() as int]@ == entries[i as int]@);
                assert forall|t: int|
                    0 <= t < kept@.len() implies #[trigger] kept@[t]@ != request_id@ && exists|
                    j: int,
                |
                    0 <= j < i + 1 && entries[j]@ == kept@[t]@ by {
                    if t < pre.len() {
                        assert(kept@[t] == pre[t]);
                        let j = choose|j: int| 0 <= j < i && entries[j]@ == pre[t]@;
                        assert(entries[j]@ == kept@[t]@);
                    } else {
                        assert(entries[i as int]@ == kept@[t]@);
                    }
                }
                assert forall|j: int|
                    0 <= j < i + 1 && #[trigger] entries[j]@ != request_id@ implies exists|t: int|
                    0 <= t < kept@.len() && kept@[t]@ == entries[j]@ by {
                    if j < i {
                        let t = choose|t: int| 0 <= t < pre.len() && pre[t]@ == entries[j]@;
                        assert(kept@[t]@ == entries[j]@);
                    } else {
                        assert(kept@[pre.len() as int]@ == entries[j]@);
                    }
                }
            }
        }
        i += 1;
    }
    let ghost keptv = kept@;
    stats.client_request_queue = kept;
    proof {
        assert forall|k: Seq<char>| str_set(keptv).contains(k) implies old(
            stats,
        ).queue().remove(request_id@).contains(k) by {
            let t = choose|t: int| 0 <= t < keptv.len() && keptv[t]@ == k;
            let j = choose|j: int| 0 <= j < entries.len() && entries[j]@ == keptv[t]@;
            assert(entries[j]@ == k);
        }
        assert forall|k: Seq<char>|
            old(stats).queue().remove(request_id@).contains(k) implies str_set(
            keptv,
        ).contains(k) by {
            let j = choose|j: int| 0 <= j < entries.len() && entries[j]@ == k;
            assert(exists|t: int| 0 <= t < keptv.len() && keptv[t]@ == entries[j]@);
            let t = choose|t: int| 0 <= t < keptv.len() && keptv[t]@ == entries[j]@;
            assert(keptv[t]@ == k);
        }
    }
}

/// Coordinator-notification idempotence: seeing the same request id twice
/// leaves the set of in-flight requests where one sighting put it.
pub proof fn lemma_notification_idempotent(q: Set<Seq<char>>, rid: Seq<char>)
    ensures
        q.insert(rid).insert(rid) =~= q.insert(rid),
{
}

// --- election uniqueness over a shared snapshot -----------------------------------

/// Candidate `i` beats every other candidate of the snapshot.
pub open spec fn wins_in(s: Seq<(Seq<char>, u64)>, i: int) -> bool
    recommends
        0 <= i < s.len(),
{
    forall|j: int|
        0 <= j < s.len() && j != i ==> candidate_beats(s[i].1, s[i].0, s[j].1, #[trigger] s[j].0)
}

/// No two candidates share an address.
pub open spec fn addrs_distinct(s: Seq<(Seq<char>, u64)>) -> bool {
    forall|i: int, j: int| 0 <= i < j < s.len() ==> #[trigger] s[i].0 != #[trigger] s[j].0
}

/// The priority table a server at position `i` holds when every live server
/// observes the snapshot `s`: all the other candidates.
pub open spec fn peers_table(s: Seq<(Seq<char>, u64)>, i: int) -> Map<Seq<char>, u64> {
    Map::new(
        |k: Seq<char>| exists|j: int| 0 <= j < s.len() && j != i && #[trigger] s[j].0 == k,
        |k: Seq<char>| s[choose|j: int| 0 <= j < s.len() && j != i && #[trigger] s[j].0 == k].1,
    )
}

/// A server decides itself coordinator on the shared snapshot exactly when
/// it is the snapshot's winner.
pub proof fn lemma_winner_decides(s: Seq<(Seq<char>, u64)>, i: int)
    requires
        addrs_distinct(s),
        0 <= i < s.len(),
    ensures
        self_is_winner(s[i].1, s[i].0, peers_table(s, i)) <==> wins_in(s, i),
{
    let t = peers_table(s, i);
    if self_is_winner(s[i].1, s[i].0, t) {
        assert forall|j: int|
            0 <= j < s.len() && j != i implies candidate_beats(
            s[i].1,
            s[i].0,
            s[j].1,
            #[trigger] s[j].0,
        ) by {
            let k = s[j].0;
            assert(t.dom().contains(k));
            let j2 = choose|j2: int| 0 <= j2 < s.len() && j2 != i && #[trigger] s[j2].0 == k;
            assert(j2 == j);
            assert(candidate_beats(s[i].1, s[i].0, t[k], k));
        }
    }
    if wins_in(s, i) {
        assert forall|k: Seq<char>| #[trigger] t.dom().contains(k) implies candidate_beats(
            s[i].1,
            s[i].0,
            t[k],
            k,
        ) by {
            let j = choose|j: int| 0 <= j < s.len() && j != i && #[trigger] s[j].0 == k;
            assert(t[k] == s[j].1);
        }
    }
}

/// At most one candidate wins a snapshot.
pub proof fn lemma_election_uniqueness(s: Seq<(Seq<char>, u64)>, i: int, j: int)
    requires
        addrs_distinct(s),
        0 <= i < s.len(),
        0 <= j < s.len(),
        wins_in(s, i),
        wins_in(s, j),
    ensures
        i == j,
{
    if i != j {
        lemma_beats_asymmetric(s[i].1, s[i].0, s[j].1, s[j].0);
    }
}

/// Some candidate wins every nonempty snapshot: with the tie-break on
/// addresses the order is total, so all live servers falsely seeing each
/// other dead still agree on one coordinator.
pub proof fn lemma_election_existence(s: Seq<(Seq<char>, u64)>)
    requires
        s.len() > 0,
        addrs_distinct(s),
    ensures
        exists|i: int| 0 <= i < s.len() && #[trigger] wins_in(s, i),
    decreases s.len(),
{
    if s.len() == 1 {
        assert(wins_in(s, 0));
    } else {
        let s0 = s.drop_last();
        let m = s.len() - 1;
        assert(addrs_distinct(s0)) by {
            assert(forall|a: int| 0 <= a < s0.len() ==> #[trigger] s0[a] == s[a]);
        }
        lemma_election_existence(s0);
        let w = choose|i: int| 0 <= i < s0.len() && #[trigger] wins_in(s0, i);
        assert(forall|j: int| 0 <= j < m ==> s0[j] == s[j]);
        if candidate_beats(s[w].1, s[w].0, s[m].1, s[m].0) {
            assert(wins_in(s, w)) by {
                assert forall|j: int|
                    0 <= j < s.len() && j != w implies candidate_beats(
                    s[w].1,
                    s[w].0,
                    s[j].1,
                    #[trigger] s[j].0,
                ) by {
                    if j < m {
                        assert(candidate_beats(s0[w].1, s0[w].0, s0[j].1, s0[j].0));
                    }
                }
            }
        } else {
            lemma_beats_total(s[w].1, s[w].0, s[m].1, s[m].0);
            assert(wins_in(s, m)) by {
                assert forall|j: int|
                    0 <= j < s.len() && j != m implies candidate_beats(
                    s[m].1,
                    s[m].0,
                    s[j].1,
                    #[trigger] s[j].0,
                ) by {
                    if j != w {
                        assert(candidate_beats(s0[w].1, s0[w].0, s0[j].1, s0[j].0));
                        lemma_beats_transitive(
                            s[m].1,
                            s[m].0,
                            s[w].1,
                            s[w].0,
                            s[j].1,
                            s[j].0,
                        );
                    }
                }
            }
        }
    }
}

// --- the heartbeat envelope --------------------------------------------------------

/// What a coordination datagram carries. Priorities travel in fixed-point
/// millionths (the broadcaster divides one by its load average and scales).
pub enum MessageType {
    Heartbeat(u64),
    CoordinatorNotification(String),
    ClientRequest(String),
    CoordinationIntent(String, u64),
}

/// The envelope exchanged on the coordination port.
pub struct Message {
    pub sender: String,
    pub receiver: String,
    pub msg_type: MessageType,
    pub payload: Option<String>,
}

/// Feeds one coordination envelope into the server state: heartbeats update
/// the priority table, coordinator notifications record the request id, and
/// the reserved message types are accepted and ignored.
pub fn handle_envelope(stats: &mut ServerStats, msg: &Message, now_ms: u64)
    requires
        old(stats).wf(),
    ensures
        final(stats).wf(),
        msg.msg_type matches MessageType::Heartbeat(pr) ==> ((msg.sender@ == old(
            stats,
        ).self_addr@ ==> *final(stats) == *old(stats)) && (msg.sender@ != old(stats).self_addr@
            ==> final(stats).table() =~= old(stats).table().insert(msg.sender@, pr) && final(stats).alive() =~= old(stats).alive().insert(msg.sender@, now_ms))),
        msg.msg_type matches MessageType::CoordinatorNotification(rid) ==> (final(stats).queue()
            =~= old(stats).queue().insert(rid@) && final(stats).table() == old(stats).table()),
        !(msg.msg_type is Heartbeat) && !(msg.msg_type is CoordinatorNotification)
            ==> *final(stats) == *old(stats),
{
    match &msg.msg_type {
        MessageType::Heartbeat(pr) => {
            handle_heartbeat(stats, &msg.sender, *pr, now_ms);
        },
        MessageType::CoordinatorNotification(rid) => {
            handle_coordinator_notification(stats, rid);
        },
        MessageType::ClientRequest(_) => {
        },
        MessageType::CoordinationIntent(_, _) => {
        },
    }
}

} // verus!
