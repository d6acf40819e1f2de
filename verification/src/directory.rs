//! The directory: clients, their resources, and pending rights queued for
//! offline viewers. Servers share one logical directory; any backend that
//! honours these contracts serves. This one holds the rows in memory, so
//! every operation is total; a remote backend's failures are the caller's
//! concern.

use vstd::prelude::*;

verus! {

/// A registered client: identity, current address, liveness.
pub struct ClientRecord {
    pub client_id: u64,
    pub addr: String,
    pub is_up: bool,
}

/// An uploaded image, owned by a client. Never mutated.
pub struct ResourceRecord {
    pub client_id: u64,
    pub image_id: String,
}

/// A grant queued for an offline viewer, delivered on its next sign-in.
pub struct PendingRightsRecord {
    pub client_id: u64,
    pub image_id: String,
    pub views: u32,
}

#[derive(Debug)]
pub enum DirectoryError {
    /// No client carries the given address.
    ClientNotFound,
}

/// The clients that are up, excluding one, in registration order.
pub open spec fn up_peers(clients: Seq<ClientRecord>, excl: u64) -> Seq<ClientRecord>
    decreases clients.len(),
{
    if clients.len() == 0 {
        Seq::empty()
    } else {
        let rest = up_peers(clients.drop_last(), excl);
        if clients.last().is_up && clients.last().client_id != excl {
            rest.push(clients.last())
        } else {
            rest
        }
    }
}

/// The image ids a client owns, in upload order.
pub open spec fn images_of(resources: Seq<ResourceRecord>, owner: u64) -> Seq<Seq<char>>
    decreases resources.len(),
{
    if resources.len() == 0 {
        Seq::empty()
    } else {
        let rest = images_of(resources.drop_last(), owner);
        if resources.last().client_id == owner {
            rest.push(resources.last().image_id@)
        } else {
            rest
        }
    }
}

/// The pending rights queued for a client, in queue order.
pub open spec fn pending_for(p: Seq<PendingRightsRecord>, cid: u64) -> Seq<PendingRightsRecord>
    decreases p.len(),
{
    if p.len() == 0 {
        Seq::empty()
    } else {
        let rest = pending_for(p.drop_last(), cid);
        if p.last().client_id == cid {
            rest.push(p.last())
        } else {
            rest
        }
    }
}

/// The pending rights left after a client's are drained.
pub open spec fn pending_without(p: Seq<PendingRightsRecord>, cid: u64) -> Seq<PendingRightsRecord>
    decreases p.len(),
{
    if p.len() == 0 {
        Seq::empty()
    } else {
        let rest = pending_without(p.drop_last(), cid);
        if p.last().client_id != cid {
            rest.push(p.last())
        } else {
            rest
        }
    }
}

/// A string vector's contents, as character sequences.
pub open spec fn strings_view(v: Seq<String>) -> Seq<Seq<char>> {
    v.map_values(|s: String| s@)
}

/// Some resource row pairs this owner with this image.
pub open spec fn has_resource(rs: Seq<ResourceRecord>, cid: u64, iid: Seq<char>) -> bool {
    exists|i: int| 0 <= i < rs.len() && rs[i].client_id == cid && #[trigger] rs[i].image_id@ == iid
}

/// The directory's rows.
pub struct Directory {
    pub clients: Vec<ClientRecord>,
    pub resources: Vec<ResourceRecord>,
    pub pending: Vec<PendingRightsRecord>,
    pub next_client_id: u64,
}

impl Directory {
    /// Client ids are unique and below the next id to hand out.
    pub open spec fn wf(&self) -> bool {
        &&& forall|i: int, j: int|
            0 <= i < j < self.clients@.len() ==> #[trigger] self.clients@[i].client_id
                != #[trigger] self.clients@[j].client_id
        &&& forall|i: int|
            0 <= i < self.clients@.len() ==> #[trigger] self.clients@[i].client_id
                < self.next_client_id
    }

    /// An empty directory that hands out ids from `first_id`.
    pub fn new(first_id: u64) -> (r: Directory)
        ensures
            r.wf(),
            r.clients@ =~= Seq::<ClientRecord>::empty(),
            r.resources@ =~= Seq::<ResourceRecord>::empty(),
            r.pending@ =~= Seq::<PendingRightsRecord>::empty(),
            r.next_client_id == first_id,
    {
        Directory {
            clients: Vec::new(),
            resources: Vec::new(),
            pending: Vec::new(),
            next_client_id: first_id,
        }
    }

    /// Inserts a new client at the given address, up, and returns its fresh
    /// id.
    pub fn register_user(&mut self, client_addr: &String) -> (id: u64)
        requires
            old(self).wf(),
            old(self).next_client_id < u64::MAX,
        ensures
            final(self).wf(),
            id == old(self).next_client_id,
            final(self).clients@ =~= old(self).clients@.push(
                (ClientRecord { client_id: id, addr: *client_addr, is_up: true }),
            ),
            final(self).next_client_id == id + 1,
            final(self).resources == old(self).resources,
            final(self).pending == old(self).pending,
    {
        let id = self.next_client_id;
        self.clients.push(ClientRecord { client_id: id, addr: client_addr.clone(), is_up: true });
        self.next_client_id = id + 1;
        id
    }

    /// Updates an existing client's address and marks it up; fails exactly
    /// when the id is unknown.
    pub fn sign_in_user(&mut self, client_id: u64, client_addr: &String) -> (ok: bool)
        requires
            old(self).wf(),
        ensures
            final(self).wf(),
            ok == exists|i: int|
                0 <= i < old(self).clients@.len() && #[trigger] old(self).clients@[i].client_id
                    == client_id,
            final(self).clients@.len() == old(self).clients@.len(),
            forall|j: int|
                0 <= j < old(self).clients@.len() && #[trigger] old(self).clients@[j].client_id
                    != client_id ==> final(self).clients@[j] == old(self).clients@[j],
            forall|j: int|
                0 <= j < old(self).clients@.len() && #[trigger] old(self).clients@[j].client_id
                    == client_id ==> final(self).clients@[j] == (ClientRecord {
                    client_id,
                    addr: *client_addr,
                    is_up: true,
                }),
            !ok ==> *final(self) == *old(self),
            final(self).resources == old(self).resources,
            final(self).pending == old(self).pending,
            final(self).next_client_id == old(self).next_client_id,
    {
        let mut i: usize = 0;
        while i < self.clients.len()
            invariant
                old(self) == self,
                old(self).wf(),
                i <= self.clients@.len(),
                forall|j: int| 0 <= j < i ==> #[trigger] self.clients@[j].client_id != client_id,
            decreases self.clients@.len() - i,
        {
            if self.clients[i].client_id == client_id {
                proof {
                    assert(old(self).clients@[i as int].client_id == client_id);
                    assert forall|j: int|
                        0 <= j < old(self).clients@.len() && #[trigger] old(
                            self,
                        ).clients@[j].client_id == client_id implies j == i as int by {
                        if j < i as int {
                            assert(old(self).clients@[j].client_id != old(
                                self,
                            ).clients@[i as int].client_id);
                        } else if j > i as int {
                            assert(old(self).clients@[i as int].client_id != old(
                                self,
                            ).clients@[j].client_id);
                        }
                    }
                }
                self.clients[i] = ClientRecord {
                    client_id,
                    addr: client_addr.clone(),
                    is_up: true,
                };
                proof {
                    assert forall|x: int|
                        0 <= x < self.clients@.len() implies #[trigger] self.clients@[x].client_id
                        == old(self).clients@[x].client_id by {
                        if x == i as int {
                            assert(old(self).clients@[x].client_id == client_id);
                        }
                    }
                    assert(self.wf());
                }
                return true;
            }
            i += 1;
        }
        false
    }

    /// Marks a client down. Unknown ids change nothing, as an update of no
    /// rows.
    pub fn shutdown_client(&mut self, client_id: u64)
        requires
            old(self).wf(),
        ensures
            final(self).wf(),
            final(self).clients@.len() == old(self).clients@.len(),
            forall|j: int|
                0 <= j < old(self).clients@.len() && #[trigger] old(self).clients@[j].client_id
                    != client_id ==> final(self).clients@[j] == old(self).clients@[j],
            forall|j: int|
                0 <= j < old(self).clients@.len() && #[trigger] old(self).clients@[j].client_id
                    == client_id ==> final(self).clients@[j] == (ClientRecord {
                    client_id,
                    addr: old(self).clients@[j].addr,
                    is_up: false,
                }),
            final(self).resources == old(self).resources,
            final(self).pending == old(self).pending,
            final(self).next_client_id == old(self).next_client_id,
    {
        let mut i: usize = 0;
        while i < self.clients.len()
            invariant
                i <= self.clients@.len(),
                self.clients@.len() == old(self).clients@.len(),
                self.wf(),
                forall|j: int|
                    0 <= j < old(self).clients@.len() && #[trigger] old(
                        self,
                    ).clients@[j].client_id != client_id ==> self.clients@[j] == old(
                        self,
                    ).clients@[j],
                forall|j: int|
                    0 <= j < i && #[trigger] old(self).clients@[j].client_id == client_id
                        ==> self.clients@[j] == (ClientRecord {
                        client_id,
                        addr: old(self).clients@[j].addr,
                        is_up: false,
                    }),
                forall|j: int|
                    i <= j < old(self).clients@.len() ==> #[trigger] self.clients@[j] == old(
                        self,
                    ).clients@[j],
                self.resources == old(self).resources,
                self.pending == old(self).pending,
                self.next_client_id == old(self).next_client_id,
            decreases self.clients@.len() - i,
        {
            if self.clients[i].client_id == client_id {
                let addr = self.clients[i].addr.clone();
                self.clients[i] = ClientRecord { client_id, addr, is_up: false };
            }
            i += 1;
        }
    }

    /// Records that a client owns an image: an idempotent upsert, duplicates
    /// are not errors and never change anything.
    pub fn insert_into_resources(&mut self, client_id: u64, image_id: &String)
        requires
            old(self).wf(),
        ensures
            final(self).wf(),
            has_resource(old(self).resources@, client_id, image_id@) ==> *final(self) == *old(
                self,
            ),
            !has_resource(old(self).resources@, client_id, image_id@) ==> final(self).resources@
                =~= old(self).resources@.push(
                (ResourceRecord { client_id, image_id: *image_id }),
            ),
            has_resource(final(self).resources@, client_id, image_id@),
            final(self).clients == old(self).clients,
            final(self).pending == old(self).pending,
            final(self).next_client_id == old(self).next_client_id,
    {
        let mut i: usize = 0;
        while i < self.resources.len()
            invariant
                old(self) == self,
                old(self).wf(),
                i <= self.resources@.len(),
                forall|j: int|
                    0 <= j < i ==> !(self.resources@[j].client_id == client_id
                        && #[trigger] self.resources@[j].image_id@ == image_id@),
            decreases self.resources@.len() - i,
        {
            if self.resources[i].client_id == client_id && self.resources[i].image_id == *image_id {
                proof {
                    assert(self.resources@[i as int].image_id@ == image_id@);
                }
                return ;
            }
            i += 1;
        }
        self.resources.push(ResourceRecord { client_id, image_id: image_id.clone() });
        proof {
            assert(self.resources@[old(self).resources@.len() as int].image_id@ == image_id@);
        }
    }

    /// Queues pending rights for the viewer at the given address (the first
    /// client carrying it) and returns that viewer's id; fails exactly when
    /// no client carries the address.
    pub fn update_access_rights(&mut self, client_ip: &String, image_id: &String, number_views: u32)
        -> (r: Result<u64, DirectoryError>)
        requires
            old(self).wf(),
        ensures
            final(self).wf(),
            r is Ok <==> exists|i: int|
                0 <= i < old(self).clients@.len() && #[trigger] old(self).clients@[i].addr@
                    == client_ip@,
            r matches Ok(cid) ==> exists|i: int|
                0 <= i < old(self).clients@.len() && #[trigger] old(self).clients@[i].addr@
                    == client_ip@ && (forall|j: int|
                    0 <= j < i ==> old(self).clients@[j].addr@ != client_ip@) && cid == old(self).clients@[i].client_id && final(self).pending@ =~= old(self).pending@.push(
                    (PendingRightsRecord {
                        client_id: old(self).clients@[i].client_id,
                        image_id: *image_id,
                        views: number_views,
                    }),
                ),
            r is Err ==> *final(self) == *old(self),
            final(self).clients == old(self).clients,
            final(self).resources == old(self).resources,
            final(self).next_client_id == old(self).next_client_id,
    {
        let mut i: usize = 0;
        while i < self.clients.len()
            invariant
                old(self) == self,
                old(self).wf(),
                i <= self.clients@.len(),
                forall|j: int| 0 <= j < i ==> #[trigger] self.clients@[j].addr@ != client_ip@,
            decreases self.clients@.len() - i,
        {
            if self.clients[i].addr == *client_ip {
                let cid = self.clients[i].client_id;
                self.pending.push(
                    PendingRightsRecord {
                        client_id: cid,
                        image_id: image_id.clone(),
                        views: number_views,
                    },
                );
                proof {
                    assert(self.clients@ == old(self).clients@);
                    assert(self.wf());
                    assert(self.clients@[i as int].addr@ == client_ip@);
                }
                return Ok(cid);
            }
            i += 1;
        }
        Err(DirectoryError::ClientNotFound)
    }

    /// Drains the pending rights queued for a client: returns each queued
    /// `(image_id, views)` in queue order and deletes the rows, one atomic
    /// read-then-delete.
    pub fn get_resources_by_client_id(&mut self, client_id: u64) -> (r: Vec<(String, u32)>)
        requires
            old(self).wf(),
        ensures
            final(self).wf(),
            r@.len() == pending_for(old(self).pending@, client_id).len(),
            forall|t: int|
                0 <= t < r@.len() ==> #[trigger] r@[t].0@ == pending_for(
                    old(self).pending@,
                    client_id,
                )[t].image_id@ && r@[t].1 == pending_for(old(self).pending@, client_id)[t].views,
            final(self).pending@ =~= pending_without(old(self).pending@, client_id),
            final(self).clients == old(self).clients,
            final(self).resources == old(self).resources,
            final(self).next_client_id == old(self).next_client_id,
    {
        let ghost pend = self.pending@;
        let mut drained: Vec<(String, u32)> = Vec::new();
        let mut left: Vec<PendingRightsRecord> = Vec::new();
        let mut i: usize = 0;
        while i < self.pending.len()
            invariant
                old(self) == self,
                pend == self.pending@,
                i <= pend.len(),
                drained@.len() == pending_for(pend.subrange(0, i as int), client_id).len(),
                forall|t: int|
                    0 <= t < drained@.len() ==> #[trigger] drained@[t].0@ == pending_for(
                        pend.subrange(0, i as int),
                        client_id,
                    )[t].image_id@ && drained@[t].1 == pending_for(
                        pend.subrange(0, i as int),
                        client_id,
                    )[t].views,
                left@ =~= pending_without(pend.subrange(0, i as int), client_id),
            decreases pend.len() - i,
        {
            let ghost pre = pend.subrange(0, i as int);
            let ghost post = pend.subrange(0, i + 1);
            proof {
                assert(post.drop_last() =~= pre);
                assert(post.last() == pend[i as int]);
            }
            let rec = &self.pending[i];
            if rec.client_id == client_id {
                drained.push((rec.image_id.clone(), rec.views));
            } else {
                left.push(
                    PendingRightsRecord {
                        client_id: rec.client_id,
                        image_id: rec.image_id.clone(),
                        views: rec.views,
                    },
                );
            }
            i += 1;
        }
        proof {
            assert(pend.subrange(0, pend.len() as int) =~= pend);
        }
        self.pending = left;
        drained
    }

    /// The snapshot for `active_users`: every up client other than the
    /// caller, with its address and the images it owns, in registration
    /// order.
    pub fn get_images_up(&self, client_id: u64) -> (r: Vec<(u64, String, Vec<String>)>)
        ensures
            r@.len() == up_peers(self.clients@, client_id).len(),
            forall|t: int|
                0 <= t < r@.len() ==> #[trigger] r@[t].0 == up_peers(
                    self.clients@,
                    client_id,
                )[t].client_id,
            forall|t: int|
                0 <= t < r@.len() ==> #[trigger] r@[t].1@ == up_peers(
                    self.clients@,
                    client_id,
                )[t].addr@,
            forall|t: int|
                0 <= t < r@.len() ==> strings_view(#[trigger] r@[t].2@) =~= images_of(
                    self.resources@,
                    up_peers(self.clients@, client_id)[t].client_id,
                ),
    {
        let ghost cls = self.clients@;
        let mut r: Vec<(u64, String, Vec<String>)> = Vec::new();
        let mut i: usize = 0;
        while i < self.clients.len()
            invariant
                i <= cls.len(),
                cls == self.clients@,
                r@.len() == up_peers(cls.subrange(0, i as int), client_id).len(),
                forall|t: int|
                    0 <= t < r@.len() ==> #[trigger] r@[t].0 == up_peers(
                        cls.subrange(0, i as int),
                        client_id,
                    )[t].client_id,
                forall|t: int|
                    0 <= t < r@.len() ==> #[trigger] r@[t].1@ == up_peers(
                        cls.subrange(0, i as int),
                        client_id,
                    )[t].addr@,
                forall|t: int|
                    0 <= t < r@.len() ==> strings_view(#[trigger] r@[t].2@) =~= images_of(
                        self.resources@,
                        up_peers(cls.subrange(0, i as int), client_id)[t].client_id,
                    ),
            decreases cls.len() - i,
        {
            let ghost pre = cls.subrange(0, i as int);
            let ghost post = cls.subrange(0, i + 1);
            proof {
                assert(post.drop_last() =~= pre);
                assert(post.last() == cls[i as int]);
            }
            let c = &self.clients[i];
            if c.is_up && c.client_id != client_id {
                let images = self.images_owned_by(c.client_id);
                r.push((c.client_id, c.addr.clone(), images));
            }
            i += 1;
        }
        proof {
            assert(cls.subrange(0, cls.len() as int) =~= cls);
        }
        r
    }

    /// The image ids a client owns, in upload order.
    fn images_owned_by(&self, owner: u64) -> (r: Vec<String>)
        ensures
            strings_view(r@) =~= images_of(self.resources@, owner),
    {
        let ghost rs = self.resources@;
        let mut r: Vec<String> = Vec::new();
        let mut i: usize = 0;
        while i < self.resources.len()
            invariant
                i <= rs.len(),
                rs == self.resources@,
                strings_view(r@) =~= images_of(rs.subrange(0, i as int), owner),
            decreases rs.len() - i,
        {
            let ghost pre = rs.subrange(0, i as int);
            let ghost post = rs.subrange(0, i + 1);
            proof {
                assert(post.drop_last() =~= pre);
                assert(post.last() == rs[i as int]);
            }
            if self.resources[i].client_id == owner {
                r.push(self.resources[i].image_id.clone());
                proof {
                    assert(strings_view(r@) =~= strings_view(r@.drop_last()).push(r@.last()@));
                }
            }
            i += 1;
        }
        proof {
            assert(rs.subrange(0, rs.len() as int) =~= rs);
        }
        r
    }
}

// --- pending-rights laws -----------------------------------------------------------

/// A record queued for a viewer comes back at the end of that viewer's next
/// drain.
pub proof fn lemma_queued_is_drained(p: Seq<PendingRightsRecord>, rec: PendingRightsRecord)
    ensures
        pending_for(p.push(rec), rec.client_id) =~= pending_for(p, rec.client_id).push(rec),
{
    assert(p.push(rec).drop_last() =~= p);
}

/// Draining is exactly-once: what one drain leaves behind holds nothing for
/// that viewer, so a second drain returns nothing.
pub proof fn lemma_pending_rights_exactly_once(p: Seq<PendingRightsRecord>, cid: u64)
    ensures
        pending_for(pending_without(p, cid), cid) =~= Seq::<PendingRightsRecord>::empty(),
    decreases p.len(),
{
    if p.len() > 0 {
        lemma_pending_rights_exactly_once(p.drop_last(), cid);
        if p.last().client_id != cid {
            let w = pending_without(p.drop_last(), cid);
            assert(w.push(p.last()).drop_last() =~= w);
        }
    }
}

} // verus!
