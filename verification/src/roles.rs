//! The role manager: each node keeps a table of its peers' latest
//! broadcast states and derives from it which role it plays — master,
//! master backup or slave — and which node it directs hall calls to.

use vstd::prelude::*;
use crate::types::{Role, State, Status};

verus! {

/// One peer-table entry: the peer's latest broadcast state and when it
/// was last refreshed, for expiry.
#[derive(Clone, Copy, Debug, PartialEq, Eq)]
pub struct PeerEntry {
    pub state: State,
    pub last_seen: u64,
}

/// Some peer other than this node currently claims the master role.
/// A node's own table entry is disregarded: it only echoes the role
/// this very computation produced.
pub open spec fn has_other_master(id: u8, peers: Seq<PeerEntry>) -> bool {
    exists|k: int|
        0 <= k < peers.len() && (#[trigger] peers[k]).state.id != id && peers[k].state.role
            is Master
}

/// Some peer other than this node currently claims the backup role.
pub open spec fn has_other_backup(id: u8, peers: Seq<PeerEntry>) -> bool {
    exists|k: int|
        0 <= k < peers.len() && (#[trigger] peers[k]).state.id != id && peers[k].state.role
            is MasterBackup
}

/// `m` is the lowest id among the other nodes claiming master.
pub open spec fn is_min_master_id(id: u8, peers: Seq<PeerEntry>, m: u8) -> bool {
    &&& exists|k: int|
        0 <= k < peers.len() && (#[trigger] peers[k]).state.id != id && peers[k].state.role
            is Master && peers[k].state.id == m
    &&& forall|k: int|
        0 <= k < peers.len() && (#[trigger] peers[k]).state.id != id && peers[k].state.role
            is Master ==> peers[k].state.id >= m
}

/// The election rules: with no other master in sight a node takes the
/// master role itself; with a master but no backup it becomes the
/// backup; otherwise it is a slave. Whenever another master exists, the
/// node directs hall calls to the lowest-id master.
pub open spec fn role_outcome(id: u8, peers: Seq<PeerEntry>, r: Role, m: Option<u8>) -> bool {
    if !has_other_master(id, peers) {
        r is Master && m == Some(id)
    } else {
        &&& (if !has_other_backup(id, peers) {
            r is MasterBackup
        } else {
            r is Slave
        })
        &&& (m matches Some(mm) && is_min_master_id(id, peers, mm))
    }
}

/// A node's identity, its current role, the master it directs hall
/// calls to, and its peer table.
pub struct NetworkUnit {
    pub id: u8,
    pub role: Role,
    pub my_master: Option<u8>,
    pub state_list: Vec<PeerEntry>,
}

impl NetworkUnit {
    /// The peer table.
    pub closed spec fn peers(&self) -> Seq<PeerEntry> {
        self.state_list@
    }

    /// Well-formed: one entry per node id.
    pub closed spec fn wf(&self) -> bool {
        forall|k1: int, k2: int|
            0 <= k1 < self.state_list@.len() && 0 <= k2 < self.state_list@.len() && k1 != k2
                ==> (#[trigger] self.state_list@[k1]).state.id != (
            #[trigger] self.state_list@[k2]).state.id
    }

    /// A fresh unit: empty peer table, and the master role until a
    /// broadcast from some other master is heard.
    pub fn new(id: u8) -> (r: Self)
        ensures
            r.id == id,
            r.role is Master,
            r.my_master is None,
            r.peers() == Seq::<PeerEntry>::empty(),
            r.wf(),
    {
        let r = NetworkUnit { id, role: Role::Master, my_master: None, state_list: Vec::new() };
        proof {
            assert(r.state_list@ =~= Seq::<PeerEntry>::empty());
        }
        r
    }

    /// Upserts a peer's state, keyed by node id: the freshest broadcast
    /// wins, and the entry's refresh time is set to `now`.
    pub fn update_state_list(&mut self, new_state: State, now: u64)
        requires
            old(self).wf(),
        ensures
            final(self).wf(),
            final(self).id == old(self).id,
            final(self).role == old(self).role,
            final(self).my_master == old(self).my_master,
            final(self).peers().contains(PeerEntry { state: new_state, last_seen: now }),
            forall|e: PeerEntry|
                old(self).peers().contains(e) && e.state.id != new_state.id ==> final(self)
                    .peers().contains(e),
            forall|e: PeerEntry|
                #[trigger] final(self).peers().contains(e) ==> e == (PeerEntry {
                    state: new_state,
                    last_seen: now,
                }) || (old(self).peers().contains(e) && e.state.id != new_state.id),
    {
        let ghost pre = self.state_list@;
        let entry = PeerEntry { state: new_state, last_seen: now };
        let mut found: usize = self.state_list.len();
        let mut i: usize = 0;
        while i < self.state_list.len()
            invariant
                i <= self.state_list@.len(),
                found <= pre.len(),
                self.state_list@ == pre,
                found == pre.len() ==> forall|k: int|
                    0 <= k < i ==> (#[trigger] pre[k]).state.id != new_state.id,
                found < pre.len() ==> pre[found as int].state.id == new_state.id,
            decreases self.state_list@.len() - i,
        {
            if self.state_list[i].state.id == new_state.id {
                found = i;
                i = self.state_list.len();
            } else {
                i = i + 1;
            }
        }
        proof {
            assert(forall|k1: int, k2: int|
                0 <= k1 < pre.len() && 0 <= k2 < pre.len() && k1 != k2 ==> (
                #[trigger] pre[k1]).state.id != (#[trigger] pre[k2]).state.id);
        }
        if found < self.state_list.len() {
            self.state_list[found] = entry;
            proof {
                let post = self.state_list@;
                let f = found as int;
                assert(post == pre.update(f, entry));
                assert(post.contains(entry)) by {
                    assert(post[f] == entry);
                }
                assert forall|e: PeerEntry|
                    pre.contains(e) && e.state.id != new_state.id implies post.contains(e) by {
                    let k = choose|k: int| 0 <= k < pre.len() && pre[k] == e;
                    assert(k != f);
                    assert(post[k] == e);
                }
                assert forall|e: PeerEntry| #[trigger] post.contains(e) implies e == entry || (
                pre.contains(e) && e.state.id != new_state.id) by {
                    let k = choose|k: int| 0 <= k < post.len() && post[k] == e;
                    if k != f {
                        assert(pre[k] == e);
                        assert(pre[k].state.id != pre[f].state.id);
                    }
                }
                assert forall|k1: int, k2: int|
                    0 <= k1 < post.len() && 0 <= k2 < post.len() && k1 != k2 implies (
                #[trigger] post[k1]).state.id != (#[trigger] post[k2]).state.id by {
                    if k1 != f && k2 != f {
                        assert(post[k1] == pre[k1]);
                        assert(post[k2] == pre[k2]);
                    } else if k1 == f {
                        assert(post[k1] == entry);
                        assert(post[k2] == pre[k2]);
                        assert(pre[k2].state.id != pre[f].state.id);
                    } else {
                        assert(post[k2] == entry);
                        assert(post[k1] == pre[k1]);
                        assert(pre[k1].state.id != pre[f].state.id);
                    }
                }
            }
        } else {
            self.state_list.push(entry);
            proof {
                let post = self.state_list@;
                assert(post == pre.push(entry));
                assert(post.contains(entry)) by {
                    assert(post[post.len() - 1] == entry);
                }
                assert forall|e: PeerEntry|
                    pre.contains(e) && e.state.id != new_state.id implies post.contains(e) by {
                    let k = choose|k: int| 0 <= k < pre.len() && pre[k] == e;
                    assert(post[k] == e);
                }
                assert forall|e: PeerEntry| #[trigger] post.contains(e) implies e == entry || (
                pre.contains(e) && e.state.id != new_state.id) by {
                    let k = choose|k: int| 0 <= k < post.len() && post[k] == e;
                    if k < pre.len() {
                        assert(pre[k] == e);
                        assert(pre[k].state.id != new_state.id);
                    }
                }
                assert forall|k1: int, k2: int|
                    0 <= k1 < post.len() && 0 <= k2 < post.len() && k1 != k2 implies (
                #[trigger] post[k1]).state.id != (#[trigger] post[k2]).state.id by {
                    if k1 < pre.len() && k2 < pre.len() {
                        assert(post[k1] == pre[k1]);
                        assert(post[k2] == pre[k2]);
                    } else if k1 < pre.len() {
                        assert(post[k1] == pre[k1]);
                        assert(post[k2] == entry);
                        assert(pre[k1].state.id != new_state.id);
                    } else {
                        assert(post[k1] == entry);
                        assert(post[k2] == pre[k2]);
                        assert(pre[k2].state.id != new_state.id);
                    }
                }
            }
        }
    }

    /// A snapshot of the peers' states, in table order.
    pub fn get_state_list(&self) -> (r: Vec<State>)
        ensures
            r@.len() == self.peers().len(),
            forall|k: int| 0 <= k < r@.len() ==> r@[k] == (#[trigger] self.peers()[k]).state,
    {
        let mut r: Vec<State> = Vec::new();
        let mut i: usize = 0;
        while i < self.state_list.len()
            invariant
                i <= self.state_list@.len(),
                r@.len() == i,
                forall|k: int|
                    0 <= k < i ==> r@[k] == (#[trigger] self.state_list@[k]).state,
            decreases self.state_list@.len() - i,
        {
            r.push(self.state_list[i].state);
            i = i + 1;
        }
        r
    }

    /// Drops every peer that has not refreshed its state within the
    /// time-to-live: a silent node is treated as dead and its role is
    /// recomputed without it.
    pub fn expire(&mut self, now: u64, ttl: u64)
        requires
            old(self).wf(),
        ensures
            final(self).wf(),
            final(self).id == old(self).id,
            final(self).role == old(self).role,
            final(self).my_master == old(self).my_master,
            forall|e: PeerEntry|
                #[trigger] final(self).peers().contains(e) <==> (old(self).peers().contains(e)
                    && now <= e.last_seen + ttl),
    {
        broadcast use vstd::seq_lib::lemma_seq_contains_after_push;

        let ghost pre = self.state_list@;
        let mut kept: Vec<PeerEntry> = Vec::new();
        let mut i: usize = 0;
        while i < self.state_list.len()
            invariant
                i <= self.state_list@.len(),
                self.state_list@ == pre,
                old(self).wf(),
                self.state_list@ == old(self).state_list@,
                forall|k: int|
                    0 <= k < kept@.len() ==> exists|j: int|
                        0 <= j < i && pre[j] == #[trigger] kept@[k],
                forall|e: PeerEntry|
                    #[trigger] kept@.contains(e) ==> pre.contains(e) && now <= e.last_seen
                        + ttl,
                forall|k: int|
                    0 <= k < i && now <= (#[trigger] pre[k]).last_seen + ttl ==> kept@.contains(
                        pre[k],
                    ),
                forall|k1: int, k2: int|
                    0 <= k1 < kept@.len() && 0 <= k2 < kept@.len() && k1 != k2 ==> (
                    #[trigger] kept@[k1]).state.id != (#[trigger] kept@[k2]).state.id,
            decreases self.state_list@.len() - i,
        {
            let e = self.state_list[i];
            let keep = {
                let deadline = e.last_seen.checked_add(ttl);
                match deadline {
                    Some(d) => now <= d,
                    None => true,
                }
            };
            let ghost prev_kept = kept@;
            if keep {
                proof {
                    assert(now <= e.last_seen + ttl);
                    assert(pre.contains(e)) by {
                        assert(pre[i as int] == e);
                    }
                    assert forall|k1: int|
                        0 <= k1 < kept@.len() implies (#[trigger] kept@[k1]).state.id
                        != e.state.id by {
                        let j = choose|j: int| 0 <= j < i && pre[j] == kept@[k1];
                        assert(pre[j].state.id != pre[i as int].state.id);
                    }
                }
                kept.push(e);
                proof {
                    assert(kept@ == prev_kept.push(e));
                    assert forall|k: int|
                        0 <= k < kept@.len() implies exists|j: int|
                        0 <= j < i + 1 && pre[j] == #[trigger] kept@[k] by {
                        if k < kept@.len() - 1 {
                            assert(kept@[k] == prev_kept[k]);
                        } else {
                            assert(pre[i as int] == kept@[k]);
                        }
                    }
                    assert forall|e2: PeerEntry| #[trigger] kept@.contains(e2) implies
                        pre.contains(e2) && now <= e2.last_seen + ttl by {
                        if e2 != e {
                            assert(prev_kept.contains(e2));
                        }
                    }
                    assert forall|k: int|
                        0 <= k < i + 1 && now <= (#[trigger] pre[k]).last_seen
                            + ttl implies kept@.contains(pre[k]) by {
                        if k < i {
                            assert(prev_kept.contains(pre[k]));
                            let q = choose|q: int|
                                0 <= q < prev_kept.len() && prev_kept[q] == pre[k];
                            assert(kept@[q] == pre[k]);
                            assert(kept@.contains(pre[k]));
                        } else {
                            assert(kept@[kept@.len() - 1] == e);
                            assert(kept@.contains(e));
                        }
                    }
                }
            } else {
                proof {
                    assert(!(now <= e.last_seen + ttl));
                    assert forall|k: int|
                        0 <= k < i + 1 && now <= (#[trigger] pre[k]).last_seen
                            + ttl implies kept@.contains(pre[k]) by {
                        assert(k < i);
                    }
                }
            }
            i = i + 1;
        }
        self.state_list = kept;
        proof {
            assert forall|e: PeerEntry|
                #[trigger] self.state_list@.contains(e) <==> (pre.contains(e) && now
                    <= e.last_seen + ttl) by {
                if pre.contains(e) && now <= e.last_seen + ttl {
                    let k = choose|k: int| 0 <= k < pre.len() && pre[k] == e;
                    assert(self.state_list@.contains(pre[k]));
                }
            }
        }
    }

    /// Derives this node's role and master from the peer table, by the
    /// election rules.
    pub fn determine_role(&self) -> (r: (Role, Option<u8>))
        ensures
            role_outcome(self.id, self.peers(), r.0, r.1),
    {
        let mut found_master: bool = false;
        let mut found_backup: bool = false;
        let mut min_master: u8 = 0;
        let mut i: usize = 0;
        while i < self.state_list.len()
            invariant
                i <= self.state_list@.len(),
                found_master <==> (exists|k: int|
                    0 <= k < i && (#[trigger] self.state_list@[k]).state.id != self.id
                        && self.state_list@[k].state.role is Master),
                found_backup <==> (exists|k: int|
                    0 <= k < i && (#[trigger] self.state_list@[k]).state.id != self.id
                        && self.state_list@[k].state.role is MasterBackup),
                found_master ==> (exists|k: int|
                    0 <= k < i && (#[trigger] self.state_list@[k]).state.id != self.id
                        && self.state_list@[k].state.role is Master
                        && self.state_list@[k].state.id == min_master),
                found_master ==> (forall|k: int|
                    0 <= k < i && (#[trigger] self.state_list@[k]).state.id != self.id
                        && self.state_list@[k].state.role is Master
                        ==> self.state_list@[k].state.id >= min_master),
            decreases self.state_list@.len() - i,
        {
            let e = self.state_list[i];
            if e.state.id != self.id {
                if matches!(e.state.role, Role::Master) {
                    if !found_master || e.state.id < min_master {
                        min_master = e.state.id;
                    }
                    found_master = true;
                }
                if matches!(e.state.role, Role::MasterBackup) {
                    found_backup = true;
                }
            }
            i = i + 1;
        }
        if !found_master {
            (Role::Master, Some(self.id))
        } else if !found_backup {
            (Role::MasterBackup, Some(min_master))
        } else {
            (Role::Slave, Some(min_master))
        }
    }

    /// Recomputes this node's role and master from the peer table and
    /// records them.
    pub fn update_role(&mut self)
        requires
            old(self).wf(),
        ensures
            final(self).wf(),
            final(self).id == old(self).id,
            final(self).peers() == old(self).peers(),
            role_outcome(old(self).id, old(self).peers(), final(self).role, final(self).my_master),
    {
        let (role, my_master) = self.determine_role();
        self.role = role;
        self.my_master = my_master;
    }

    /// The placeholder status a node reports before its elevator has
    /// produced one.
    pub fn fetch_status() -> (r: Status)
        ensures
            r.last_floor == 0,
            r.direction is Stop,
            !r.errors,
            !r.obstructions,
            r.target_floor is None,
    {
        Status {
            last_floor: 0,
            direction: crate::types::MotorDirection::Stop,
            errors: false,
            obstructions: false,
            target_floor: None,
        }
    }
}

/// For two connected nodes whose broadcast roles have settled — each
/// node's table holds the other's state, and each node's role is what
/// the election rules derive from its table — exactly one of the two is
/// master, and the other is its backup and directs hall calls to it.
pub proof fn lemma_two_node_election(
    a_id: u8,
    b_id: u8,
    ra: Role,
    ma: Option<u8>,
    rb: Role,
    mb: Option<u8>,
    a_peers: Seq<PeerEntry>,
    b_peers: Seq<PeerEntry>,
)
    requires
        a_id != b_id,
        a_peers.len() == 1,
        a_peers[0].state.id == b_id,
        a_peers[0].state.role == rb,
        b_peers.len() == 1,
        b_peers[0].state.id == a_id,
        b_peers[0].state.role == ra,
        role_outcome(a_id, a_peers, ra, ma),
        role_outcome(b_id, b_peers, rb, mb),
    ensures
        (ra is Master) <==> !(rb is Master),
        ra is Master ==> rb is MasterBackup && mb == Some(a_id) && ma == Some(a_id),
        rb is Master ==> ra is MasterBackup && ma == Some(b_id) && mb == Some(b_id),
{
    if !has_other_master(a_id, a_peers) {
        assert(ra is Master);
        assert(has_other_master(b_id, b_peers)) by {
            assert(b_peers[0].state.id != b_id && b_peers[0].state.role is Master);
        }
        assert(!has_other_backup(b_id, b_peers)) by {
            if has_other_backup(b_id, b_peers) {
                let k = choose|k: int|
                    0 <= k < b_peers.len() && (#[trigger] b_peers[k]).state.id != b_id
                        && b_peers[k].state.role is MasterBackup;
                assert(k == 0);
                assert(false);
            }
        }
        assert(rb is MasterBackup);
        assert(mb matches Some(mm) && is_min_master_id(b_id, b_peers, mm));
        let mm = mb->0;
        assert(is_min_master_id(b_id, b_peers, mm));
        let k = choose|k: int|
            0 <= k < b_peers.len() && (#[trigger] b_peers[k]).state.id != b_id
                && b_peers[k].state.role is Master && b_peers[k].state.id == mm;
        assert(k == 0);
        assert(mm == a_id);
        assert(rb !is Master) by {
            assert(a_peers[0].state.role == rb);
            if rb is Master {
                assert(a_peers[0].state.id != a_id && a_peers[0].state.role is Master);
                assert(has_other_master(a_id, a_peers));
            }
        }
    } else {
        let k = choose|k: int|
            0 <= k < a_peers.len() && (#[trigger] a_peers[k]).state.id != a_id
                && a_peers[k].state.role is Master;
        assert(k == 0);
        assert(rb is Master);
        assert(!has_other_master(b_id, b_peers)) by {
            if has_other_master(b_id, b_peers) {
                let q = choose|q: int|
                    0 <= q < b_peers.len() && (#[trigger] b_peers[q]).state.id != b_id
                        && b_peers[q].state.role is Master;
                assert(q == 0);
                assert(ra is Master);
                assert(role_outcome(a_id, a_peers, ra, ma));
                assert(has_other_master(a_id, a_peers));
                assert(ra !is Master);
                assert(false);
            }
        }
        assert(mb == Some(b_id));
        assert(!has_other_backup(a_id, a_peers)) by {
            if has_other_backup(a_id, a_peers) {
                let q = choose|q: int|
                    0 <= q < a_peers.len() && (#[trigger] a_peers[q]).state.id != a_id
                        && a_peers[q].state.role is MasterBackup;
                assert(q == 0);
                assert(false);
            }
        }
        assert(ra is MasterBackup);
        assert(ma matches Some(mm) && is_min_master_id(a_id, a_peers, mm));
        let mm = ma->0;
        let q = choose|q: int|
            0 <= q < a_peers.len() && (#[trigger] a_peers[q]).state.id != a_id
                && a_peers[q].state.role is Master && a_peers[q].state.id == mm;
        assert(q == 0);
        assert(mm == b_id);
    }
}

} // verus!
