//! Communication-efficient reliable broadcast: the dealer sends each replica
//! one erasure-coded shard with its Merkle proof; echoes and readies are
//! counted per Merkle root, and delivery rebuilds the payload from `f + 1`
//! verified shards and checks that it yields the same root.
use vstd::prelude::*;
use crate::bracha::Status;
use crate::erasure::{get_shards, reconstruct_payload, shards_of, opt_view, present, agrees};
use crate::merkle::{Proof, construct_merkle_tree, verify_proof, sha256, root_of, leaf_hashes, views};
use crate::quorum::Params;
use crate::table::Table;
use crate::votes::{Votes, same_bytes};

verus! {

/// A shard, the proof that authenticates it, and the replica that sent it.
#[derive(Clone, Debug)]
pub struct CTRBCMsg {
    pub shard: Vec<u8>,
    pub mp: Proof,
    pub origin: usize,
}

impl CTRBCMsg {
    /// The proof checks out for the shard, for a tree of `n` leaves.
    pub open spec fn verified(self, n: nat) -> bool {
        &&& self.mp.leaf@ == sha256(self.shard@)
        &&& self.mp.valid()
        &&& self.mp.width == n
        &&& self.mp.index < n
    }

    /// The same message, byte for byte.
    pub fn copy(&self) -> (r: CTRBCMsg)
        ensures
            r.same(*self),
    {
        CTRBCMsg { shard: self.shard.clone(), mp: self.mp.copy(), origin: self.origin }
    }

    pub open spec fn same(self, other: CTRBCMsg) -> bool {
        &&& self.shard@ == other.shard@
        &&& self.mp.same(other.mp)
        &&& self.origin == other.origin
    }

    /// Checks the shard against its proof, for a tree of `n` leaves.
    pub fn verify_mr_proof(&self, n: usize) -> (r: bool)
        ensures
            r == self.verified(n as nat),
    {
        self.mp.width == n && self.mp.index < n && verify_proof(&self.mp, self.shard.as_slice())
    }
}

/// A READY names the root it stands for.
#[derive(Clone, Debug)]
pub struct ReadyMsg {
    pub root: Vec<u8>,
    pub origin: usize,
}

#[derive(Clone, Debug)]
pub enum ProtMsg {
    Init(CTRBCMsg, usize),
    Echo(CTRBCMsg, usize),
    Ready(ReadyMsg, usize),
}

/// Where a message goes: to every other replica, or to one.
#[derive(Clone, Copy, Debug, PartialEq, Eq, Structural)]
pub enum Dest {
    All,
    One(usize),
}

/// A shard of `len` zero bytes.
pub open spec fn zero_shard(len: nat) -> Seq<u8> {
    Seq::new(len, |x: int| 0u8)
}

/// The root of the tree over `n` zero shards of `len` bytes, which a
/// byzantine replica sends in place of the true one.
pub open spec fn zero_root(n: nat, len: nat) -> Seq<u8> {
    root_of(leaf_hashes(Seq::new(n, |i: int| zero_shard(len))))
}

/// Some READY for `root` from `me` in instance `id` sits at position `i`.
pub open spec fn ready_at(out: Seq<(Dest, ProtMsg)>, i: int, root: Seq<u8>, me: usize, id: usize) -> bool {
    &&& out[i].0 == Dest::All
    &&& out[i].1 matches ProtMsg::Ready(m, mid) && m.root@ == root && m.origin == me && mid == id
}

/// `new` is `old` followed by one READY for `root` from `me` in instance
/// `id`, to every other replica.
pub open spec fn readied(old: Seq<(Dest, ProtMsg)>, new: Seq<(Dest, ProtMsg)>, root: Seq<u8>, me: usize, id: usize) -> bool {
    &&& new.len() == old.len() + 1
    &&& forall|i: int| 0 <= i < old.len() ==> #[trigger] new[i] == old[i]
    &&& new.last().0 == Dest::All
    &&& new.last().1 matches ProtMsg::Ready(m, mid) && m.root@ == root && m.origin == me && mid == id
}

/// The erasure code of a system: `f + 1` data shards, the rest parity.
pub open spec fn data_count(prm: Params) -> nat {
    (prm.f + 1) as nat
}

pub open spec fn parity_count(prm: Params) -> nat {
    (prm.n - prm.f - 1) as nat
}

/// The root of the tree over the shards of payload `d`.
pub open spec fn root_of_payload(prm: Params, d: Seq<u8>) -> Seq<u8> {
    root_of(leaf_hashes(shards_of(d, data_count(prm), parity_count(prm))))
}

/// The system can run this variant: Reed-Solomon over GF(2^8) needs a
/// parity shard and at most 256 shards.
pub open spec fn ct_wf(prm: Params) -> bool {
    &&& prm.wf()
    &&& prm.n >= 2
    &&& prm.n <= 256
}

/// Some shard kept under `root` sits at index `i`.
pub open spec fn has_index(shards: Seq<CTRBCMsg>, root: Seq<u8>, i: nat) -> bool {
    exists|j: int| 0 <= j < shards.len() && #[trigger] shards[j].mp.root@ == root && shards[j].mp.index == i
}

/// How many of the indices `0..m` hold a shard kept under `root`.
pub open spec fn count_indices(shards: Seq<CTRBCMsg>, root: Seq<u8>, m: nat) -> nat
    decreases m,
{
    if m == 0 {
        0
    } else {
        count_indices(shards, root, (m - 1) as nat) + if has_index(shards, root, (m - 1) as nat) { 1nat } else { 0nat }
    }
}

/// Every shard kept under `root` is the shard of `code` at its index.
pub open spec fn genuine(shards: Seq<CTRBCMsg>, root: Seq<u8>, code: Seq<Seq<u8>>) -> bool {
    forall|j: int| 0 <= j < shards.len() && #[trigger] shards[j].mp.root@ == root ==> shards[j].shard@ == code[shards[j].mp.index as int]
}

/// Delivery of `d` under `root` is owed: `d`'s tree has that root, the
/// shards kept under it are `d`'s, and `f + 1` indices are covered.
pub open spec fn rebuildable(prm: Params, shards: Seq<CTRBCMsg>, root: Seq<u8>, d: Seq<u8>) -> bool {
    &&& root_of_payload(prm, d) == root
    &&& genuine(shards, root, shards_of(d, data_count(prm), parity_count(prm)))
    &&& count_indices(shards, root, prm.n as nat) >= prm.f + 1
    &&& shards_of(d, data_count(prm), parity_count(prm)).len() == prm.n
    &&& d.len() + prm.n + 1 <= usize::MAX
}

/// Delivery under `root` came only with `f + 1` shard indices covered, and
/// the instance was abandoned only when, with as many, no payload's shards
/// rebuild `root`.
pub open spec fn waited(prm: Params, before: CtState, after: CtState, root: Seq<u8>) -> bool {
    &&& before.delivered is None && after.delivered is Some ==> count_indices(after.shards@, root, prm.n as nat) >= prm.f + 1
    &&& !before.abandoned && after.abandoned ==> count_indices(after.shards@, root, prm.n as nat) >= prm.f + 1
        && after.readies.voters(root).len() >= prm.quorum_spec()
        && forall|d: Seq<u8>| !#[trigger] rebuildable(prm, after.shards@, root, d)
}

/// The state of one instance at one replica.
pub struct CtState {
    pub status: Status,
    pub echoes: Votes,
    pub readies: Votes,
    /// Echoed shards whose proofs verified, first come first kept.
    pub shards: Vec<CTRBCMsg>,
    pub terminated_root: Option<Vec<u8>>,
    pub delivered: Option<Vec<u8>>,
    /// A rebuilt payload did not give the root back: more than `f` faults.
    pub abandoned: bool,
}

impl CtState {
    pub open spec fn delivered_view(self) -> Option<Seq<u8>> {
        opt_view(self.delivered)
    }

    pub open spec fn wf(self, prm: Params) -> bool {
        &&& ct_wf(prm)
        &&& self.echoes.wf()
        &&& self.readies.wf()
        &&& self.echoes.senders_below(prm.n as nat)
        &&& self.readies.senders_below(prm.n as nat)
        &&& forall|i: int| 0 <= i < self.shards.len() ==> (#[trigger] self.shards@[i]).verified(prm.n as nat)
        &&& (self.status == Status::Terminated <==> (self.delivered is Some || self.abandoned))
        &&& self.delivered is Some ==> !self.abandoned
        &&& self.delivered is Some ==> self.delivered_sound(prm)
    }

    /// A delivered payload has `n - f` readies for a root, and its own
    /// shards build exactly that root.
    pub open spec fn delivered_sound(self, prm: Params) -> bool {
        &&& self.terminated_root is Some
        &&& self.readies.voters(self.terminated_root->Some_0@).len() >= prm.quorum_spec()
        &&& root_of_payload(prm, self.delivered->Some_0@) == self.terminated_root->Some_0@
    }

    pub open spec fn advances_to(self, next: CtState) -> bool {
        &&& self.status.rank() <= next.status.rank()
        &&& self.delivered is Some ==> next.delivered_view() == self.delivered_view()
    }

    pub fn new() -> (r: CtState)
        ensures
            r.status == Status::Waiting,
            r.delivered is None,
            r.shards@.len() == 0,
            forall|p: Seq<u8>| #[trigger] r.echoes.voters(p) == Seq::<usize>::empty(),
            forall|p: Seq<u8>| #[trigger] r.readies.voters(p) == Seq::<usize>::empty(),
            forall|prm: Params| ct_wf(prm) ==> #[trigger] r.wf(prm),
    {
        let r = CtState {
            status: Status::Waiting,
            echoes: Votes::new(),
            readies: Votes::new(),
            shards: Vec::new(),
            terminated_root: None,
            delivered: None,
            abandoned: false,
        };
        proof {
            assert forall|prm: Params| ct_wf(prm) implies #[trigger] r.wf(prm) by {
                assert(r.echoes.senders_below(prm.n as nat));
                assert(r.readies.senders_below(prm.n as nat));
            }
        }
        r
    }

    /// The verified shards kept under `root`, slot by proof index.
    fn slots_for(&self, prm: &Params, root: &Vec<u8>) -> (r: Vec<Option<Vec<u8>>>)
        requires
            self.wf(*prm),
        ensures
            r@.len() == prm.n,
            forall|i: int| 0 <= i < prm.n ==> (#[trigger] r@[i] is Some <==> has_index(self.shards@, root@, i as nat)),
            forall|i: int| 0 <= i < prm.n && #[trigger] r@[i] is Some ==> exists|j: int|
                0 <= j < self.shards.len() && self.shards@[j].mp.root@ == root@ && self.shards@[j].mp.index == i
                && #[trigger] self.shards@[j].shard@ == r@[i]->Some_0@,
    {
        let mut r: Vec<Option<Vec<u8>>> = Vec::new();
        let mut i: usize = 0;
        while i < prm.n
            invariant
                r@.len() == i,
                i <= prm.n,
                forall|x: int| 0 <= x < i ==> #[trigger] r@[x] is None,
            decreases prm.n - i,
        {
            r.push(None);
            i = i + 1;
        }
        let mut j: usize = 0;
        while j < self.shards.len()
            invariant
                self.wf(*prm),
                r@.len() == prm.n,
                j <= self.shards.len(),
                forall|i: int| 0 <= i < prm.n ==> (#[trigger] r@[i] is Some <==> has_index(self.shards@.take(j as int), root@, i as nat)),
                forall|i: int| 0 <= i < prm.n && #[trigger] r@[i] is Some ==> exists|x: int|
                    0 <= x < j && self.shards@[x].mp.root@ == root@ && self.shards@[x].mp.index == i
                    && #[trigger] self.shards@[x].shard@ == r@[i]->Some_0@,
            decreases self.shards.len() - j,
        {
            let e = &self.shards[j];
            assert(e.verified(prm.n as nat));
            let idx = e.mp.index;
            let ghost before = r@;
            if same_bytes(&e.mp.root, root) && r[idx].is_none() {
                r.set(idx, Some(e.shard.clone()));
            }
            proof {
                let t1 = self.shards@.take(j + 1);
                let t0 = self.shards@.take(j as int);
                assert forall|i: int| 0 <= i < prm.n implies (#[trigger] r@[i] is Some <==> has_index(t1, root@, i as nat)) by {
                    if has_index(t0, root@, i as nat) {
                        let w = choose|w: int| 0 <= w < t0.len() && #[trigger] t0[w].mp.root@ == root@ && t0[w].mp.index == i;
                        assert(t1[w] == t0[w]);
                    }
                    if has_index(t1, root@, i as nat) && !has_index(t0, root@, i as nat) {
                        let w = choose|w: int| 0 <= w < t1.len() && #[trigger] t1[w].mp.root@ == root@ && t1[w].mp.index == i;
                        if w < j {
                            assert(t0[w] == t1[w]);
                        }
                    }
                    if r@[i] is Some && i == idx && before[i] is None {
                        assert(t1[j as int] == self.shards@[j as int]);
                    }
                }
                assert forall|i: int| 0 <= i < prm.n && #[trigger] r@[i] is Some implies exists|x: int|
                    0 <= x < j + 1 && self.shards@[x].mp.root@ == root@ && self.shards@[x].mp.index == i
                    && #[trigger] self.shards@[x].shard@ == r@[i]->Some_0@ by {
                    if before[i] is Some {
                        assert(r@[i] == before[i]);
                    } else {
                        assert(self.shards@[j as int].shard@ == r@[i]->Some_0@);
                    }
                }
            }
            j = j + 1;
        }
        assert(self.shards@.take(self.shards.len() as int) =~= self.shards@);
        r
    }

    /// Delivers under `root` once it has `n - f` readies and `f + 1` shards,
    /// if the payload rebuilt from them gives `root` back; abandons the
    /// instance if it does not.
    fn try_deliver(&mut self, prm: &Params, root: &Vec<u8>)
        requires
            old(self).wf(*prm),
        ensures
            final(self).wf(*prm),
            old(self).advances_to(*final(self)),
            final(self).echoes == old(self).echoes,
            final(self).readies == old(self).readies,
            final(self).shards == old(self).shards,
            old(self).delivered is None && final(self).delivered is Some ==> final(self).terminated_root is Some
                && final(self).terminated_root->Some_0@ == root@,
            old(self).status == Status::Terminated ==> final(self).status == old(self).status
                && final(self).delivered_view() == old(self).delivered_view(),
            old(self).readies.voters(root@).len() < prm.quorum_spec() ==> final(self).status == old(self).status
                && final(self).delivered_view() == old(self).delivered_view(),
            forall|d: Seq<u8>| old(self).status != Status::Terminated && old(self).readies.voters(root@).len() >= prm.quorum_spec()
                && #[trigger] rebuildable(*prm, old(self).shards@, root@, d) ==> final(self).delivered_view() == Some(d),
            waited(*prm, *old(self), *final(self), root@),
    {
        if self.status.stage() == 4 || self.readies.count(root) < prm.quorum() {
            return;
        }
        let slots = self.slots_for(prm, root);
        let mut have: usize = 0;
        let mut i: usize = 0;
        while i < slots.len()
            invariant
                i <= slots.len(),
                slots@.len() == prm.n,
                have <= i,
                have == present(slots@.take(i as int)),
                have == count_indices(self.shards@, root@, i as nat),
                forall|x: int| 0 <= x < prm.n ==> (#[trigger] slots@[x] is Some <==> has_index(self.shards@, root@, x as nat)),
            decreases slots.len() - i,
        {
            assert(slots@.take(i + 1).drop_last() =~= slots@.take(i as int));
            if slots[i].is_some() {
                have = have + 1;
            }
            i = i + 1;
        }
        assert(slots@.take(i as int) =~= slots@);
        let k = prm.f + 1;
        let parity = prm.n - prm.f - 1;
        proof {
            assert forall|d: Seq<u8>| #[trigger] rebuildable(*prm, self.shards@, root@, d) implies agrees(
                slots@,
                shards_of(d, k as nat, parity as nat),
            ) && present(slots@) >= k by {
                let code = shards_of(d, k as nat, parity as nat);
                assert forall|i: int| 0 <= i < slots@.len() && #[trigger] slots@[i] is Some implies slots@[i]->Some_0@ == code[i] by {
                    let j = choose|j: int|
                        0 <= j < self.shards.len() && self.shards@[j].mp.root@ == root@ && self.shards@[j].mp.index == i
                        && #[trigger] self.shards@[j].shard@ == slots@[i]->Some_0@;
                    assert(self.shards@[j].mp.root@ == root@);
                }
            }
        }
        if have < k {
            return;
        }
        let ghost slots_view = slots@;
        match reconstruct_payload(slots, k, parity) {
            None => {
                proof {
                    assert forall|d: Seq<u8>| #[trigger] rebuildable(*prm, self.shards@, root@, d) implies false by {
                        assert(agrees(slots_view, shards_of(d, k as nat, parity as nat)));
                    }
                }
            },
            Some(d) => {
                proof {
                    assert forall|d2: Seq<u8>| #[trigger] rebuildable(*prm, self.shards@, root@, d2) implies d@ == d2 by {
                        assert(agrees(slots_view, shards_of(d2, k as nat, parity as nat)));
                    }
                }
                if d.len() > usize::MAX - k - 1 {
                    return;
                }
                let shards = get_shards(d.clone(), k, parity);
                let tree = construct_merkle_tree(&shards);
                let rebuilt = tree.root();
                if same_bytes(&rebuilt, root) {
                    self.terminated_root = Some(root.clone());
                    self.delivered = Some(d);
                } else {
                    self.abandoned = true;
                }
                self.status = Status::Terminated;
            },
        }
    }

    /// Sends READY for `root` (at most once per instance) and counts it locally.
    fn send_ready(&mut self, prm: &Params, me: usize, id: usize, root: &Vec<u8>, out: &mut Vec<(Dest, ProtMsg)>)
        requires
            old(self).wf(*prm),
            old(self).status.rank() < 3,
            me < prm.n,
        ensures
            final(self).wf(*prm),
            old(self).advances_to(*final(self)),
            final(self).status.rank() >= 3,
            final(self).echoes == old(self).echoes,
            final(self).shards == old(self).shards,
            final(self).readies.voter_set(root@) == old(self).readies.voter_set(root@).insert(me),
            forall|q: Seq<u8>| q != root@ ==> #[trigger] final(self).readies.voters(q) == old(self).readies.voters(q),
            forall|d: Seq<u8>| final(self).readies.voters(root@).len() >= prm.quorum_spec()
                && #[trigger] rebuildable(*prm, old(self).shards@, root@, d) ==> final(self).delivered_view() == Some(d),
            waited(*prm, *old(self), *final(self), root@),
            final(out)@.len() == old(out)@.len() + 1,
            final(out)@.len() >= old(out)@.len(),
            forall|i: int| 0 <= i < old(out)@.len() ==> #[trigger] final(out)@[i] == old(out)@[i],
            final(out)@.last().0 == Dest::All,
            final(out)@.last().1 matches ProtMsg::Ready(m, mid) && m.root@ == root@ && m.origin == me && mid == id,
    {
        self.status = Status::ReadySent;
        out.push((Dest::All, ProtMsg::Ready(ReadyMsg { root: root.clone(), origin: me }, id)));
        let _ = self.readies.add(me, root);
        proof {
            self.readies.lemma_voters_below(root@, prm.n as nat);
        }
        self.try_deliver(prm, root);
    }

    /// An ECHO from `sender`: dropped unless its proof verifies; otherwise
    /// counted under its root and its shard kept. At `n - f` echoes for a
    /// root this replica sends READY for it.
    pub fn handle_echo(&mut self, prm: &Params, me: usize, id: usize, sender: usize, msg: &CTRBCMsg, out: &mut Vec<(Dest, ProtMsg)>)
        requires
            old(self).wf(*prm),
            me < prm.n,
            sender < prm.n,
        ensures
            final(self).wf(*prm),
            old(self).advances_to(*final(self)),
            final(out)@.len() >= old(out)@.len(),
            forall|i: int| 0 <= i < old(out)@.len() ==> #[trigger] final(out)@[i] == old(out)@[i],
            !msg.verified(prm.n as nat) ==> *final(self) == *old(self) && final(out)@ == old(out)@,
            msg.verified(prm.n as nat) ==> final(self).echoes.voter_set(msg.mp.root@)
                == old(self).echoes.voter_set(msg.mp.root@).insert(sender),
            old(self).echoes.voters(msg.mp.root@).contains(sender) ==> *final(self) == *old(self)
                && final(out)@ == old(out)@,
            msg.verified(prm.n as nat) && !old(self).echoes.voters(msg.mp.root@).contains(sender)
                && old(self).status.rank() < 3 && old(self).echoes.voters(msg.mp.root@).len() + 1
                >= prm.quorum_spec() ==> final(self).status.rank() >= 3
                && final(self).readies.voter_set(msg.mp.root@) == old(self).readies.voter_set(msg.mp.root@).insert(me)
                && readied(old(out)@, final(out)@, msg.mp.root@, me, id),
            !(msg.verified(prm.n as nat) && !old(self).echoes.voters(msg.mp.root@).contains(sender)
                && old(self).status.rank() < 3 && old(self).echoes.voters(msg.mp.root@).len() + 1
                >= prm.quorum_spec()) ==> final(out)@ == old(out)@,
            forall|d: Seq<u8>| msg.verified(prm.n as nat) && !old(self).echoes.voters(msg.mp.root@).contains(sender)
                && old(self).status != Status::Terminated && old(self).readies.voters(msg.mp.root@).len()
                >= prm.quorum_spec() && #[trigger] rebuildable(*prm, final(self).shards@, msg.mp.root@, d)
                ==> final(self).delivered_view() == Some(d),
            waited(*prm, *old(self), *final(self), msg.mp.root@),
    {
        if !msg.verify_mr_proof(prm.n) {
            return;
        }
        let root = &msg.mp.root;
        let fresh = self.echoes.add(sender, root);
        if !fresh {
            return;
        }
        proof {
            self.echoes.lemma_voters_below(root@, prm.n as nat);
        }
        self.shards.push(msg.copy());
        let ghost mid = *self;
        if self.status.stage() < 3 && self.echoes.count(root) >= prm.quorum() {
            self.send_ready(prm, me, id, root, out);
            proof {
                mid.readies.lemma_voter_count(root@);
                self.readies.lemma_voter_count(root@);
                vstd::set_lib::lemma_len_subset(mid.readies.voter_set(root@), self.readies.voter_set(root@));
            }
        } else {
            self.try_deliver(prm, root);
        }
        proof {
            assert(self.shards@ == mid.shards@);
        }
    }

    /// A READY for `msg.root` from `sender`. At `f + 1` readies for a root a
    /// replica that has not sent READY sends it; at `n - f` it tries to deliver.
    pub fn handle_ready(&mut self, prm: &Params, me: usize, id: usize, sender: usize, msg: &ReadyMsg, out: &mut Vec<(Dest, ProtMsg)>)
        requires
            old(self).wf(*prm),
            me < prm.n,
            sender < prm.n,
        ensures
            final(self).wf(*prm),
            old(self).advances_to(*final(self)),
            final(out)@.len() >= old(out)@.len(),
            forall|i: int| 0 <= i < old(out)@.len() ==> #[trigger] final(out)@[i] == old(out)@[i],
            final(self).readies.voter_set(msg.root@).contains(sender),
            old(self).readies.voters(msg.root@).contains(sender) ==> *final(self) == *old(self)
                && final(out)@ == old(out)@,
            !old(self).readies.voters(msg.root@).contains(sender) && old(self).status.rank() < 3
                && old(self).readies.voters(msg.root@).len() + 1 >= prm.weak_spec() ==> final(self).status.rank() >= 3
                && final(self).readies.voter_set(msg.root@).contains(me)
                && readied(old(out)@, final(out)@, msg.root@, me, id),
            !(!old(self).readies.voters(msg.root@).contains(sender) && old(self).status.rank() < 3
                && old(self).readies.voters(msg.root@).len() + 1 >= prm.weak_spec()) ==> final(out)@ == old(out)@,
            forall|d: Seq<u8>| old(self).status != Status::Terminated && !old(self).readies.voters(msg.root@).contains(sender)
                && final(self).readies.voters(msg.root@).len()
                >= prm.quorum_spec() && #[trigger] rebuildable(*prm, old(self).shards@, msg.root@, d)
                ==> final(self).delivered_view() == Some(d),
            waited(*prm, *old(self), *final(self), msg.root@),
    {
        let root = &msg.root;
        let fresh = self.readies.add(sender, root);
        if !fresh {
            return;
        }
        proof {
            self.readies.lemma_voters_below(root@, prm.n as nat);
        }
        let ghost mid = *self;
        if self.status.stage() < 3 && self.readies.count(root) >= prm.weak() {
            self.send_ready(prm, me, id, root, out);
        } else {
            self.try_deliver(prm, root);
        }
        proof {
            assert(mid.shards@ == old(self).shards@);
            assert forall|d: Seq<u8>| old(self).status != Status::Terminated && self.readies.voters(root@).len()
                >= prm.quorum_spec() && #[trigger] rebuildable(*prm, old(self).shards@, root@, d)
                implies self.delivered_view() == Some(d) by {
                assert(rebuildable(*prm, mid.shards@, root@, d));
            }
        }
    }

    /// The ECHO that a byzantine replica sends in place of `msg`: a zero shard
    /// of the same length, with a proof in the tree over `n` zero shards.
    fn zero_echo(prm: &Params, me: usize, msg: &CTRBCMsg) -> (r: Option<CTRBCMsg>)
        requires
            ct_wf(*prm),
        ensures
            r is Some <==> msg.origin < prm.n,
            r matches Some(e) ==> e.verified(prm.n as nat) && e.origin == me && e.shard@ == zero_shard(msg.shard@.len())
                && e.mp.index == msg.origin && e.mp.root@ == zero_root(prm.n as nat, msg.shard@.len()),
    {
        if msg.origin >= prm.n {
            return None;
        }
        let mut zeros: Vec<Vec<u8>> = Vec::new();
        let mut i: usize = 0;
        while i < prm.n
            invariant
                i <= prm.n,
                zeros.len() == i,
                forall|j: int| 0 <= j < i ==> #[trigger] zeros@[j]@ == zero_shard(msg.shard@.len()),
            decreases prm.n - i,
        {
            let z = vec![0u8; msg.shard.len()];
            assert(z@ =~= zero_shard(msg.shard@.len()));
            zeros.push(z);
            i = i + 1;
        }
        assert(views(zeros@) =~= Seq::new(prm.n as nat, |i: int| zero_shard(msg.shard@.len())));
        let tree = construct_merkle_tree(&zeros);
        let mp = tree.gen_proof(msg.origin);
        let shard = zeros[msg.origin].clone();
        Some(CTRBCMsg { shard, mp, origin: me })
    }

    /// An INIT: dropped unless its proof verifies. A crashed replica stops
    /// there; otherwise, unless it has echoed already, the replica echoes the
    /// shard and proof it received (zeroed when it is byzantine).
    pub fn handle_init(&mut self, prm: &Params, me: usize, id: usize, byz: bool, crash: bool, msg: &CTRBCMsg, out: &mut Vec<(Dest, ProtMsg)>)
        requires
            old(self).wf(*prm),
            me < prm.n,
        ensures
            final(self).wf(*prm),
            old(self).advances_to(*final(self)),
            final(out)@.len() >= old(out)@.len(),
            forall|i: int| 0 <= i < old(out)@.len() ==> #[trigger] final(out)@[i] == old(out)@[i],
            !msg.verified(prm.n as nat) || crash || old(self).status.rank() >= 2 ==> *final(self) == *old(self)
                && final(out)@ == old(out)@,
            msg.verified(prm.n as nat) && !crash && old(self).status.rank() < 2 && !byz ==> {
                &&& final(self).status.rank() >= 2
                &&& final(self).echoes.voter_set(msg.mp.root@).contains(me)
                &&& final(out)@.len() > old(out)@.len()
                &&& final(out)@.last().0 == Dest::All
                &&& final(out)@.last().1 matches ProtMsg::Echo(e, eid) && eid == id && e.origin == me
                    && e.shard@ == msg.shard@ && e.mp.same(msg.mp)
                &&& if !old(self).echoes.voters(msg.mp.root@).contains(me)
                    && old(self).echoes.voters(msg.mp.root@).len() + 1 >= prm.quorum_spec() {
                    final(out)@.len() == old(out)@.len() + 2 && ready_at(final(out)@, old(out)@.len() as int, msg.mp.root@, me, id)
                } else {
                    final(out)@.len() == old(out)@.len() + 1
                }
            },
            msg.verified(prm.n as nat) && byz && msg.origin >= prm.n ==> *final(self) == *old(self)
                && final(out)@ == old(out)@,
            msg.verified(prm.n as nat) && !crash && old(self).status.rank() < 2 && byz && msg.origin < prm.n ==> {
                &&& final(self).status.rank() >= 2
                &&& final(out)@.len() > old(out)@.len()
                &&& final(out)@.last().0 == Dest::All
                &&& final(out)@.last().1 matches ProtMsg::Echo(e, eid) && eid == id && e.origin == me
                    && e.shard@ == zero_shard(msg.shard@.len()) && e.mp.root@ == zero_root(prm.n as nat, msg.shard@.len())
                    && e.mp.index == msg.origin && e.verified(prm.n as nat)
            },
    {
        if !msg.verify_mr_proof(prm.n) {
            return;
        }
        let echo = if byz {
            match Self::zero_echo(prm, me, msg) {
                Some(e) => e,
                None => {
                    return;
                },
            }
        } else {
            CTRBCMsg { shard: msg.shard.clone(), mp: msg.mp.copy(), origin: me }
        };
        if crash || self.status.stage() >= 2 {
            return;
        }
        self.status = Status::EchoSent;
        self.handle_echo(prm, me, id, me, &echo, out);
        out.push((Dest::All, ProtMsg::Echo(echo, id)));
    }
}


/// The instance id that a protocol message carries.
pub open spec fn ct_instance_of(m: ProtMsg) -> usize {
    match m {
        ProtMsg::Init(_, id) => id,
        ProtMsg::Echo(_, id) => id,
        ProtMsg::Ready(_, id) => id,
    }
}

/// The `j`-th replica other than `me`.
pub open spec fn peer_at(me: nat, j: nat) -> nat {
    if j < me { j } else { j + 1 }
}

/// An INIT that the dealer `me` sends for instance `id` to `peer`: its proof
/// verifies at the peer's index, and an honest dealer sends the peer's shard
/// of `payload` under the root of the payload's tree.
pub open spec fn init_for(prm: Params, me: usize, id: usize, byz: bool, payload: Seq<u8>, peer: nat, o: (Dest, ProtMsg)) -> bool {
    &&& o.0 == Dest::One(peer as usize)
    &&& o.1 matches ProtMsg::Init(m, mid) && {
        &&& mid == id
        &&& m.origin == me
        &&& m.verified(prm.n as nat)
        &&& m.mp.index == peer
        &&& !byz ==> m.shard@ == shards_of(payload, data_count(prm), parity_count(prm))[peer as int]
            && m.mp.root@ == root_of_payload(prm, payload)
        &&& byz ==> m.shard@ == zero_shard(shards_of(payload, data_count(prm), parity_count(prm))[0].len())
            && m.mp.root@ == zero_root(prm.n as nat, shards_of(payload, data_count(prm), parity_count(prm))[0].len())
    }
}

/// A replica running the erasure-coded broadcast, with many instances.
pub struct Context {
    pub num_nodes: usize,
    pub myid: usize,
    pub num_faults: usize,
    pub inp_message: Vec<u8>,
    pub byz: bool,
    pub crash: bool,
    pub rbc_context: Table<CtState>,
    pub max_id: usize,
}

impl Context {
    pub open spec fn prm(self) -> Params {
        Params { n: self.num_nodes, f: self.num_faults }
    }

    pub open spec fn wf(self) -> bool {
        &&& ct_wf(self.prm())
        &&& self.myid < self.num_nodes
        &&& self.rbc_context.wf()
        &&& forall|id: usize| #[trigger] self.rbc_context.get(id) matches Some(s) ==> s.wf(self.prm())
    }

    pub open spec fn same_config(self, other: Context) -> bool {
        &&& self.num_nodes == other.num_nodes
        &&& self.num_faults == other.num_faults
        &&& self.myid == other.myid
        &&& self.byz == other.byz
        &&& self.crash == other.crash
        &&& self.max_id == other.max_id
        &&& self.inp_message == other.inp_message
    }

    pub open spec fn status_of(self, id: usize) -> Status {
        match self.rbc_context.get(id) {
            Some(s) => s.status,
            None => Status::Waiting,
        }
    }

    /// The echoes for `root` in instance `id` so far.
    pub open spec fn echoes_before(self, id: usize, root: Seq<u8>) -> Seq<usize> {
        match self.rbc_context.get(id) {
            Some(s) => s.echoes.voters(root),
            None => Seq::empty(),
        }
    }

    /// The readies for `root` in instance `id` so far.
    pub open spec fn readies_before(self, id: usize, root: Seq<u8>) -> Seq<usize> {
        match self.rbc_context.get(id) {
            Some(s) => s.readies.voters(root),
            None => Seq::empty(),
        }
    }

    /// What an INIT `m` for instance `id` does, going from `self` to `new`
    /// and from `old_out` to `new_out`: dropped on a bad proof or a crash;
    /// ignored once this replica has echoed; otherwise an ECHO of the shard
    /// (a zero shard under the zero-shard tree when byzantine) is broadcast
    /// last, after the READY that this replica's own echo may trigger.
    pub open spec fn init_effect(self, new: Context, id: usize, m: CTRBCMsg, old_out: Seq<(Dest, ProtMsg)>, new_out: Seq<(Dest, ProtMsg)>, r: Option<Vec<u8>>) -> bool {
        let n = self.num_nodes as nat;
        let me = self.myid;
        &&& !m.verified(n) || self.crash ==> new.rbc_context == self.rbc_context && new_out == old_out && r is None
        &&& self.status_of(id).rank() >= 2 ==> new.rbc_context.get(id) == self.rbc_context.get(id) && new_out == old_out
            && r is None
        &&& m.verified(n) && !self.crash && self.status_of(id).rank() < 2 && !self.byz ==> {
            &&& new.rbc_context.get(id) matches Some(s) && s.status.rank() >= 2 && s.echoes.voter_set(m.mp.root@).contains(me)
            &&& new_out.len() > old_out.len()
            &&& new_out.last().0 == Dest::All
            &&& new_out.last().1 matches ProtMsg::Echo(e, eid) && eid == id && e.origin == me
                && e.shard@ == m.shard@ && e.mp.same(m.mp)
            &&& if !self.echoes_before(id, m.mp.root@).contains(me)
                && self.echoes_before(id, m.mp.root@).len() + 1 >= self.prm().quorum_spec() {
                new_out.len() == old_out.len() + 2 && ready_at(new_out, old_out.len() as int, m.mp.root@, me, id)
            } else {
                new_out.len() == old_out.len() + 1
            }
        }
        &&& m.verified(n) && !self.crash && self.status_of(id).rank() < 2 && self.byz && m.origin < n ==> {
            &&& new.rbc_context.get(id) matches Some(s) && s.status.rank() >= 2
            &&& new_out.len() > old_out.len()
            &&& new_out.last().0 == Dest::All
            &&& new_out.last().1 matches ProtMsg::Echo(e, eid) && eid == id && e.origin == me
                && e.shard@ == zero_shard(m.shard@.len()) && e.mp.root@ == zero_root(n, m.shard@.len())
                && e.mp.index == m.origin && e.verified(n)
        }
    }

    /// The replica's context; `None` unless `3f + 1 <= n <= 256`, `n >= 2`
    /// and `myid < n`; the byzantine and crash test flags are kept as given.
    pub fn new(myid: usize, num_nodes: usize, num_faults: usize, message: Vec<u8>, byz: bool, crash: bool) -> (r: Option<Context>)
        ensures
            r is Some <==> (num_nodes >= 3 * (num_faults as int) + 1 && 2 <= num_nodes <= 256 && myid < num_nodes),
            r matches Some(c) ==> {
                &&& c.wf()
                &&& c.myid == myid && c.num_nodes == num_nodes && c.num_faults == num_faults
                &&& c.inp_message@ == message@
                &&& c.byz == byz
                &&& c.crash == crash
                &&& c.max_id == myid * crate::addrbc::RANGE
                &&& forall|id: usize| #[trigger] c.rbc_context.get(id) is None
            },
    {
        match Params::new(num_nodes, num_faults) {
            None => None,
            Some(_) => {
                if myid >= num_nodes || num_nodes < 2 || num_nodes > 256 {
                    return None;
                }
                Some(Context {
                    num_nodes,
                    myid,
                    num_faults,
                    inp_message: message,
                    byz,
                    crash,
                    rbc_context: Table::new(),
                    max_id: myid * crate::addrbc::RANGE,
                })
            },
        }
    }

    fn take_instance(&mut self, id: usize) -> (r: CtState)
        requires
            old(self).wf(),
        ensures
            final(self).rbc_context.wf(),
            final(self).rbc_context.get(id) is None,
            forall|j: usize| j != id ==> #[trigger] final(self).rbc_context.get(j) == old(self).rbc_context.get(j),
            final(self).same_config(*old(self)),
            r.wf(old(self).prm()),
            old(self).rbc_context.get(id) matches Some(s) ==> r == s,
            old(self).rbc_context.get(id) is None ==> r.status == Status::Waiting && r.delivered is None
                && r.shards@.len() == 0,
            old(self).rbc_context.get(id) is None ==> forall|p: Seq<u8>| #[trigger] r.echoes.voters(p) == Seq::<usize>::empty(),
            old(self).rbc_context.get(id) is None ==> forall|p: Seq<u8>| #[trigger] r.readies.voters(p) == Seq::<usize>::empty(),
    {
        match self.rbc_context.take(id) {
            Some(s) => s,
            None => CtState::new(),
        }
    }

    /// The dealer's path for instance `instance_id`, which must be waiting:
    /// code `msg` into `n` shards, build their Merkle tree, process its own
    /// INIT, then send every other replica its shard and proof. A byzantine
    /// dealer sends zero shards under the tree of zero shards instead.
    /// Returns the payload if this very step delivered it.
    pub fn start_init(&mut self, msg: Vec<u8>, instance_id: usize, out: &mut Vec<(Dest, ProtMsg)>) -> (r: Option<Vec<u8>>)
        requires
            old(self).wf(),
            old(self).status_of(instance_id) == Status::Waiting,
            msg.len() + old(self).num_nodes + 1 <= usize::MAX,
        ensures
            final(self).wf(),
            final(self).same_config(*old(self)),
            forall|j: usize| j != instance_id ==> #[trigger] final(self).rbc_context.get(j) == old(self).rbc_context.get(j),
            final(self).rbc_context.get(instance_id) is Some,
            !old(self).crash ==> final(self).rbc_context.get(instance_id)->Some_0.status.rank() >= 2,
            !old(self).crash && !old(self).byz ==> final(self).rbc_context.get(instance_id)->Some_0.echoes.voter_set(
                root_of_payload(old(self).prm(), msg@),
            ).contains(old(self).myid),
            r matches Some(d) ==> final(self).rbc_context.get(instance_id)->Some_0.delivered_view() == Some(d@),
            final(out)@.len() >= old(out)@.len() + old(self).num_nodes - 1,
            forall|i: int| 0 <= i < old(out)@.len() ==> #[trigger] final(out)@[i] == old(out)@[i],
            forall|j: int| 0 <= j < old(self).num_nodes - 1 ==> init_for(
                old(self).prm(),
                old(self).myid,
                instance_id,
                old(self).byz,
                msg@,
                peer_at(old(self).myid as nat, j as nat),
                #[trigger] final(out)@[final(out)@.len() - (old(self).num_nodes - 1) + j],
            ),
    {
        let prm = Params { n: self.num_nodes, f: self.num_faults };
        let n = self.num_nodes;
        let me = self.myid;
        let k = self.num_faults + 1;
        let parity = self.num_nodes - self.num_faults - 1;
        let ghost payload = msg@;
        let shards = get_shards(msg, k, parity);
        let tree = construct_merkle_tree(&shards);
        let mut zeros: Vec<Vec<u8>> = Vec::new();
        let mut i: usize = 0;
        while i < n
            invariant
                i <= n,
                zeros.len() == i,
                shards@.len() == n,
                n >= 2,
                forall|j: int| 0 <= j < i ==> #[trigger] zeros@[j]@ == zero_shard(shards@[0]@.len()),
            decreases n - i,
        {
            let z = vec![0u8; shards[0].len()];
            assert(z@ =~= zero_shard(shards@[0]@.len()));
            zeros.push(z);
            i = i + 1;
        }
        assert(views(zeros@) =~= Seq::new(n as nat, |i: int| zero_shard(shards@[0]@.len())));
        let ztree = construct_merkle_tree(&zeros);
        let mut st = self.take_instance(instance_id);
        let own = CTRBCMsg { shard: shards[me].clone(), mp: tree.gen_proof(me), origin: me };
        st.handle_init(&prm, me, instance_id, self.byz, self.crash, &own, out);
        let r = match &st.delivered {
            Some(d) => Some(d.clone()),
            None => None,
        };
        self.rbc_context.put(instance_id, st);
        let ghost base = out@.len();
        let ghost mid = out@;
        let mut peer: usize = 0;
        while peer < n
            invariant
                n == prm.n,
                prm == self.prm(),
                ct_wf(prm),
                me == self.myid,
                me < n,
                peer <= n,
                mid.len() == base,
                tree.wf(),
                ztree.wf(),
                tree.leaves() == leaf_hashes(views(shards@)),
                ztree.leaves() == leaf_hashes(views(zeros@)),
                views(zeros@) == Seq::new(n as nat, |i: int| zero_shard(shards@[0]@.len())),
                views(shards@) == shards_of(payload, data_count(prm), parity_count(prm)),
                shards@.len() == n,
                zeros@.len() == n,
                out@.len() == base + peer - (if peer > me { 1int } else { 0int }),
                forall|i: int| 0 <= i < base ==> #[trigger] out@[i] == mid[i],
                forall|j: int| 0 <= j < out@.len() - base ==> init_for(
                    prm,
                    me,
                    instance_id,
                    self.byz,
                    payload,
                    peer_at(me as nat, j as nat),
                    #[trigger] out@[base + j],
                ),
            decreases n - peer,
        {
            if peer != me {
                let m = if self.byz {
                    CTRBCMsg { shard: zeros[peer].clone(), mp: ztree.gen_proof(peer), origin: me }
                } else {
                    CTRBCMsg { shard: shards[peer].clone(), mp: tree.gen_proof(peer), origin: me }
                };
                let ghost j = out@.len() - base;
                assert(peer_at(me as nat, j as nat) == peer);
                out.push((Dest::One(peer), ProtMsg::Init(m, instance_id)));
                proof {
                    assert forall|jj: int| 0 <= jj < out@.len() - base implies init_for(
                        prm,
                        me,
                        instance_id,
                        self.byz,
                        payload,
                        peer_at(me as nat, jj as nat),
                        #[trigger] out@[base + jj],
                    ) by {
                        if jj < j {
                            assert(out@[base + jj] == out@.drop_last()[base + jj]);
                        }
                    }
                }
            }
            peer = peer + 1;
        }
        r
    }

    /// An INIT for instance `instance_id`, as `CtState::handle_init` says.
    /// Returns the payload if this very step delivered it.
    pub fn handle_init(&mut self, msg: CTRBCMsg, instance_id: usize, out: &mut Vec<(Dest, ProtMsg)>) -> (r: Option<Vec<u8>>)
        requires
            old(self).wf(),
        ensures
            final(self).wf(),
            final(self).same_config(*old(self)),
            forall|j: usize| j != instance_id ==> #[trigger] final(self).rbc_context.get(j) == old(self).rbc_context.get(j),
            msg.verified(old(self).num_nodes as nat) && !old(self).crash ==> final(self).rbc_context.get(instance_id) is Some,
            forall|i: int| 0 <= i < old(out)@.len() ==> #[trigger] final(out)@[i] == old(out)@[i],
            old(self).rbc_context.get(instance_id) is Some ==> old(self).rbc_context.get(instance_id)->Some_0.advances_to(
                final(self).rbc_context.get(instance_id)->Some_0,
            ),
            old(self).init_effect(*final(self), instance_id, msg, old(out)@, final(out)@, r),
            r matches Some(d) ==> final(self).rbc_context.get(instance_id)->Some_0.delivered_view() == Some(d@)
                && (old(self).rbc_context.get(instance_id) is Some
                ==> old(self).rbc_context.get(instance_id)->Some_0.delivered is None),
            final(out)@.len() >= old(out)@.len(),
    {
        if !msg.verify_mr_proof(self.num_nodes) || self.crash {
            return None;
        }
        let prm = Params { n: self.num_nodes, f: self.num_faults };
        let ghost pre_self = *self;
        let mut st = self.take_instance(instance_id);
        let ghost pre = st;
        proof {
            assert(pre_self.echoes_before(instance_id, msg.mp.root@) == pre.echoes.voters(msg.mp.root@));
            assert(pre_self.status_of(instance_id) == pre.status);
        }
        let was = st.delivered.is_some();
        st.handle_init(&prm, self.myid, instance_id, self.byz, self.crash, &msg, out);
        let r = Self::delivered_now(was, &st);
        self.rbc_context.put(instance_id, st);
        proof {
            if pre_self.status_of(instance_id).rank() >= 2 {
                assert(pre_self.rbc_context.get(instance_id) == Some(pre));
            }
        }
        r
    }

    fn delivered_now(was: bool, after: &CtState) -> (r: Option<Vec<u8>>)
        ensures
            r matches Some(d) ==> !was && after.delivered_view() == Some(d@),
            r is None ==> was || after.delivered is None,
    {
        if was {
            return None;
        }
        match &after.delivered {
            Some(d) => Some(d.clone()),
            None => None,
        }
    }

    /// A protocol message from replica `sender`, whose MAC was checked.
    /// Messages from outside `0..n` are dropped. Returns the payload if this
    /// very message made the instance deliver.
    pub fn process_msg(&mut self, sender: usize, msg: ProtMsg, out: &mut Vec<(Dest, ProtMsg)>) -> (r: Option<Vec<u8>>)
        requires
            old(self).wf(),
        ensures
            final(self).wf(),
            final(self).same_config(*old(self)),
            forall|i: int| 0 <= i < old(out)@.len() ==> #[trigger] final(out)@[i] == old(out)@[i],
            sender >= old(self).num_nodes ==> r is None && final(out)@ == old(out)@
                && final(self).rbc_context == old(self).rbc_context,
            forall|j: usize| j != ct_instance_of(msg) ==> #[trigger] final(self).rbc_context.get(j) == old(self).rbc_context.get(j),
            sender < old(self).num_nodes ==> {
                let id = ct_instance_of(msg);
                let me = old(self).myid;
                let prm = old(self).prm();
                &&& msg matches ProtMsg::Init(m, _) ==> old(self).init_effect(*final(self), id, m, old(out)@, final(out)@, r)
                &&& msg matches ProtMsg::Echo(m, _) ==> {
                    let fire = m.verified(prm.n as nat) && !old(self).echoes_before(id, m.mp.root@).contains(sender)
                        && old(self).status_of(id).rank() < 3
                        && old(self).echoes_before(id, m.mp.root@).len() + 1 >= prm.quorum_spec();
                    &&& fire ==> readied(old(out)@, final(out)@, m.mp.root@, me, id)
                    &&& !fire ==> final(out)@ == old(out)@
                }
                &&& msg matches ProtMsg::Ready(m, _) ==> {
                    let amplify = !old(self).readies_before(id, m.root@).contains(sender) && old(self).status_of(id).rank() < 3
                        && old(self).readies_before(id, m.root@).len() + 1 >= prm.weak_spec();
                    &&& amplify ==> readied(old(out)@, final(out)@, m.root@, me, id)
                    &&& !amplify ==> final(out)@ == old(out)@
                }
            },
            sender < old(self).num_nodes && !(msg is Init) ==> (final(self).rbc_context.get(ct_instance_of(msg)) matches Some(s) && {
                let b = old(self).rbc_context.get(ct_instance_of(msg));
                &&& b is Some ==> b->Some_0.advances_to(s)
                &&& r matches Some(d) ==> s.delivered_view() == Some(d@) && (b is Some ==> b->Some_0.delivered is None)
                &&& msg matches ProtMsg::Echo(m, _) ==> {
                    &&& forall|d: Seq<u8>| b is Some && m.verified(old(self).num_nodes as nat)
                        && !b->Some_0.echoes.voters(m.mp.root@).contains(sender)
                        && b->Some_0.status != Status::Terminated
                        && b->Some_0.readies.voters(m.mp.root@).len() >= old(self).prm().quorum_spec()
                        && #[trigger] rebuildable(old(self).prm(), s.shards@, m.mp.root@, d)
                        ==> s.delivered_view() == Some(d)
                    &&& !m.verified(old(self).num_nodes as nat) ==> (b is Some ==> s == b->Some_0) && final(out)@ == old(out)@
                    &&& m.verified(old(self).num_nodes as nat) ==> s.echoes.voter_set(m.mp.root@).contains(sender)
                    &&& b is Some && b->Some_0.echoes.voters(m.mp.root@).contains(sender) ==> s == b->Some_0
                        && final(out)@ == old(out)@
                }
                &&& msg matches ProtMsg::Ready(m, _) ==> {
                    &&& forall|d: Seq<u8>| b is Some && b->Some_0.status != Status::Terminated
                        && !b->Some_0.readies.voters(m.root@).contains(sender)
                        && s.readies.voters(m.root@).len() >= old(self).prm().quorum_spec()
                        && #[trigger] rebuildable(old(self).prm(), b->Some_0.shards@, m.root@, d)
                        ==> s.delivered_view() == Some(d)
                    &&& s.readies.voter_set(m.root@).contains(sender)
                    &&& b is Some && b->Some_0.readies.voters(m.root@).contains(sender) ==> s == b->Some_0
                        && final(out)@ == old(out)@
                }
            }),
    {
        if sender >= self.num_nodes {
            return None;
        }
        let prm = Params { n: self.num_nodes, f: self.num_faults };
        let me = self.myid;
        match msg {
            ProtMsg::Init(m, id) => self.handle_init(m, id, out),
            ProtMsg::Echo(m, id) => {
                let ghost pre_self = *self;
                let mut st = self.take_instance(id);
                proof {
                    assert(pre_self.echoes_before(id, m.mp.root@) == st.echoes.voters(m.mp.root@));
                    assert(pre_self.status_of(id) == st.status);
                }
                let was = st.delivered.is_some();
                st.handle_echo(&prm, me, id, sender, &m, out);
                proof {
                    vstd::set::axiom_set_insert_same(st.echoes.voter_set(m.mp.root@), sender);
                }
                let r = Self::delivered_now(was, &st);
                self.rbc_context.put(id, st);
                r
            },
            ProtMsg::Ready(m, id) => {
                let ghost pre_self = *self;
                let mut st = self.take_instance(id);
                proof {
                    assert(pre_self.readies_before(id, m.root@) == st.readies.voters(m.root@));
                    assert(pre_self.status_of(id) == st.status);
                }
                let was = st.delivered.is_some();
                st.handle_ready(&prm, me, id, sender, &m, out);
                let r = Self::delivered_now(was, &st);
                self.rbc_context.put(id, st);
                r
            },
        }
    }

    /// The id that the next START takes.
    pub fn next_instance_id(&self) -> (r: Option<usize>)
        ensures
            r is Some <==> self.max_id < usize::MAX,
            r matches Some(id) ==> id == self.max_id + 1,
    {
        if self.max_id < usize::MAX {
            Some(self.max_id + 1)
        } else {
            None
        }
    }

    /// The status of instance `id`.
    pub fn status(&self, id: usize) -> (r: Status)
        requires
            self.wf(),
        ensures
            r == self.status_of(id),
    {
        match self.rbc_context.lookup(id) {
            Some(s) => s.status,
            None => Status::Waiting,
        }
    }

    /// START from the syncer: deal `value` on the fresh instance `max_id + 1`,
    /// which must still be waiting. Returns that id and the payload if this
    /// very step delivered it.
    pub fn start(&mut self, value: Vec<u8>, out: &mut Vec<(Dest, ProtMsg)>) -> (r: (usize, Option<Vec<u8>>))
        requires
            old(self).wf(),
            old(self).max_id < usize::MAX,
            old(self).status_of((old(self).max_id + 1) as usize) == Status::Waiting,
            value.len() + old(self).num_nodes + 1 <= usize::MAX,
        ensures
            final(self).wf(),
            r.0 == old(self).max_id + 1,
            final(self).max_id == r.0,
            forall|j: usize| j != r.0 ==> #[trigger] final(self).rbc_context.get(j) == old(self).rbc_context.get(j),
            final(out)@.len() >= old(out)@.len() + old(self).num_nodes - 1,
            forall|j: int| 0 <= j < old(self).num_nodes - 1 ==> init_for(
                old(self).prm(),
                old(self).myid,
                r.0,
                old(self).byz,
                value@,
                peer_at(old(self).myid as nat, j as nat),
                #[trigger] final(out)@[final(out)@.len() - (old(self).num_nodes - 1) + j],
            ),
    {
        let id = self.max_id + 1;
        self.max_id = id;
        let d = self.start_init(value, id, out);
        (id, d)
    }
}

} // verus!
