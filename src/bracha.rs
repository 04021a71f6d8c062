//! Bracha's reliable broadcast: the whole payload travels in every message.
//! One `RBCState` holds one instance; its handlers record votes, emit the
//! messages that the node must broadcast, and deliver at most once.
use vstd::prelude::*;
use crate::quorum::Params;
use crate::votes::Votes;

verus! {

/// Progress of one instance; it only moves forward.
#[derive(Clone, Copy, Debug, PartialEq, Eq, Structural)]
pub enum Status {
    Waiting,
    Init,
    EchoSent,
    ReadySent,
    Terminated,
}

impl Status {
    pub open spec fn rank(self) -> nat {
        match self {
            Status::Waiting => 0,
            Status::Init => 1,
            Status::EchoSent => 2,
            Status::ReadySent => 3,
            Status::Terminated => 4,
        }
    }

    /// The rank, at run time.
    pub fn stage(&self) -> (r: u8)
        ensures
            r == self.rank(),
    {
        match self {
            Status::Waiting => 0,
            Status::Init => 1,
            Status::EchoSent => 2,
            Status::ReadySent => 3,
            Status::Terminated => 4,
        }
    }
}

/// The three phases of the protocol.
#[derive(Clone, Copy, Debug, PartialEq, Eq, Structural)]
pub enum Phase {
    Init,
    Echo,
    Ready,
}

/// A payload and the replica that sent it.
#[derive(Clone, Debug)]
pub struct Msg {
    pub content: Vec<u8>,
    pub origin: usize,
}

/// A protocol message with the instance it belongs to.
#[derive(Clone, Debug)]
pub enum ProtMsg {
    Init(Msg, usize),
    Echo(Msg, usize),
    Ready(Msg, usize),
}

/// What a protocol message says: its phase, payload, origin and instance.
pub struct MsgView {
    pub phase: Phase,
    pub content: Seq<u8>,
    pub origin: usize,
    pub instance: usize,
}

impl View for ProtMsg {
    type V = MsgView;

    open spec fn view(&self) -> MsgView {
        match self {
            ProtMsg::Init(m, id) => MsgView { phase: Phase::Init, content: m.content@, origin: m.origin, instance: *id },
            ProtMsg::Echo(m, id) => MsgView { phase: Phase::Echo, content: m.content@, origin: m.origin, instance: *id },
            ProtMsg::Ready(m, id) => MsgView { phase: Phase::Ready, content: m.content@, origin: m.origin, instance: *id },
        }
    }
}

pub open spec fn msg_of(phase: Phase, content: Seq<u8>, origin: usize, instance: usize) -> MsgView {
    MsgView { phase, content, origin, instance }
}

/// `new` is `old` followed by messages that read as `added`.
pub open spec fn appended(old: Seq<ProtMsg>, new: Seq<ProtMsg>, added: Seq<MsgView>) -> bool {
    &&& new.len() == old.len() + added.len()
    &&& forall|i: int| 0 <= i < old.len() ==> #[trigger] new[i] == old[i]
    &&& forall|i: int| 0 <= i < added.len() ==> #[trigger] new[old.len() + i]@ == added[i]
}

/// The state of one broadcast instance at one replica.
pub struct RBCState {
    pub status: Status,
    pub echoes: Votes,
    pub readies: Votes,
    pub delivered: Option<Vec<u8>>,
}

impl RBCState {
    pub open spec fn delivered_view(self) -> Option<Seq<u8>> {
        match self.delivered {
            Some(d) => Some(d@),
            None => None,
        }
    }

    pub open spec fn wf(self, prm: Params) -> bool {
        &&& prm.wf()
        &&& self.echoes.wf()
        &&& self.readies.wf()
        &&& self.echoes.senders_below(prm.n as nat)
        &&& self.readies.senders_below(prm.n as nat)
        &&& (self.delivered is Some <==> self.status == Status::Terminated)
        &&& self.delivered matches Some(d) ==> self.readies.voters(d@).len() >= prm.quorum_spec()
    }

    /// Nothing that the instance holds differs between the two.
    pub open spec fn unchanged(self, other: RBCState) -> bool {
        &&& self.status == other.status
        &&& self.echoes.same_tally(other.echoes)
        &&& self.readies.same_tally(other.readies)
        &&& self.delivered_view() == other.delivered_view()
    }

    /// Moves only forward, and a delivered payload never changes.
    pub open spec fn advances_to(self, next: RBCState) -> bool {
        &&& self.status.rank() <= next.status.rank()
        &&& self.delivered is Some ==> next.delivered_view() == self.delivered_view()
    }

    /// Delivery would fire for `p`: nothing delivered yet and a quorum of readies.
    pub open spec fn deliverable(self, prm: Params, p: Seq<u8>) -> bool {
        self.delivered is None && self.readies.voters(p).len() >= prm.quorum_spec()
    }

    pub fn new() -> (r: RBCState)
        ensures
            r.status == Status::Waiting,
            r.delivered is None,
            forall|p: Seq<u8>| #[trigger] r.echoes.voters(p) == Seq::<usize>::empty(),
            forall|p: Seq<u8>| #[trigger] r.readies.voters(p) == Seq::<usize>::empty(),
            forall|prm: Params| prm.wf() ==> #[trigger] r.wf(prm),
    {
        let r = RBCState { status: Status::Waiting, echoes: Votes::new(), readies: Votes::new(), delivered: None };
        proof {
            assert forall|prm: Params| prm.wf() implies #[trigger] r.wf(prm) by {
                assert(r.echoes.senders_below(prm.n as nat));
                assert(r.readies.senders_below(prm.n as nat));
            }
        }
        r
    }

    /// Delivers `p` if nothing is delivered yet and `p` has `n - f` readies.
    fn try_deliver(&mut self, prm: &Params, p: &Vec<u8>)
        requires
            old(self).wf(*prm),
        ensures
            final(self).wf(*prm),
            final(self).echoes == old(self).echoes,
            final(self).readies == old(self).readies,
            old(self).deliverable(*prm, p@) ==> final(self).delivered_view() == Some(p@)
                && final(self).status == Status::Terminated,
            !old(self).deliverable(*prm, p@) ==> final(self).unchanged(*old(self))
                && final(self).status == old(self).status,
    {
        if self.delivered.is_none() && self.readies.count(p) >= prm.quorum() {
            self.delivered = Some(p.clone());
            self.status = Status::Terminated;
        }
    }

    /// Sends READY for `p` (at most once per instance) and counts it locally.
    fn send_ready(&mut self, prm: &Params, me: usize, id: usize, p: &Vec<u8>, out: &mut Vec<ProtMsg>)
        requires
            old(self).wf(*prm),
            old(self).status.rank() < 3,
            me < prm.n,
        ensures
            final(self).wf(*prm),
            final(self).echoes == old(self).echoes,
            final(self).readies.voter_set(p@) == old(self).readies.voter_set(p@).insert(me),
            forall|q: Seq<u8>| q != p@ ==> #[trigger] final(self).readies.voters(q) == old(self).readies.voters(q),
            final(self).status == (if final(self).delivered is Some { Status::Terminated } else { Status::ReadySent }),
            final(self).delivered_view() == (if final(self).readies.voters(p@).len() >= prm.quorum_spec() {
                Some(p@)
            } else {
                None::<Seq<u8>>
            }),
            appended(old(out)@, final(out)@, seq![msg_of(Phase::Ready, p@, me, id)]),
    {
        self.status = Status::ReadySent;
        out.push(ProtMsg::Ready(Msg { content: p.clone(), origin: me }, id));
        let ghost mid = self.readies;
        let _ = self.readies.add(me, p);
        proof {
            mid.lemma_voter_count(p@);
            self.readies.lemma_voter_count(p@);
            if mid.voters(p@).contains(me) {
                assert forall|q: Seq<u8>| #[trigger] self.readies.voters(q) == mid.voters(q) by {
                    if q != p@ {
                    } else if mid.has_key(q) {
                        let k = choose|k: int| 0 <= k < mid.keys.len() && #[trigger] mid.key_at(k) == q;
                        mid.lemma_voters_at(k);
                        self.readies.lemma_voters_at(k);
                    } else {
                        assert forall|k: int| 0 <= k < self.readies.keys.len() implies #[trigger] self.readies.key_at(k) != q by {
                            assert(self.readies.key_at(k) == mid.key_at(k));
                        }
                    }
                }
                assert(mid.voter_set(p@).insert(me) =~= mid.voter_set(p@));
            }
        }
        self.try_deliver(prm, p);
    }

    /// Counts an ECHO of `p` from `sender`; at `n - f` distinct echoes for
    /// `p` this replica sends READY for `p`, if it has not sent one yet.
    pub fn handle_echo(&mut self, prm: &Params, me: usize, id: usize, sender: usize, p: &Vec<u8>, out: &mut Vec<ProtMsg>)
        requires
            old(self).wf(*prm),
            me < prm.n,
            sender < prm.n,
        ensures
            final(self).wf(*prm),
            old(self).advances_to(*final(self)),
            final(self).echoes.voter_set(p@) == old(self).echoes.voter_set(p@).insert(sender),
            forall|q: Seq<u8>| q != p@ ==> #[trigger] final(self).echoes.voters(q) == old(self).echoes.voters(q),
            old(self).echoes.voters(p@).contains(sender) ==> final(self).unchanged(*old(self)) && final(out)@ == old(out)@,
            !old(self).echoes.voters(p@).contains(sender) && old(self).status.rank() < 3
                && old(self).echoes.voters(p@).len() + 1 >= prm.quorum_spec() ==> {
                &&& final(self).status.rank() >= 3
                &&& final(self).readies.voter_set(p@) == old(self).readies.voter_set(p@).insert(me)
                &&& final(self).delivered_view() == (if final(self).readies.voters(p@).len() >= prm.quorum_spec() {
                    Some(p@)
                } else {
                    None::<Seq<u8>>
                })
                &&& appended(old(out)@, final(out)@, seq![msg_of(Phase::Ready, p@, me, id)])
            },
            !(old(self).status.rank() < 3 && old(self).echoes.voters(p@).len() + 1 >= prm.quorum_spec()) ==> {
                &&& final(self).status == old(self).status
                &&& final(self).readies == old(self).readies
                &&& final(self).delivered_view() == old(self).delivered_view()
                &&& final(out)@ == old(out)@
            },
    {
        let ghost pre = *self;
        let fresh = self.echoes.add(sender, p);
        proof {
            self.echoes.lemma_voters_below(p@, prm.n as nat);
        }
        if !fresh {
            return;
        }
        if self.status.stage() < 3 && self.echoes.count(p) >= prm.quorum() {
            self.send_ready(prm, me, id, p, out);
        }
    }

    /// Counts a READY for `p` from `sender`. At `f + 1` readies for `p` a
    /// replica that has not sent READY sends it; at `n - f` it delivers `p`.
    pub fn handle_ready(&mut self, prm: &Params, me: usize, id: usize, sender: usize, p: &Vec<u8>, out: &mut Vec<ProtMsg>)
        requires
            old(self).wf(*prm),
            me < prm.n,
            sender < prm.n,
        ensures
            final(self).wf(*prm),
            old(self).advances_to(*final(self)),
            final(self).echoes == old(self).echoes,
            final(self).readies.voter_set(p@).contains(sender),
            forall|q: Seq<u8>| q != p@ ==> #[trigger] final(self).readies.voters(q) == old(self).readies.voters(q),
            old(self).readies.voters(p@).contains(sender) ==> final(self).unchanged(*old(self)) && final(out)@ == old(out)@,
            !old(self).readies.voters(p@).contains(sender) ==> {
                let amplify = old(self).status.rank() < 3 && old(self).readies.voters(p@).len() + 1 >= prm.weak_spec();
                &&& amplify ==> final(self).readies.voter_set(p@) == old(self).readies.voter_set(p@).insert(sender).insert(me)
                    && final(self).status.rank() >= 3
                    && appended(old(out)@, final(out)@, seq![msg_of(Phase::Ready, p@, me, id)])
                &&& !amplify ==> final(self).readies.voter_set(p@) == old(self).readies.voter_set(p@).insert(sender)
                    && final(out)@ == old(out)@
                &&& final(self).delivered_view() == (if old(self).delivered is None
                    && final(self).readies.voters(p@).len() >= prm.quorum_spec() {
                    Some(p@)
                } else {
                    old(self).delivered_view()
                })
            },
    {
        let fresh = self.readies.add(sender, p);
        proof {
            self.readies.lemma_voters_below(p@, prm.n as nat);
        }
        if !fresh {
            return;
        }
        if self.status.stage() < 3 && self.readies.count(p) >= prm.weak() {
            self.send_ready(prm, me, id, p, out);
        } else {
            self.try_deliver(prm, p);
        }
    }

    /// Sends ECHO for `p` unless this replica has echoed already, and counts
    /// its own echo.
    pub fn start_echo(&mut self, prm: &Params, me: usize, id: usize, p: &Vec<u8>, out: &mut Vec<ProtMsg>)
        requires
            old(self).wf(*prm),
            me < prm.n,
        ensures
            final(self).wf(*prm),
            old(self).advances_to(*final(self)),
            old(self).status.rank() >= 2 ==> final(self).unchanged(*old(self)) && final(out)@ == old(out)@,
            old(self).status.rank() < 2 ==> {
                &&& final(self).status.rank() >= 2
                &&& final(self).echoes.voter_set(p@) == old(self).echoes.voter_set(p@).insert(me)
                &&& (final(self).delivered is None || final(self).delivered_view() == Some(p@))
                &&& if !old(self).echoes.voters(p@).contains(me) && old(self).echoes.voters(p@).len() + 1 >= prm.quorum_spec() {
                    appended(old(out)@, final(out)@, seq![msg_of(Phase::Echo, p@, me, id), msg_of(Phase::Ready, p@, me, id)])
                } else {
                    appended(old(out)@, final(out)@, seq![msg_of(Phase::Echo, p@, me, id)])
                }
                &&& final(out)@.len() >= old(out)@.len() + 1
                &&& final(out)@[old(out)@.len() as int]@ == msg_of(Phase::Echo, p@, me, id)
                &&& forall|i: int| 0 <= i < old(out)@.len() ==> #[trigger] final(out)@[i] == old(out)@[i]
            },
    {
        if self.status.stage() >= 2 {
            return;
        }
        self.status = Status::EchoSent;
        let ghost pre_out = out@;
        out.push(ProtMsg::Echo(Msg { content: p.clone(), origin: me }, id));
        let ghost mid_out = out@;
        self.handle_echo(prm, me, id, me, p, out);
        proof {
            assert(mid_out[pre_out.len() as int]@ == msg_of(Phase::Echo, p@, me, id));
            assert(out@[pre_out.len() as int] == mid_out[pre_out.len() as int]);
            let added = seq![msg_of(Phase::Echo, p@, me, id), msg_of(Phase::Ready, p@, me, id)];
            if out@.len() > mid_out.len() {
                let r1 = seq![msg_of(Phase::Ready, p@, me, id)];
                assert(appended(mid_out, out@, r1));
                assert(out@[mid_out.len() + 0int]@ == r1[0]);
                assert forall|i: int| 0 <= i < added.len() implies #[trigger] out@[pre_out.len() + i]@ == added[i] by {
                    if i == 1 {
                        assert(pre_out.len() + i == mid_out.len() + 0int);
                    }
                }
            }
        }
    }

    /// An INIT from the dealer: echo its payload if this replica has not echoed.
    pub fn handle_init(&mut self, prm: &Params, me: usize, id: usize, msg: &Msg, out: &mut Vec<ProtMsg>)
        requires
            old(self).wf(*prm),
            me < prm.n,
        ensures
            final(self).wf(*prm),
            old(self).advances_to(*final(self)),
            old(self).status.rank() >= 2 ==> final(self).unchanged(*old(self)) && final(out)@ == old(out)@,
            old(self).status.rank() < 2 ==> {
                &&& final(self).status.rank() >= 2
                &&& final(self).echoes.voter_set(msg.content@) == old(self).echoes.voter_set(msg.content@).insert(me)
                &&& (final(self).delivered is None || final(self).delivered_view() == Some(msg.content@))
                &&& if !old(self).echoes.voters(msg.content@).contains(me) && old(self).echoes.voters(msg.content@).len() + 1 >= prm.quorum_spec() {
                    appended(old(out)@, final(out)@, seq![msg_of(Phase::Echo, msg.content@, me, id), msg_of(Phase::Ready, msg.content@, me, id)])
                } else {
                    appended(old(out)@, final(out)@, seq![msg_of(Phase::Echo, msg.content@, me, id)])
                }
                &&& final(out)@.len() >= old(out)@.len() + 1
                &&& final(out)@[old(out)@.len() as int]@ == msg_of(Phase::Echo, msg.content@, me, id)
                &&& forall|i: int| 0 <= i < old(out)@.len() ==> #[trigger] final(out)@[i] == old(out)@[i]
            },
    {
        self.start_echo(prm, me, id, &msg.content, out);
    }

    /// The dealer's path: process its own INIT, then broadcast INIT for `input`.
    pub fn start_init(&mut self, prm: &Params, me: usize, id: usize, input: Vec<u8>, out: &mut Vec<ProtMsg>)
        requires
            old(self).wf(*prm),
            old(self).status == Status::Waiting,
            me < prm.n,
        ensures
            final(self).wf(*prm),
            final(self).status.rank() >= 2,
            final(self).echoes.voter_set(input@) == old(self).echoes.voter_set(input@).insert(me),
            final(self).delivered is None || final(self).delivered_view() == Some(input@),
            final(out)@.len() >= old(out)@.len() + 2,
            forall|i: int| 0 <= i < old(out)@.len() ==> #[trigger] final(out)@[i] == old(out)@[i],
            final(out)@[old(out)@.len() as int]@ == msg_of(Phase::Echo, input@, me, id),
            final(out)@.last()@ == msg_of(Phase::Init, input@, me, id),
    {
        self.status = Status::Init;
        let msg = Msg { content: input, origin: me };
        self.handle_init(prm, me, id, &msg, out);
        out.push(ProtMsg::Init(msg, id));
    }
}

} // verus!
