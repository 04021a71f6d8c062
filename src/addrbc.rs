//! A replica running Bracha's broadcast: many instances at once, keyed by
//! instance id, each with its own `RBCState`.
use vstd::prelude::*;
use crate::bracha::{Msg, ProtMsg, RBCState, Status, Phase, msg_of, appended};
use crate::quorum::Params;
use crate::table::Table;

verus! {

/// Ids of the instances that replica `id` deals start after `id * RANGE`.
pub const RANGE: usize = 10000;

/// What one replica knows and holds.
pub struct Context {
    pub num_nodes: usize,
    pub myid: usize,
    pub num_faults: usize,
    pub inp_message: Vec<u8>,
    pub byz: bool,
    pub crash: bool,
    pub rbc_context: Table<RBCState>,
    pub max_id: usize,
}

/// The instance id that a protocol message carries.
pub open spec fn instance_of(m: ProtMsg) -> usize {
    match m {
        ProtMsg::Init(_, id) => id,
        ProtMsg::Echo(_, id) => id,
        ProtMsg::Ready(_, id) => id,
    }
}

impl Context {
    pub open spec fn prm(self) -> Params {
        Params { n: self.num_nodes, f: self.num_faults }
    }

    pub open spec fn wf(self) -> bool {
        &&& self.prm().wf()
        &&& self.myid < self.num_nodes
        &&& self.rbc_context.wf()
        &&& forall|id: usize| #[trigger] self.rbc_context.get(id) matches Some(s) ==> s.wf(self.prm())
    }

    /// The two agree on everything but the instances.
    pub open spec fn same_config(self, other: Context) -> bool {
        &&& self.num_nodes == other.num_nodes
        &&& self.num_faults == other.num_faults
        &&& self.myid == other.myid
        &&& self.byz == other.byz
        &&& self.crash == other.crash
        &&& self.max_id == other.max_id
        &&& self.inp_message == other.inp_message
    }

    /// The echoes for `p` in instance `id` so far.
    pub open spec fn echoes_before(self, id: usize, p: Seq<u8>) -> Seq<usize> {
        match self.rbc_context.get(id) {
            Some(s) => s.echoes.voters(p),
            None => Seq::empty(),
        }
    }

    /// The readies for `p` in instance `id` so far.
    pub open spec fn readies_before(self, id: usize, p: Seq<u8>) -> Seq<usize> {
        match self.rbc_context.get(id) {
            Some(s) => s.readies.voters(p),
            None => Seq::empty(),
        }
    }

    /// Instance `id` has delivered.
    pub open spec fn delivered_in(self, id: usize) -> bool {
        self.rbc_context.get(id) matches Some(s) && s.delivered is Some
    }

    /// What echoing `p` in instance `id` adds to the output: the ECHO, and a
    /// READY when this replica's own echo completes `n - f` echoes.
    pub open spec fn echo_output(self, id: usize, p: Seq<u8>, old_out: Seq<ProtMsg>, new_out: Seq<ProtMsg>) -> bool {
        if !self.echoes_before(id, p).contains(self.myid) && self.echoes_before(id, p).len() + 1 >= self.prm().quorum_spec() {
            appended(old_out, new_out, seq![msg_of(Phase::Echo, p, self.myid, id), msg_of(Phase::Ready, p, self.myid, id)])
        } else {
            appended(old_out, new_out, seq![msg_of(Phase::Echo, p, self.myid, id)])
        }
    }

    /// The status of instance `id`; an instance never heard of is waiting.
    pub open spec fn status_of(self, id: usize) -> Status {
        match self.rbc_context.get(id) {
            Some(s) => s.status,
            None => Status::Waiting,
        }
    }

    /// The replica's context, with its byzantine and crash test flags.
    pub fn new(myid: usize, num_nodes: usize, num_faults: usize, message: Vec<u8>, byz: bool, crash: bool) -> (r: Option<Context>)
        ensures
            r is Some <==> (num_nodes >= 3 * (num_faults as int) + 1 && myid < num_nodes
                && myid * RANGE <= usize::MAX),
            r matches Some(c) ==> {
                &&& c.wf()
                &&& c.myid == myid && c.num_nodes == num_nodes && c.num_faults == num_faults
                &&& c.inp_message@ == message@
                &&& c.byz == byz
                &&& c.crash == crash
                &&& c.max_id == myid * RANGE
                &&& forall|id: usize| #[trigger] c.rbc_context.get(id) is None
            },
    {
        match Params::new(num_nodes, num_faults) {
            None => None,
            Some(_) => {
                if myid >= num_nodes || myid > usize::MAX / RANGE {
                    return None;
                }
                proof {
                    assert(myid * RANGE <= usize::MAX) by (nonlinear_arith)
                        requires myid <= usize::MAX / RANGE;
                }
                let c = Context {
                    num_nodes,
                    myid,
                    num_faults,
                    inp_message: message,
                    byz,
                    crash,
                    rbc_context: Table::new(),
                    max_id: myid * RANGE,
                };
                Some(c)
            },
        }
    }

    /// Takes the state of instance `id` out of the table, or a fresh one.
    fn take_instance(&mut self, id: usize) -> (r: RBCState)
        requires
            old(self).wf(),
        ensures
            final(self).rbc_context.wf(),
            final(self).rbc_context.get(id) is None,
            forall|j: usize| j != id ==> #[trigger] final(self).rbc_context.get(j) == old(self).rbc_context.get(j),
            final(self).same_config(*old(self)),
            r.wf(old(self).prm()),
            old(self).rbc_context.get(id) matches Some(s) ==> r == s,
            old(self).rbc_context.get(id) is None ==> r.status == Status::Waiting && r.delivered is None,
            old(self).rbc_context.get(id) is None ==> forall|p: Seq<u8>| #[trigger] r.echoes.voters(p) == Seq::<usize>::empty(),
            old(self).rbc_context.get(id) is None ==> forall|p: Seq<u8>| #[trigger] r.readies.voters(p) == Seq::<usize>::empty(),
    {
        match self.rbc_context.take(id) {
            Some(s) => s,
            None => RBCState::new(),
        }
    }

    /// The dealer's path for instance `instance_id`, which must be waiting.
    /// Returns the payload if this very step delivered it.
    pub fn start_init(&mut self, input_msg: Vec<u8>, instance_id: usize, out: &mut Vec<ProtMsg>) -> (r: Option<Vec<u8>>)
        requires
            old(self).wf(),
            old(self).status_of(instance_id) == Status::Waiting,
        ensures
            final(self).wf(),
            final(self).same_config(*old(self)),
            forall|j: usize| j != instance_id ==> #[trigger] final(self).rbc_context.get(j) == old(self).rbc_context.get(j),
            final(self).rbc_context.get(instance_id) matches Some(s) && {
                &&& s.status.rank() >= 2
                &&& s.echoes.voter_set(input_msg@).contains(old(self).myid)
                &&& r matches Some(d) ==> d@ == input_msg@ && s.delivered_view() == Some(input_msg@)
                &&& r is None ==> s.delivered is None
            },
            final(out)@.len() >= old(out)@.len() + 2,
            forall|i: int| 0 <= i < old(out)@.len() ==> #[trigger] final(out)@[i] == old(out)@[i],
            final(out)@[old(out)@.len() as int]@ == msg_of(Phase::Echo, input_msg@, old(self).myid, instance_id),
            final(out)@.last()@ == msg_of(Phase::Init, input_msg@, old(self).myid, instance_id),
    {
        let prm = Params { n: self.num_nodes, f: self.num_faults };
        let mut st = self.take_instance(instance_id);
        let ghost pre = st;
        st.start_init(&prm, self.myid, instance_id, input_msg, out);
        let r = match &st.delivered {
            Some(d) => Some(d.clone()),
            None => None,
        };
        self.rbc_context.put(instance_id, st);
        r
    }

    /// An INIT for instance `instance_id`: echo its payload unless this
    /// replica has echoed there already. Returns the payload if this very
    /// step delivered it.
    pub fn handle_init(&mut self, msg: Msg, instance_id: usize, out: &mut Vec<ProtMsg>) -> (r: Option<Vec<u8>>)
        requires
            old(self).wf(),
        ensures
            final(self).wf(),
            final(self).same_config(*old(self)),
            forall|j: usize| j != instance_id ==> #[trigger] final(self).rbc_context.get(j) == old(self).rbc_context.get(j),
            old(self).status_of(instance_id).rank() < 2 ==> old(self).echo_output(instance_id, msg.content@, old(out)@, final(out)@),
            final(self).rbc_context.get(instance_id) matches Some(s) && {
                &&& s.status.rank() >= 2
                &&& old(self).rbc_context.get(instance_id) is Some
                    ==> old(self).rbc_context.get(instance_id)->Some_0.advances_to(s)
                &&& old(self).status_of(instance_id).rank() < 2 ==> s.echoes.voter_set(msg.content@).contains(old(self).myid)
                    && final(out)@.len() > old(out)@.len()
                    && final(out)@[old(out)@.len() as int]@ == msg_of(Phase::Echo, msg.content@, old(self).myid, instance_id)
                &&& old(self).rbc_context.get(instance_id) is Some
                    && old(self).rbc_context.get(instance_id)->Some_0.status.rank() >= 2
                    ==> s.unchanged(old(self).rbc_context.get(instance_id)->Some_0) && final(out)@ == old(out)@
                &&& r matches Some(d) ==> d@ == msg.content@ && s.delivered_view() == Some(msg.content@)
                    && (old(self).rbc_context.get(instance_id) is Some
                    ==> old(self).rbc_context.get(instance_id)->Some_0.delivered is None)
                &&& r is None ==> (s.delivered is Some ==> old(self).rbc_context.get(instance_id) is Some
                    && old(self).rbc_context.get(instance_id)->Some_0.delivered is Some)
            },
            forall|i: int| 0 <= i < old(out)@.len() ==> #[trigger] final(out)@[i] == old(out)@[i],
    {
        let prm = Params { n: self.num_nodes, f: self.num_faults };
        let ghost pre_self = *self;
        let mut st = self.take_instance(instance_id);
        let ghost pre = st;
        proof {
            assert(pre_self.echoes_before(instance_id, msg.content@) == pre.echoes.voters(msg.content@));
            assert(pre_self.status_of(instance_id) == pre.status);
        }
        let was_delivered = st.delivered.is_some();
        st.handle_init(&prm, self.myid, instance_id, &msg, out);
        let r = if !was_delivered {
            match &st.delivered {
                Some(d) => Some(d.clone()),
                None => None,
            }
        } else {
            None
        };
        self.rbc_context.put(instance_id, st);
        r
    }

    /// A protocol message from replica `sender`, whose MAC was checked.
    /// Messages from outside `0..n` are dropped. Returns the payload if this
    /// very message made the instance deliver.
    pub fn process_msg(&mut self, sender: usize, msg: ProtMsg, out: &mut Vec<ProtMsg>) -> (r: Option<Vec<u8>>)
        requires
            old(self).wf(),
        ensures
            final(self).wf(),
            final(self).same_config(*old(self)),
            forall|i: int| 0 <= i < old(out)@.len() ==> #[trigger] final(out)@[i] == old(out)@[i],
            sender >= old(self).num_nodes ==> r is None && final(out)@ == old(out)@
                && final(self).rbc_context == old(self).rbc_context,
            forall|j: usize| j != instance_of(msg) ==> #[trigger] final(self).rbc_context.get(j) == old(self).rbc_context.get(j),
            sender < old(self).num_nodes ==> {
                let id = instance_of(msg);
                let me = old(self).myid;
                let prm = old(self).prm();
                &&& msg matches ProtMsg::Init(m, _) ==> (old(self).status_of(id).rank() < 2
                    ==> old(self).echo_output(id, m.content@, old(out)@, final(out)@))
                &&& msg matches ProtMsg::Echo(m, _) ==> {
                    let fire = !old(self).echoes_before(id, m.content@).contains(sender) && old(self).status_of(id).rank() < 3
                        && old(self).echoes_before(id, m.content@).len() + 1 >= prm.quorum_spec();
                    &&& fire ==> appended(old(out)@, final(out)@, seq![msg_of(Phase::Ready, m.content@, me, id)])
                    &&& !fire ==> final(out)@ == old(out)@
                }
                &&& msg matches ProtMsg::Ready(m, _) ==> {
                    let fresh = !old(self).readies_before(id, m.content@).contains(sender);
                    let amplify = fresh && old(self).status_of(id).rank() < 3
                        && old(self).readies_before(id, m.content@).len() + 1 >= prm.weak_spec();
                    &&& amplify ==> appended(old(out)@, final(out)@, seq![msg_of(Phase::Ready, m.content@, me, id)])
                    &&& !amplify ==> final(out)@ == old(out)@
                    &&& fresh && !old(self).delivered_in(id) && final(self).readies_before(id, m.content@).len()
                        >= prm.quorum_spec() ==> (r matches Some(d) && d@ == m.content@)
                }
            },
            sender < old(self).num_nodes ==> (final(self).rbc_context.get(instance_of(msg)) matches Some(s) && {
                let b = old(self).rbc_context.get(instance_of(msg));
                &&& b is Some ==> b->Some_0.advances_to(s)
                &&& r matches Some(d) ==> s.delivered_view() == Some(d@) && (b is Some ==> b->Some_0.delivered is None)
                &&& r is None ==> (s.delivered is Some ==> b is Some && b->Some_0.delivered is Some)
                &&& msg matches ProtMsg::Echo(m, _) ==> {
                    &&& s.echoes.voter_set(m.content@).contains(sender)
                    &&& b is Some && b->Some_0.echoes.voters(m.content@).contains(sender)
                        ==> s.unchanged(b->Some_0) && final(out)@ == old(out)@
                }
                &&& msg matches ProtMsg::Ready(m, _) ==> {
                    &&& s.readies.voter_set(m.content@).contains(sender)
                    &&& b is Some && b->Some_0.readies.voters(m.content@).contains(sender)
                        ==> s.unchanged(b->Some_0) && final(out)@ == old(out)@
                }
                &&& msg matches ProtMsg::Init(m, _) ==> {
                    &&& s.status.rank() >= 2
                    &&& b is Some && b->Some_0.status.rank() >= 2 ==> s.unchanged(b->Some_0) && final(out)@ == old(out)@
                }
            }),
    {
        if sender >= self.num_nodes {
            return None;
        }
        let prm = Params { n: self.num_nodes, f: self.num_faults };
        let me = self.myid;
        match msg {
            ProtMsg::Init(m, id) => self.handle_init(m, id, out),
            ProtMsg::Echo(m, id) => {
                let mut st = self.take_instance(id);
                let ghost pre = st;
                let was = st.delivered.is_some();
                st.handle_echo(&prm, me, id, sender, &m.content, out);
                proof {
                    vstd::set::axiom_set_insert_same(pre.echoes.voter_set(m.content@), sender);
                }
                let r = Self::delivered_now(was, &st);
                self.rbc_context.put(id, st);
                r
            },
            ProtMsg::Ready(m, id) => {
                let mut st = self.take_instance(id);
                let ghost pre = st;
                let was = st.delivered.is_some();
                st.handle_ready(&prm, me, id, sender, &m.content, out);
                proof {
                    if !pre.readies.voters(m.content@).contains(sender) {
                        pre.readies.lemma_voter_count(m.content@);
                    }
                }
                let r = Self::delivered_now(was, &st);
                self.rbc_context.put(id, st);
                r
            },
        }
    }

    /// The payload that `after` delivered and `before` had not.
    fn delivered_now(was: bool, after: &RBCState) -> (r: Option<Vec<u8>>)
        ensures
            r matches Some(d) ==> !was && after.delivered_view() == Some(d@),
            r is None ==> was || after.delivered is None,
    {
        if was {
            return None;
        }
        match &after.delivered {
            Some(d) => Some(d.clone()),
            None => None,
        }
    }

    /// The id that the next START takes.
    pub fn next_instance_id(&self) -> (r: Option<usize>)
        ensures
            r is Some <==> self.max_id < usize::MAX,
            r matches Some(id) ==> id == self.max_id + 1,
    {
        if self.max_id < usize::MAX {
            Some(self.max_id + 1)
        } else {
            None
        }
    }

    /// The status of instance `id`.
    pub fn status(&self, id: usize) -> (r: Status)
        requires
            self.wf(),
        ensures
            r == self.status_of(id),
    {
        match self.rbc_context.lookup(id) {
            Some(s) => s.status,
            None => Status::Waiting,
        }
    }

    /// START from the syncer: deal `value` on a fresh instance id, `max_id + 1`,
    /// which must still be waiting. Returns that id and the payload if this
    /// very step delivered it.
    pub fn start(&mut self, value: Vec<u8>, out: &mut Vec<ProtMsg>) -> (r: (usize, Option<Vec<u8>>))
        requires
            old(self).wf(),
            old(self).max_id < usize::MAX,
            old(self).status_of((old(self).max_id + 1) as usize) == Status::Waiting,
        ensures
            final(self).wf(),
            r.0 == old(self).max_id + 1,
            final(self).max_id == r.0,
            forall|j: usize| j != r.0 ==> #[trigger] final(self).rbc_context.get(j) == old(self).rbc_context.get(j),
            final(self).rbc_context.get(r.0) matches Some(s) && s.status.rank() >= 2
                && s.echoes.voter_set(value@).contains(old(self).myid)
                && (r.1 matches Some(d) ==> d@ == value@),
            final(out)@.last()@ == msg_of(Phase::Init, value@, old(self).myid, r.0),
    {
        let id = self.max_id + 1;
        self.max_id = id;
        let d = self.start_init(value, id, out);
        (id, d)
    }

    /// What replica `peer` is sent for `msg`. A replica flagged byzantine
    /// zeroes the payload of the INITs it sends to the others.
    pub fn outgoing(&self, peer: usize, msg: &ProtMsg) -> (r: ProtMsg)
        ensures
            (self.byz && peer != self.myid && msg is Init) ==> r@ == (msg_of(Phase::Init, Seq::new(msg@.content.len(), |i: int| 0u8), msg@.origin, msg@.instance)),
            !(self.byz && peer != self.myid && msg is Init) ==> r@ == msg@,
    {
        match msg {
            ProtMsg::Init(m, id) => {
                if self.byz && peer != self.myid {
                    let zeros = vec![0u8; m.content.len()];
                    assert(zeros@ =~= Seq::new(m.content@.len(), |i: int| 0u8));
                    ProtMsg::Init(Msg { content: zeros, origin: m.origin }, *id)
                } else {
                    ProtMsg::Init(Msg { content: m.content.clone(), origin: m.origin }, *id)
                }
            },
            ProtMsg::Echo(m, id) => ProtMsg::Echo(Msg { content: m.content.clone(), origin: m.origin }, *id),
            ProtMsg::Ready(m, id) => ProtMsg::Ready(Msg { content: m.content.clone(), origin: m.origin }, *id),
        }
    }
}

} // verus!
