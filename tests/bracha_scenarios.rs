use std::collections::VecDeque;

use rbc::addrbc::Context;
use rbc::bracha::{Msg, ProtMsg, RBCState, Status};
use rbc::quorum::Params;

struct Net {
    nodes: Vec<Context>,
    queue: VecDeque<(usize, usize, ProtMsg)>,
    delivered: Vec<Vec<(usize, Vec<u8>)>>,
}

fn instance_of(m: &ProtMsg) -> usize {
    match m {
        ProtMsg::Init(_, id) | ProtMsg::Echo(_, id) | ProtMsg::Ready(_, id) => *id,
    }
}

impl Net {
    fn new(n: usize, f: usize) -> Net {
        Net::with_flags(n, f, &[], &[])
    }

    fn with_flags(n: usize, f: usize, byz: &[usize], crash: &[usize]) -> Net {
        let nodes = (0..n)
            .map(|i| Context::new(i, n, f, vec![], byz.contains(&i), crash.contains(&i)).unwrap())
            .collect();
        Net { nodes, queue: VecDeque::new(), delivered: vec![vec![]; n] }
    }

    fn fan_out(&mut self, from: usize, out: Vec<ProtMsg>) {
        for m in out {
            for peer in 0..self.nodes.len() {
                if peer != from {
                    let sent = self.nodes[from].outgoing(peer, &m);
                    self.queue.push_back((from, peer, sent));
                }
            }
        }
    }

    fn start(&mut self, dealer: usize, value: &[u8]) -> usize {
        let mut out = Vec::new();
        let (id, d) = self.nodes[dealer].start(value.to_vec(), &mut out);
        if let Some(d) = d {
            self.delivered[dealer].push((id, d));
        }
        self.fan_out(dealer, out);
        id
    }

    fn step(&mut self, from: usize, to: usize, m: ProtMsg) {
        let id = instance_of(&m);
        let mut out = Vec::new();
        if let Some(d) = self.nodes[to].process_msg(from, m, &mut out) {
            self.delivered[to].push((id, d));
        }
        self.fan_out(to, out);
    }

    fn run(&mut self) {
        let mut steps = 0;
        while let Some((from, to, m)) = self.queue.pop_front() {
            self.step(from, to, m);
            steps += 1;
            assert!(steps < 100_000);
        }
    }
}

#[test]
fn all_honest_deliver_hello() {
    let mut net = Net::new(4, 1);
    let id = net.start(0, b"hello");
    net.run();
    for i in 0..4 {
        assert_eq!(net.delivered[i], vec![(id, b"hello".to_vec())]);
        assert_eq!(net.nodes[i].status(id), Status::Terminated);
    }
}

#[test]
fn byzantine_minority_is_outvoted() {
    let mut net = Net::with_flags(7, 2, &[5, 6], &[]);
    assert!(net.nodes[5].byz && net.nodes[6].byz);
    let id = net.start(0, &[0x01, 0x02, 0x03]);
    net.run();
    for i in 0..5 {
        assert_eq!(net.delivered[i], vec![(id, vec![0x01, 0x02, 0x03])]);
    }
}

#[test]
fn byzantine_dealer_cannot_split_honest_nodes() {
    let mut net = Net::with_flags(4, 1, &[0], &[]);
    let id = net.start(0, b"real");
    net.run();
    let got: Vec<_> = (1..4).map(|i| net.delivered[i].clone()).collect();
    assert!(got.iter().all(|d| d == &got[0]));
    assert_eq!(got[0], vec![(id, vec![0u8; 4])]);
}

#[test]
fn crashed_node_does_not_block_delivery() {
    let mut net = Net::new(4, 1);
    let id = net.start(0, b"crash");
    // Node 2 halts: what is sent to it is lost and it sends nothing.
    while let Some((from, to, m)) = net.queue.pop_front() {
        if to == 2 || from == 2 {
            continue;
        }
        net.step(from, to, m);
    }
    for i in [0usize, 1, 3] {
        assert_eq!(net.delivered[i], vec![(id, b"crash".to_vec())]);
    }
    assert!(net.delivered[2].is_empty());
}

#[test]
fn concurrent_instances_stay_apart() {
    let mut net = Net::new(4, 1);
    let a = net.start(0, b"A-payload");
    let b = net.start(1, b"B-payload");
    assert_ne!(a, b);
    assert_eq!(a, 1);
    assert_eq!(b, 10001);
    net.run();
    for i in 0..4 {
        let mut got = net.delivered[i].clone();
        got.sort();
        assert_eq!(got, vec![(a, b"A-payload".to_vec()), (b, b"B-payload".to_vec())]);
    }
}

#[test]
fn late_node_amplifies_readies_then_delivers() {
    let mut net = Net::new(4, 1);
    let id = net.start(0, b"late");
    let mut held = Vec::new();
    while let Some((from, to, m)) = net.queue.pop_front() {
        if to == 3 && !matches!(m, ProtMsg::Ready(..)) {
            held.push((from, to, m));
            continue;
        }
        net.step(from, to, m);
    }
    // Node 3 has only seen READYs: f + 1 of them made it send its own.
    assert!(matches!(net.nodes[3].status(id), Status::ReadySent | Status::Terminated));
    assert_eq!(net.delivered[3], vec![(id, b"late".to_vec())]);
    for (from, to, m) in held {
        net.step(from, to, m);
    }
    net.run();
    for i in 0..4 {
        assert_eq!(net.delivered[i], vec![(id, b"late".to_vec())]);
    }
}

#[test]
fn replayed_messages_change_nothing() {
    let prm = Params::new(4, 1).unwrap();
    let mut st = RBCState::new();
    let mut out = Vec::new();
    st.handle_echo(&prm, 0, 7, 2, &b"x".to_vec(), &mut out);
    assert_eq!(st.echoes.count(&b"x".to_vec()), 1);
    st.handle_echo(&prm, 0, 7, 2, &b"x".to_vec(), &mut out);
    assert_eq!(st.echoes.count(&b"x".to_vec()), 1);
    assert!(out.is_empty());
    st.handle_ready(&prm, 0, 7, 3, &b"x".to_vec(), &mut out);
    st.handle_ready(&prm, 0, 7, 3, &b"x".to_vec(), &mut out);
    assert_eq!(st.readies.count(&b"x".to_vec()), 1);
    assert!(out.is_empty());
    let init = Msg { content: b"x".to_vec(), origin: 1 };
    st.handle_init(&prm, 0, 7, &init, &mut out);
    let after_first = out.len();
    assert!(after_first >= 1);
    st.handle_init(&prm, 0, 7, &init, &mut out);
    assert_eq!(out.len(), after_first);
}

#[test]
fn echo_quorum_sends_ready_and_ready_quorum_delivers_once() {
    let prm = Params::new(4, 1).unwrap();
    assert_eq!(prm.quorum(), 3);
    assert_eq!(prm.weak(), 2);
    let mut st = RBCState::new();
    let mut out = Vec::new();
    let p = b"v".to_vec();
    st.handle_echo(&prm, 0, 1, 1, &p, &mut out);
    st.handle_echo(&prm, 0, 1, 2, &p, &mut out);
    assert!(out.is_empty());
    st.handle_echo(&prm, 0, 1, 3, &p, &mut out);
    assert_eq!(out.len(), 1);
    assert!(matches!(&out[0], ProtMsg::Ready(m, 1) if m.content == p && m.origin == 0));
    assert_eq!(st.status, Status::ReadySent);
    st.handle_ready(&prm, 0, 1, 1, &p, &mut out);
    assert!(st.delivered.is_none());
    st.handle_ready(&prm, 0, 1, 2, &p, &mut out);
    assert_eq!(st.delivered, Some(p.clone()));
    assert_eq!(st.status, Status::Terminated);
    st.handle_ready(&prm, 0, 1, 3, &p, &mut out);
    assert_eq!(st.delivered, Some(p.clone()));
    assert_eq!(out.len(), 1);
}

#[test]
fn weak_threshold_of_readies_amplifies() {
    let prm = Params::new(4, 1).unwrap();
    let mut st = RBCState::new();
    let mut out = Vec::new();
    let p = b"w".to_vec();
    st.handle_ready(&prm, 3, 9, 1, &p, &mut out);
    assert!(out.is_empty());
    st.handle_ready(&prm, 3, 9, 2, &p, &mut out);
    assert_eq!(out.len(), 1);
    assert!(matches!(&out[0], ProtMsg::Ready(m, 9) if m.content == p && m.origin == 3));
    // Own ready plus two: a quorum of three.
    assert_eq!(st.delivered, Some(p));
}

#[test]
fn messages_from_unknown_senders_are_dropped() {
    let mut c = Context::new(0, 4, 1, vec![], false, false).unwrap();
    let mut out = Vec::new();
    let r = c.process_msg(9, ProtMsg::Echo(Msg { content: vec![1], origin: 9 }, 5), &mut out);
    assert!(r.is_none());
    assert!(out.is_empty());
    assert_eq!(c.status(5), Status::Waiting);
}

#[test]
fn context_and_params_reject_bad_sizes() {
    assert!(Params::new(3, 1).is_none());
    assert!(Params::new(4, 1).is_some());
    assert!(Context::new(4, 4, 1, vec![], false, false).is_none());
    assert!(Context::new(0, 3, 1, vec![], false, false).is_none());
    let c = Context::new(2, 4, 1, b"m".to_vec(), true, true).unwrap();
    assert!(c.byz && c.crash);
    let c7 = Context::new(5, 7, 2, vec![], true, false).unwrap();
    assert!(c7.byz && !c7.crash);
    assert_eq!(c.max_id, 20000);
    assert_eq!(c.next_instance_id(), Some(20001));
    let c = Context::new(0, 4, 1, vec![], true, true).unwrap();
    assert!(c.byz && c.crash);
}

#[test]
fn byzantine_node_zeroes_inits_to_others_only() {
    let mut c = Context::new(0, 4, 1, vec![], true, false).unwrap();
    assert!(c.byz);
    let m = ProtMsg::Init(Msg { content: vec![5, 6, 7], origin: 0 }, 1);
    assert!(matches!(c.outgoing(1, &m), ProtMsg::Init(x, 1) if x.content == vec![0, 0, 0]));
    assert!(matches!(c.outgoing(0, &m), ProtMsg::Init(x, 1) if x.content == vec![5, 6, 7]));
    let e = ProtMsg::Echo(Msg { content: vec![5], origin: 0 }, 1);
    assert!(matches!(c.outgoing(1, &e), ProtMsg::Echo(x, 1) if x.content == vec![5]));
    c.byz = false;
    assert!(matches!(c.outgoing(1, &m), ProtMsg::Init(x, 1) if x.content == vec![5, 6, 7]));
}
