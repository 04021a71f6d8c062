use std::collections::VecDeque;

use rbc::bracha::Status;
use rbc::ctrbc::{CTRBCMsg, Context, CtState, Dest, ProtMsg, ReadyMsg};
use rbc::merkle::construct_merkle_tree;
use rbc::quorum::Params;

struct Net {
    nodes: Vec<Context>,
    queue: VecDeque<(usize, usize, ProtMsg)>,
    delivered: Vec<Vec<(usize, Vec<u8>)>>,
}

fn instance_of(m: &ProtMsg) -> usize {
    match m {
        ProtMsg::Init(_, id) | ProtMsg::Echo(_, id) | ProtMsg::Ready(_, id) => *id,
    }
}

impl Net {
    fn new(n: usize, f: usize) -> Net {
        Net::with_flags(n, f, &[], &[])
    }

    fn with_flags(n: usize, f: usize, byz: &[usize], crash: &[usize]) -> Net {
        let nodes = (0..n)
            .map(|i| Context::new(i, n, f, vec![], byz.contains(&i), crash.contains(&i)).unwrap())
            .collect();
        Net { nodes, queue: VecDeque::new(), delivered: vec![vec![]; n] }
    }

    fn fan_out(&mut self, from: usize, out: Vec<(Dest, ProtMsg)>) {
        for (dest, m) in out {
            match dest {
                Dest::One(peer) => self.queue.push_back((from, peer, m)),
                Dest::All => {
                    for peer in 0..self.nodes.len() {
                        if peer != from {
                            self.queue.push_back((from, peer, m.clone()));
                        }
                    }
                }
            }
        }
    }

    fn start(&mut self, dealer: usize, value: &[u8]) -> usize {
        let mut out = Vec::new();
        let (id, d) = self.nodes[dealer].start(value.to_vec(), &mut out);
        if let Some(d) = d {
            self.delivered[dealer].push((id, d));
        }
        self.fan_out(dealer, out);
        id
    }

    fn step(&mut self, from: usize, to: usize, m: ProtMsg) {
        let id = instance_of(&m);
        let mut out = Vec::new();
        if let Some(d) = self.nodes[to].process_msg(from, m, &mut out) {
            self.delivered[to].push((id, d));
        }
        self.fan_out(to, out);
    }

    fn run(&mut self) {
        let mut steps = 0;
        while let Some((from, to, m)) = self.queue.pop_front() {
            self.step(from, to, m);
            steps += 1;
            assert!(steps < 100_000);
        }
    }
}

#[test]
fn ct_all_honest_deliver_hello() {
    let mut net = Net::new(4, 1);
    let id = net.start(0, b"hello");
    net.run();
    for i in 0..4 {
        assert_eq!(net.delivered[i], vec![(id, b"hello".to_vec())]);
        assert_eq!(net.nodes[i].status(id), Status::Terminated);
    }
}

#[test]
fn ct_zeroed_echoes_are_outvoted() {
    let mut net = Net::with_flags(7, 2, &[5, 6], &[]);
    assert!(net.nodes[5].byz && net.nodes[6].byz);
    let id = net.start(0, &[0x01, 0x02, 0x03]);
    net.run();
    for i in 0..5 {
        assert_eq!(net.delivered[i], vec![(id, vec![0x01, 0x02, 0x03])]);
    }
}

#[test]
fn ct_byzantine_dealer_cannot_split_honest_nodes() {
    let mut net = Net::with_flags(4, 1, &[0], &[]);
    let _id = net.start(0, b"payload");
    net.run();
    let got: Vec<_> = (1..4).map(|i| net.delivered[i].clone()).collect();
    assert!(got.iter().all(|d| d == &got[0]));
}

#[test]
fn ct_crashed_node_does_not_block_delivery() {
    let mut net = Net::with_flags(4, 1, &[], &[2]);
    assert!(net.nodes[2].crash);
    let id = net.start(0, b"crash");
    net.run();
    for i in [0usize, 1, 3] {
        assert_eq!(net.delivered[i], vec![(id, b"crash".to_vec())]);
    }
    // Node 2 never echoed: only the three others are counted.
    let st = net.nodes[0].rbc_context.lookup(id).unwrap();
    let root = st.terminated_root.clone().unwrap();
    assert_eq!(st.echoes.count(&root), 3);
}

#[test]
fn ct_concurrent_instances_stay_apart() {
    let mut net = Net::new(4, 1);
    let a = net.start(0, b"first instance");
    let b = net.start(1, b"second");
    net.run();
    for i in 0..4 {
        let mut got = net.delivered[i].clone();
        got.sort();
        assert_eq!(got, vec![(a, b"first instance".to_vec()), (b, b"second".to_vec())]);
    }
}

#[test]
fn ct_late_node_receives_readies_first() {
    let mut net = Net::new(4, 1);
    let id = net.start(0, b"late join");
    let mut held = Vec::new();
    while let Some((from, to, m)) = net.queue.pop_front() {
        if to == 3 && !matches!(m, ProtMsg::Ready(..)) {
            held.push((from, to, m));
            continue;
        }
        net.step(from, to, m);
    }
    // Enough readies, but no shards yet: ready sent, delivery deferred.
    assert_eq!(net.nodes[3].status(id), Status::ReadySent);
    assert!(net.delivered[3].is_empty());
    for (from, to, m) in held {
        net.step(from, to, m);
    }
    net.run();
    for i in 0..4 {
        assert_eq!(net.delivered[i], vec![(id, b"late join".to_vec())]);
    }
}

fn dealer_msgs(n: usize, f: usize, payload: &[u8]) -> Vec<CTRBCMsg> {
    let mut c = Context::new(0, n, f, vec![], false, false).unwrap();
    let mut out = Vec::new();
    c.start_init(payload.to_vec(), 1, &mut out);
    let mut msgs = Vec::new();
    for (_, m) in out {
        if let ProtMsg::Init(m, _) = m {
            msgs.push(m);
        }
    }
    msgs
}

#[test]
fn ct_invalid_proofs_are_dropped() {
    let prm = Params::new(4, 1).unwrap();
    let msgs = dealer_msgs(4, 1, b"abc");
    assert_eq!(msgs.len(), 3);
    let mut bad = msgs[0].copy();
    bad.shard[0] ^= 1;
    assert!(msgs[0].verify_mr_proof(4));
    assert!(!bad.verify_mr_proof(4));
    assert!(!msgs[0].verify_mr_proof(5));
    let mut st = CtState::new();
    let mut out = Vec::new();
    st.handle_echo(&prm, 0, 1, 1, &bad, &mut out);
    assert_eq!(st.echoes.count(&bad.mp.root), 0);
    st.handle_init(&prm, 0, 1, false, false, &bad, &mut out);
    assert_eq!(st.status, Status::Waiting);
    assert!(out.is_empty());
}

#[test]
fn ct_replayed_messages_change_nothing() {
    let prm = Params::new(4, 1).unwrap();
    let msgs = dealer_msgs(4, 1, b"abc");
    let root = msgs[0].mp.root.clone();
    let mut st = CtState::new();
    let mut out = Vec::new();
    st.handle_echo(&prm, 0, 1, 1, &msgs[0], &mut out);
    st.handle_echo(&prm, 0, 1, 1, &msgs[0], &mut out);
    assert_eq!(st.echoes.count(&root), 1);
    assert_eq!(st.shards.len(), 1);
    let r = ReadyMsg { root: root.clone(), origin: 2 };
    st.handle_ready(&prm, 0, 1, 2, &r, &mut out);
    st.handle_ready(&prm, 0, 1, 2, &r, &mut out);
    assert_eq!(st.readies.count(&root), 1);
    assert!(out.is_empty());
}

#[test]
fn ct_dealer_sends_each_peer_its_own_shard() {
    let msgs = dealer_msgs(4, 1, b"some payload bytes");
    let root = msgs[0].mp.root.clone();
    for (j, m) in msgs.iter().enumerate() {
        assert_eq!(m.mp.index, j + 1);
        assert_eq!(m.mp.root, root);
        assert_eq!(m.origin, 0);
        assert!(m.verify_mr_proof(4));
    }
    let shards = rbc::erasure::get_shards(b"some payload bytes".to_vec(), 2, 2);
    let tree = construct_merkle_tree(&shards);
    assert_eq!(tree.root(), root);
}

#[test]
fn ct_context_rejects_unsupported_sizes() {
    assert!(Context::new(0, 1, 0, vec![], false, false).is_none());
    assert!(Context::new(0, 300, 1, vec![], false, false).is_none());
    assert!(Context::new(0, 3, 1, vec![], false, false).is_none());
    assert!(Context::new(0, 2, 0, vec![], false, false).is_some());
}
