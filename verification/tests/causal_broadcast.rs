use axiom_core::{CausalProcess, GCounter, Network, ReplicaId};

fn rid(n: u64) -> ReplicaId {
    ReplicaId(n)
}

#[test]
fn buffers_until_causal_dependency_arrives() {
    let mut a = CausalProcess::new(rid(0));
    let m1 = a.broadcast("op1");
    let m2 = a.broadcast("op2");

    let mut b = CausalProcess::new(rid(1));
    assert!(b.receive(m2).is_empty());
    assert_eq!(b.buffered(), 1);

    assert_eq!(b.receive(m1), vec!["op1", "op2"]);
    assert_eq!(b.buffered(), 0);
}

#[test]
fn first_message_from_a_replica_delivers_immediately() {
    let mut a = CausalProcess::new(rid(0));
    let m = a.broadcast("hello");
    let mut b = CausalProcess::new(rid(1));
    assert_eq!(b.receive(m), vec!["hello"]);
}

#[test]
fn a_reply_waits_for_the_message_it_answers() {
    let mut a = CausalProcess::new(rid(0));
    let mut b = CausalProcess::new(rid(1));
    let mut c = CausalProcess::new(rid(2));
    let question = a.broadcast("q");
    assert_eq!(b.receive(question.clone()), vec!["q"]);
    let answer = b.broadcast("a");
    assert!(c.receive(answer).is_empty());
    assert_eq!(c.buffered(), 1);
    assert_eq!(c.receive(question), vec!["q", "a"]);
    assert_eq!(c.clock().get(rid(0)), 1);
    assert_eq!(c.clock().get(rid(1)), 1);
    assert_eq!(c.id(), rid(2));
}

#[test]
fn network_hands_out_messages_by_index_modulo_length() {
    let mut a = CausalProcess::new(rid(0));
    let m = a.broadcast(5u8);
    let mut net: Network<u8> = Network::new();
    assert!(net.is_empty());
    assert!(net.take(3).is_none());
    net.broadcast(vec![rid(1), rid(2), rid(3)], m);
    assert_eq!(net.len(), 3);
    let (t, msg) = net.take(4).unwrap();
    assert_eq!(t, rid(2));
    assert_eq!(msg.op, 5);
    assert_eq!(net.len(), 2);
}

#[test]
fn gcounter_converges_when_ops_flow_through_causal_broadcast() {
    let n = 3usize;
    let mut procs: Vec<CausalProcess<axiom_core::GCounterOp>> =
        (0..n).map(|i| CausalProcess::new(rid(i as u64))).collect();
    let mut crdts: Vec<GCounter> = (0..n).map(|i| GCounter::new(rid(i as u64))).collect();
    let mut net = Network::new();
    for step in 0..9usize {
        let i = step % n;
        let op = crdts[i].increment();
        let msg = procs[i].broadcast(op);
        let targets: Vec<ReplicaId> = (0..n).filter(|&j| j != i).map(|j| rid(j as u64)).collect();
        net.broadcast(targets, msg);
        if step % 2 == 1 {
            if let Some((t, msg)) = net.take(step * 7) {
                let ti = t.0 as usize;
                for op in procs[ti].receive(msg) {
                    crdts[ti].apply(&op);
                }
            }
        }
    }
    while let Some((t, msg)) = net.take(1) {
        let ti = t.0 as usize;
        for op in procs[ti].receive(msg) {
            crdts[ti].apply(&op);
        }
    }
    for p in &procs {
        assert_eq!(p.buffered(), 0);
    }
    let s0 = crdts[0].tla_state();
    for c in &crdts {
        assert_eq!(c.tla_state(), s0);
    }
    assert_eq!(crdts[0].value(), 9);
}

#[test]
fn after_a_receive_nothing_buffered_could_still_be_delivered() {
    let mut a = CausalProcess::new(rid(0));
    let m1 = a.broadcast("1");
    let m2 = a.broadcast("2");
    let m3 = a.broadcast("3");
    let mut b = CausalProcess::new(rid(1));
    assert!(b.receive(m3).is_empty());
    assert!(b.receive(m2).is_empty());
    assert_eq!(b.buffered(), 2);
    assert_eq!(b.receive(m1), vec!["1", "2", "3"]);
    assert_eq!(b.buffered(), 0);
    assert_eq!(b.clock().get(rid(0)), 3);
}

#[test]
fn a_default_network_is_empty() {
    let net: Network<u8> = Network::default();
    assert!(net.is_empty());
    assert_eq!(net.len(), 0);
}

#[test]
fn messages_compare_by_sender_clock_and_op() {
    let mut a = CausalProcess::new(rid(0));
    let m = a.broadcast(7u8);
    assert_eq!(m.clone(), m);
    let mut b = CausalProcess::new(rid(0));
    let n = b.broadcast(8u8);
    assert_ne!(m, n);
}
