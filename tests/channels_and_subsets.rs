use vss::communication::{BroadcastChannel, BroadcastMessage, PrivateChannel};
use vss::rand_extr::{generate_subsets, Publisher};

#[test]
fn broadcast_round_is_read_back() {
    let mut bc = BroadcastChannel::new();
    assert!(bc.read_round(1).is_none());
    bc.store_round(1, vec![BroadcastMessage { sender: 3, payload: vec![1, 2] }]);
    bc.store_round(2, vec![]);
    let r1 = bc.read_round(1).unwrap();
    assert_eq!(r1.len(), 1);
    assert_eq!(r1[0].sender, 3);
    assert_eq!(r1[0].payload, vec![1, 2]);
    assert_eq!(bc.read_round(2).unwrap().len(), 0);
    assert!(bc.read_round(3).is_none());
}

#[test]
fn broadcast_round_stored_again_supersedes() {
    let mut bc = BroadcastChannel::new();
    bc.store_round(5, vec![BroadcastMessage { sender: 1, payload: vec![9] }]);
    bc.store_round(5, vec![BroadcastMessage { sender: 2, payload: vec![8] }]);
    let r = bc.read_round(5).unwrap();
    assert_eq!(r.len(), 1);
    assert_eq!(r[0].sender, 2);
}

#[test]
fn private_channel_holds_last_message() {
    let mut pc = PrivateChannel::new();
    assert!(pc.read_msg_from_round().is_none());
    pc.store_msg(&vec![1, 2, 3]);
    pc.store_msg(&vec![4]);
    assert_eq!(pc.read_msg_from_round(), &Some(vec![4u8]));
}

#[test]
fn subsets_in_lexicographic_order() {
    let mut all = Vec::new();
    let mut cur = Vec::new();
    generate_subsets(4, 3, 1, &mut cur, &mut all);
    assert!(cur.is_empty());
    assert_eq!(all, vec![vec![1, 2, 3], vec![1, 2, 4], vec![1, 3, 4], vec![2, 3, 4]]);
}

#[test]
fn subsets_count_is_binomial() {
    let mut all = Vec::new();
    let mut cur = Vec::new();
    generate_subsets(7, 5, 1, &mut cur, &mut all);
    assert_eq!(all.len(), 21);
    assert!(all.iter().all(|s| s.len() == 5 && s.windows(2).all(|w| w[0] < w[1])));
}

#[test]
fn subsets_extend_prefix() {
    let mut all = vec![vec![0]];
    let mut cur = vec![2];
    generate_subsets(4, 2, 3, &mut cur, &mut all);
    assert_eq!(cur, vec![2]);
    assert_eq!(all, vec![vec![0], vec![2, 3], vec![2, 4]]);
}

#[test]
fn publisher_picks_its_subsets() {
    let mut p = Publisher::new(1, 1);
    p.init();
    assert_eq!(p.all_subsets.len(), 4);
    assert_eq!(p.my_subsets, vec![0, 1, 2]);
}

#[test]
fn publisher_takes_strict_majority() {
    let mut p = Publisher::new(1, 4);
    p.init();
    assert_eq!(p.my_subsets, vec![1, 2, 3]);
    // votes[v - 1][s]: verifier v's bit for subset s
    let votes = vec![
        vec![None, Some(1), Some(0), None],
        vec![None, Some(1), None, Some(0)],
        vec![None, None, Some(1), Some(0)],
        vec![None, Some(0), Some(1), Some(1)],
    ];
    let out = p.process(&votes);
    assert_eq!(out, vec![(1, 1), (2, 1), (3, 0)]);
}
