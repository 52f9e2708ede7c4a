use vss::field::Fe;
use vss::vss::{
    Client, Dealer, FaultKind, PubParams, Receiver, Reconstructor, Subshare, VSS,
};

fn params(t: u64) -> PubParams {
    PubParams { t, n: 3 * t + 1, n_parties_total: 5 * t + 4 }
}

type Grid = Vec<Vec<Option<Subshare>>>;

/// Runs dealer and receivers; returns the triply-signed rows and the keys.
fn deal_and_cross_check(pp: PubParams, secret: u64) -> (Grid, Vec<Vec<u8>>, Vec<Receiver>, Grid) {
    let n = pp.n;
    let mut dealer = Dealer::new(pp, Fe::from_u64(secret));
    let (shares, pk) = dealer.share();
    let mut pki = vec![pk];
    let mut signed: Grid = Vec::new();
    let mut triple: Grid = Vec::new();
    let mut receivers = Vec::new();
    for i in 1..=n {
        let mut r = Receiver::new(i, pp);
        let (row, pk_i) = r.receive_from_dealer(&pki[0], &shares[(i - 1) as usize]);
        pki.push(pk_i);
        signed.push(row);
        let mut expanded: Vec<Option<Subshare>> = (0..n).map(|_| None).collect();
        for j in 1..=i {
            let s = signed[(j - 1) as usize][(i - 1) as usize].as_ref().unwrap();
            let (happy, e) = r.receive_from_party(j, s, &pki[0], &pki[j as usize]);
            assert!(happy);
            expanded[(j - 1) as usize] = Some(e);
        }
        triple.push(expanded);
        receivers.push(r);
    }
    (triple, pki, receivers, signed)
}

fn forge(grid: &mut Grid, hi: u64, lo: u64) {
    let s = grid[(hi - 1) as usize][(lo - 1) as usize].as_mut().unwrap();
    s.value = Fe::from_u64(s.value.l0.wrapping_add(1) % 1000);
}

#[test]
fn full_pipeline_recovers_secret() {
    let vss = VSS { secret: Fe::from_u64(42), pp: params(1), execution_leaks: false };
    let (ok, secret) = vss.execute();
    assert!(ok);
    assert_eq!(secret, Fe::from_u64(42));
}

#[test]
fn full_pipeline_recovers_secret_larger_threshold() {
    let vss = VSS { secret: Fe::from_u64(123456789), pp: params(3), execution_leaks: false };
    assert_eq!(vss.execute(), (true, Fe::from_u64(123456789)));
}

#[test]
fn honest_receivers_then_client_recovers() {
    let pp = params(1);
    let (grid, pki, receivers, _) = deal_and_cross_check(pp, 42);
    for r in &receivers {
        assert!(r.faults.is_empty());
    }
    let client = Client::new(pp);
    assert_eq!(client.compute_secret(&grid, &pki), (true, Fe::from_u64(42)));
}

#[test]
fn one_forged_pair_is_tolerated() {
    let pp = params(1);
    let (mut grid, pki, _, _) = deal_and_cross_check(pp, 42);
    forge(&mut grid, 3, 2);
    let client = Client::new(pp);
    assert_eq!(client.compute_secret(&grid, &pki), (true, Fe::from_u64(42)));
}

#[test]
fn forged_row_of_one_receiver_is_tolerated() {
    let pp = params(1);
    let (mut grid, pki, _, _) = deal_and_cross_check(pp, 42);
    for lo in 1..=3 {
        forge(&mut grid, 3, lo);
    }
    forge(&mut grid, 4, 3);
    let client = Client::new(pp);
    assert_eq!(client.compute_secret(&grid, &pki), (true, Fe::from_u64(42)));
}

#[test]
fn two_forging_receivers_make_secret_unrecoverable() {
    let pp = params(1);
    let (mut grid, pki, _, _) = deal_and_cross_check(pp, 42);
    for (hi, lo) in [(2, 1), (2, 2), (3, 1), (3, 2), (3, 3), (4, 2), (4, 3)] {
        forge(&mut grid, hi, lo);
    }
    let client = Client::new(pp);
    let (ok, value) = client.compute_secret(&grid, &pki);
    assert!(!ok);
    assert_eq!(value, Fe::zero());
}

#[test]
fn missing_rows_make_secret_unrecoverable() {
    let pp = params(1);
    let (grid, pki, _, _) = deal_and_cross_check(pp, 42);
    let empty: Grid = grid.iter().map(|row| row.iter().map(|_| None).collect()).collect();
    let client = Client::new(pp);
    assert_eq!(client.compute_secret(&empty, &pki), (false, Fe::zero()));
}

#[test]
fn chain_verifies_only_with_all_three_signatures() {
    let pp = params(1);
    let (grid, pki, _, _) = deal_and_cross_check(pp, 42);
    let s = grid[2][1].as_ref().unwrap();
    assert!(s.verify_chain(&pki[0], &pki[2], &pki[3]));
    assert!(!s.verify_chain(&pki[0], &pki[3], &pki[2]));
    let mut no_higher = s.copy();
    no_higher.signature_higher = None;
    assert!(!no_higher.verify_chain(&pki[0], &pki[2], &pki[3]));
    let mut no_dealer = s.copy();
    no_dealer.dealer_signature = None;
    assert!(!no_dealer.verify_chain(&pki[0], &pki[2], &pki[3]));
}

#[test]
fn changed_value_breaks_every_signature() {
    let pp = params(1);
    let (grid, pki, _, _) = deal_and_cross_check(pp, 42);
    let s = grid[3][0].as_ref().unwrap();
    let mut flipped = s.copy();
    flipped.value.l0 ^= 1;
    let dealer_only = Subshare {
        value: flipped.value,
        dealer_signature: flipped.dealer_signature.clone(),
        signature_lower: flipped.dealer_signature.clone(),
        signature_higher: flipped.dealer_signature.clone(),
    };
    assert!(!flipped.verify_chain(&pki[0], &pki[1], &pki[4]));
    assert!(!dealer_only.verify_chain(&pki[0], &pki[0], &pki[0]));
}

#[test]
fn dealer_grid_is_symmetric_and_singly_signed() {
    let pp = params(1);
    let mut dealer = Dealer::new(pp, Fe::from_u64(42));
    let (shares, pk) = dealer.share();
    assert_eq!(pk.len(), 32);
    assert_eq!(shares.len(), 4);
    for i in 0..4 {
        assert_eq!(shares[i].len(), 4);
        for j in 0..4 {
            assert_eq!(shares[i][j].value, shares[j][i].value);
            assert_eq!(shares[i][j].dealer_signature.as_ref().unwrap().len(), 64);
            assert!(shares[i][j].signature_lower.is_none());
            assert!(shares[i][j].signature_higher.is_none());
        }
    }
}

#[test]
fn receiver_flags_bad_dealer_signature() {
    let pp = params(1);
    let mut dealer = Dealer::new(pp, Fe::from_u64(42));
    let (mut shares, pk) = dealer.share();
    shares[0][2].dealer_signature = Some(vec![0u8; 64]);
    let mut r = Receiver::new(1, pp);
    let (row, _) = r.receive_from_dealer(&pk, &shares[0]);
    assert_eq!(r.faults.len(), 1);
    assert_eq!(r.faults[0].kind, FaultKind::SignatureMismatch);
    assert_eq!(r.faults[0].party, 0);
    assert!(row.iter().all(|o| o.is_some()));
}

#[test]
fn receiver_flags_degree_violation() {
    let pp = params(1);
    let mut dealer = Dealer::new(pp, Fe::from_u64(42));
    let (mut shares, pk) = dealer.share();
    let v = shares[1][3].value;
    shares[1][3].value = Fe::from_u64(v.l0 ^ 1);
    let mut r = Receiver::new(2, pp);
    let (row, _) = r.receive_from_dealer(&pk, &shares[1]);
    let kinds: Vec<FaultKind> = r.faults.iter().map(|f| f.kind).collect();
    assert_eq!(kinds, vec![FaultKind::SignatureMismatch, FaultKind::DegreeViolation]);
    assert!(row[0].is_none());
    assert!(row[1].is_some() && row[3].is_some());
}

#[test]
fn receiver_flags_value_inconsistency() {
    let pp = params(1);
    let (_, pki, mut receivers, signed) = deal_and_cross_check(pp, 42);
    let before = receivers[1].faults.len();
    receivers[1].share[0].value = Fe::from_u64(7);
    let from_first = signed[0][1].as_ref().unwrap();
    let (happy, out) = receivers[1].receive_from_party(1, from_first, &pki[0], &pki[1]);
    assert!(!happy);
    assert_eq!(receivers[1].faults.len(), before + 1);
    assert_eq!(receivers[1].faults[before].kind, FaultKind::ValueInconsistency);
    assert_eq!(receivers[1].faults[before].party, 1);
    assert_eq!(out.value, from_first.value);
    assert!(out.signature_higher.is_some());
}

#[test]
fn receiver_flags_forged_peer_value() {
    let pp = params(1);
    let (_, pki, mut receivers, signed) = deal_and_cross_check(pp, 42);
    let mut other = signed[0][1].as_ref().unwrap().copy();
    other.value = Fe::from_u64(7);
    let (happy, out) = receivers[1].receive_from_party(1, &other, &pki[0], &pki[1]);
    assert!(!happy);
    assert_eq!(receivers[1].faults.last().unwrap().kind, FaultKind::SignatureMismatch);
    assert!(out.signature_higher.is_some());
}

#[test]
fn reconstructor_drops_unverifiable_entries() {
    let pp = params(1);
    let (mut grid, pki, _, _) = deal_and_cross_check(pp, 42);
    forge(&mut grid, 3, 2);
    let mut rec = Reconstructor::new(pp);
    let out = rec.receive_from_party(3, &grid[2], &pki);
    assert_eq!(rec.faults.len(), 1);
    assert_eq!(rec.faults[0].kind, FaultKind::SignatureMismatch);
    assert_eq!(rec.faults[0].party, 3);
    assert_eq!(out.len(), 4);
    assert!(out[0].is_some());
    assert!(out[1].is_none());
    assert!(out[2].is_some());
    assert!(out[3].is_none());
}

#[test]
fn dealer_grid_is_reproducible() {
    let pp = params(2);
    let (a, pk_a) = Dealer::new(pp, Fe::from_u64(5)).share();
    let (b, pk_b) = Dealer::new(pp, Fe::from_u64(5)).share();
    assert_ne!(pk_a, pk_b);
    for i in 0..7 {
        for j in 0..7 {
            assert_eq!(a[i][j].value, b[i][j].value);
        }
    }
}

#[test]
fn reconstructor_keeps_verified_rows_without_faults() {
    let pp = params(1);
    let (grid, pki, _, _) = deal_and_cross_check(pp, 42);
    let mut rec = Reconstructor::new(pp);
    for from in 1..=4u64 {
        let out = rec.receive_from_party(from, &grid[(from - 1) as usize], &pki);
        for j in 0..4u64 {
            assert_eq!(out[j as usize].is_some(), j < from);
        }
    }
    assert!(rec.faults.is_empty());
}

#[test]
fn receiver_keeps_whole_row_and_signs_under_its_key() {
    let pp = params(1);
    let mut dealer = Dealer::new(pp, Fe::from_u64(42));
    let (shares, pk) = dealer.share();
    let mut r = Receiver::new(2, pp);
    let (row, my_pk) = r.receive_from_dealer(&pk, &shares[1]);
    assert_eq!(my_pk.len(), 32);
    for k in 0..4 {
        assert_eq!(r.share[k].value, shares[1][k].value);
        assert_eq!(r.share[k].dealer_signature, shares[1][k].dealer_signature);
    }
    let s = row[2].as_ref().unwrap();
    let mut probe = s.copy();
    probe.signature_higher = probe.signature_lower.clone();
    assert!(probe.verify_chain(&pk, &my_pk, &my_pk));
}
