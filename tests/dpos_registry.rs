use dpos_poh::dpos::{Delegate, DelegatedProofOfStake};

fn d(id: u64, votes: u64) -> Delegate {
    Delegate { id, votes }
}

#[test]
fn top_delegates_example() {
    let mut dpos = DelegatedProofOfStake::new();
    dpos.add_stakeholder(1, 100);
    dpos.add_stakeholder(2, 200);
    dpos.add_stakeholder(3, 300);
    dpos.add_delegate(11);
    dpos.add_delegate(12);
    dpos.add_delegate(13);
    assert!(dpos.vote(1, 11));
    assert!(dpos.vote(2, 12));
    assert!(dpos.vote(3, 13));
    assert_eq!(dpos.get_top_delegates(3), vec![d(13, 300), d(12, 200), d(11, 100)]);
}

#[test]
fn top_zero_is_empty() {
    let mut dpos = DelegatedProofOfStake::new();
    dpos.add_stakeholder(1, 5);
    dpos.add_delegate(7);
    assert!(dpos.vote(1, 7));
    assert!(dpos.get_top_delegates(0).is_empty());
}

#[test]
fn top_more_than_count_returns_all_ranked() {
    let mut dpos = DelegatedProofOfStake::new();
    dpos.add_stakeholder(1, 10);
    dpos.add_stakeholder(2, 30);
    dpos.add_delegate(1);
    dpos.add_delegate(2);
    dpos.add_delegate(3);
    assert!(dpos.vote(1, 1));
    assert!(dpos.vote(2, 3));
    assert_eq!(dpos.get_top_delegates(10), vec![d(3, 30), d(1, 10), d(2, 0)]);
}

#[test]
fn top_truncates_to_n() {
    let mut dpos = DelegatedProofOfStake::new();
    dpos.add_stakeholder(1, 10);
    dpos.add_stakeholder(2, 30);
    dpos.add_delegate(1);
    dpos.add_delegate(2);
    dpos.add_delegate(3);
    assert!(dpos.vote(1, 1));
    assert!(dpos.vote(2, 3));
    assert_eq!(dpos.get_top_delegates(2), vec![d(3, 30), d(1, 10)]);
}

#[test]
fn ties_keep_registration_order() {
    let mut dpos = DelegatedProofOfStake::new();
    dpos.add_stakeholder(1, 50);
    dpos.add_stakeholder(2, 50);
    dpos.add_stakeholder(3, 80);
    for id in [40, 30, 20, 10] {
        dpos.add_delegate(id);
    }
    assert!(dpos.vote(1, 20));
    assert!(dpos.vote(2, 30));
    assert!(dpos.vote(3, 10));
    assert_eq!(
        dpos.get_top_delegates(4),
        vec![d(10, 80), d(30, 50), d(20, 50), d(40, 0)]
    );
}

#[test]
fn empty_registry_ranks_nothing() {
    let dpos = DelegatedProofOfStake::new();
    assert!(dpos.get_top_delegates(5).is_empty());
}

#[test]
fn unknown_stakeholder_vote_fails() {
    let mut dpos = DelegatedProofOfStake::new();
    dpos.add_stakeholder(1, 100);
    dpos.add_delegate(11);
    assert!(!dpos.vote(2, 11));
    assert_eq!(dpos.delegates(), &[d(11, 0)][..]);
}

#[test]
fn unknown_delegate_vote_fails() {
    let mut dpos = DelegatedProofOfStake::new();
    dpos.add_stakeholder(1, 100);
    dpos.add_delegate(11);
    assert!(dpos.vote(1, 11));
    assert!(!dpos.vote(1, 12));
    assert_eq!(dpos.delegates(), &[d(11, 100)][..]);
}

#[test]
fn repeated_vote_counts_twice() {
    let mut dpos = DelegatedProofOfStake::new();
    dpos.add_stakeholder(1, 100);
    dpos.add_delegate(11);
    assert!(dpos.vote(1, 11));
    assert!(dpos.vote(1, 11));
    assert_eq!(dpos.delegates(), &[d(11, 200)][..]);
}

#[test]
fn vote_conservation_over_mixed_calls() {
    let mut dpos = DelegatedProofOfStake::new();
    dpos.add_stakeholder(1, 7);
    dpos.add_stakeholder(2, 11);
    dpos.add_delegate(100);
    dpos.add_delegate(200);
    assert!(dpos.vote(1, 100));
    assert!(dpos.vote(2, 100));
    assert!(!dpos.vote(3, 200));
    dpos.add_stakeholder(1, 20);
    assert!(dpos.vote(1, 200));
    assert!(dpos.vote(2, 200));
    assert_eq!(dpos.delegates(), &[d(100, 18), d(200, 31)][..]);
}

#[test]
fn restake_overwrites() {
    let mut dpos = DelegatedProofOfStake::new();
    dpos.add_stakeholder(1, 100);
    dpos.add_stakeholder(1, 5);
    assert_eq!(dpos.stake_of(1), Some(5));
    assert_eq!(dpos.stake_of(2), None);
}

#[test]
fn duplicate_delegate_is_ignored() {
    let mut dpos = DelegatedProofOfStake::new();
    dpos.add_stakeholder(1, 9);
    dpos.add_delegate(11);
    assert!(dpos.vote(1, 11));
    dpos.add_delegate(11);
    assert_eq!(dpos.delegates(), &[d(11, 9)][..]);
}

#[test]
fn zero_stake_vote_succeeds() {
    let mut dpos = DelegatedProofOfStake::new();
    dpos.add_stakeholder(1, 0);
    dpos.add_delegate(11);
    assert!(dpos.vote(1, 11));
    assert_eq!(dpos.delegates(), &[d(11, 0)][..]);
}

#[test]
fn overflowing_vote_is_refused() {
    let mut dpos = DelegatedProofOfStake::new();
    dpos.add_stakeholder(1, u64::MAX);
    dpos.add_stakeholder(2, 1);
    dpos.add_delegate(11);
    assert!(dpos.vote(1, 11));
    assert!(!dpos.vote(2, 11));
    assert_eq!(dpos.delegates(), &[d(11, u64::MAX)][..]);
}
