use std::collections::HashMap;
use vstd::prelude::*;

verus! {

broadcast use vstd::std_specs::hash::group_hash_axioms;

/// A stakeholder and the stake it votes with.
#[derive(Debug, Clone, Copy, PartialEq, Eq, Hash)]
pub struct Stakeholder {
    pub id: u64,
    pub stake: u64,
}

/// A delegate and the total stake voted for it.
#[derive(Debug, Clone, Copy, PartialEq, Eq, Hash)]
pub struct Delegate {
    pub id: u64,
    pub votes: u64,
}

/// Sum of the stakes of the ballots in `log` cast for delegate `id`. A
/// ballot is `(delegate id, stake)`.
pub open spec fn tally(log: Seq<(u64, u64)>, id: u64) -> nat
    decreases log.len(),
{
    if log.len() == 0 {
        0
    } else {
        tally(log.drop_last(), id) + if log.last().0 == id {
            log.last().1 as nat
        } else {
            0nat
        }
    }
}

/// Some delegate of `ds` has identity `id`.
pub open spec fn has_delegate(ds: Seq<Delegate>, id: u64) -> bool {
    exists|i: int| 0 <= i < ds.len() && ds[i].id == id
}

/// No two delegates of `ds` share an identity.
pub open spec fn unique_ids(ds: Seq<Delegate>) -> bool {
    forall|i: int, j: int| 0 <= i < j < ds.len() ==> ds[i].id != ds[j].id
}

/// Delegate `id` exists in `ds` and its total can take `stake` more without
/// passing `u64::MAX`.
pub open spec fn vote_fits(ds: Seq<Delegate>, id: u64, stake: u64) -> bool {
    exists|i: int| 0 <= i < ds.len() && ds[i].id == id && ds[i].votes + stake <= u64::MAX
}


/// Delegate `i` of `ds` ranks ahead of delegate `j`: more votes, or as many
/// and registered earlier.
pub open spec fn ranks_before(ds: Seq<Delegate>, i: int, j: int) -> bool {
    ds[i].votes > ds[j].votes || (ds[i].votes == ds[j].votes && i < j)
}

/// `p` lists positions of `ds` from the best ranked on, each ahead of the
/// next, and every position left out ranks behind all of those listed.
pub open spec fn is_ranking_prefix(ds: Seq<Delegate>, p: Seq<int>) -> bool {
    &&& forall|k: int| 0 <= k < p.len() ==> 0 <= #[trigger] p[k] < ds.len()
    &&& forall|k: int, l: int| 0 <= k < l < p.len() ==> ranks_before(ds, p[k], p[l])
    &&& forall|k: int, j: int|
        0 <= k < p.len() && 0 <= j < ds.len() && !p.contains(j) ==> ranks_before(ds, p[k], j)
}

/// `r` is the first `min(n, |ds|)` delegates of `ds` in ranked order: by
/// descending vote total, equal totals in registration order.
pub open spec fn is_top(ds: Seq<Delegate>, n: nat, r: Seq<Delegate>) -> bool {
    &&& r.len() == if n < ds.len() {
        n
    } else {
        ds.len()
    }
    &&& exists|p: Seq<int>|
        is_ranking_prefix(ds, p) && p.len() == r.len() && forall|k: int|
            0 <= k < r.len() ==> #[trigger] r[k] == ds[p[k]]
}

/// Number of `false` entries in `s`.
spec fn count_open(s: Seq<bool>) -> nat
    decreases s.len(),
{
    if s.len() == 0 {
        0
    } else {
        count_open(s.drop_last()) + if s.last() {
            0nat
        } else {
            1nat
        }
    }
}

proof fn lemma_count_open_all(n: nat)
    ensures
        count_open(Seq::new(n, |i: int| false)) == n,
    decreases n,
{
    if n > 0 {
        assert(Seq::new(n, |i: int| false).drop_last() =~= Seq::new((n - 1) as nat, |i: int| false));
        lemma_count_open_all((n - 1) as nat);
    }
}

proof fn lemma_count_open_positive(s: Seq<bool>)
    requires
        count_open(s) > 0,
    ensures
        exists|j: int| 0 <= j < s.len() && !s[j],
    decreases s.len(),
{
    if s.last() {
        lemma_count_open_positive(s.drop_last());
        let j = choose|j: int| 0 <= j < s.drop_last().len() && !s.drop_last()[j];
        assert(!s[j]);
    } else {
        assert(!s[s.len() - 1]);
    }
}

proof fn lemma_count_open_take(s: Seq<bool>, j: int)
    requires
        0 <= j < s.len(),
        !s[j],
    ensures
        count_open(s.update(j, true)) + 1 == count_open(s),
    decreases s.len(),
{
    if j < s.len() - 1 {
        assert(s.update(j, true).drop_last() =~= s.drop_last().update(j, true));
        lemma_count_open_take(s.drop_last(), j);
    } else {
        assert(s.update(j, true).drop_last() =~= s.drop_last());
    }
}


/// A ranking prefix as long as `ds` lists every position of `ds`.
proof fn lemma_full_prefix_covers(ds: Seq<Delegate>, p: Seq<int>, i: int)
    requires
        is_ranking_prefix(ds, p),
        p.len() == ds.len(),
        0 <= i < ds.len(),
    ensures
        p.contains(i),
{
    if !p.contains(i) {
        assert(p.no_duplicates()) by {
            assert forall|k: int, l: int| 0 <= k < p.len() && 0 <= l < p.len() && k != l implies p[k]
                != p[l] by {
                if k < l {
                    assert(ranks_before(ds, p[k], p[l]));
                } else {
                    assert(ranks_before(ds, p[l], p[k]));
                }
            }
        }
        p.unique_seq_to_set();
        let range = vstd::set_lib::set_int_range(0, ds.len() as int);
        vstd::set_lib::lemma_int_range(0, ds.len() as int);
        assert(p.to_set().subset_of(range.remove(i))) by {
            assert forall|x: int| p.to_set().contains(x) implies range.remove(i).contains(x) by {
                let k = choose|k: int| 0 <= k < p.len() && p[k] == x;
                assert(0 <= p[k] < ds.len());
            }
        }
        vstd::set_lib::lemma_len_subset(p.to_set(), range.remove(i));
    }
}

/// Ranking stability: a top-`n` list is ordered by descending vote total,
/// delegates with equal totals appear in registration order, a left-out
/// delegate has no more votes than any listed one, the list is empty for
/// `n == 0`, and for `n` at least the number of delegates it lists them all.
pub proof fn lemma_ranking_stability(ds: Seq<Delegate>, n: nat, r: Seq<Delegate>)
    requires
        unique_ids(ds),
        is_top(ds, n, r),
    ensures
        forall|k: int, l: int| 0 <= k < l < r.len() ==> r[k].votes >= r[l].votes,
        forall|k: int, l: int, i: int, j: int|
            0 <= k < l < r.len() && 0 <= i < ds.len() && 0 <= j < ds.len() && r[k] == ds[i] && r[l]
                == ds[j] && r[k].votes == r[l].votes ==> i < j,
        forall|i: int, k: int|
            0 <= i < ds.len() && 0 <= k < r.len() && !r.contains(ds[i]) ==> ds[i].votes
                <= r[k].votes,
        n == 0 ==> r.len() == 0,
        n >= ds.len() ==> r.len() == ds.len() && forall|i: int|
            0 <= i < ds.len() ==> r.contains(#[trigger] ds[i]),
{
    let p = choose|p: Seq<int>|
        is_ranking_prefix(ds, p) && p.len() == r.len() && forall|k: int|
            0 <= k < r.len() ==> #[trigger] r[k] == ds[p[k]];
    assert forall|k: int, l: int| 0 <= k < l < r.len() implies r[k].votes >= r[l].votes by {
        assert(ranks_before(ds, p[k], p[l]));
    }
    assert forall|k: int, l: int, i: int, j: int|
        0 <= k < l < r.len() && 0 <= i < ds.len() && 0 <= j < ds.len() && r[k] == ds[i] && r[l]
            == ds[j] && r[k].votes == r[l].votes implies i < j by {
        assert(r[k] == ds[p[k]] && r[l] == ds[p[l]]);
        assert(0 <= p[k] < ds.len() && 0 <= p[l] < ds.len());
        assert(i == p[k]);
        assert(j == p[l]);
        assert(ranks_before(ds, p[k], p[l]));
    }
    assert forall|i: int, k: int|
        0 <= i < ds.len() && 0 <= k < r.len() && !r.contains(ds[i]) implies ds[i].votes
            <= r[k].votes by {
        if p.contains(i) {
            let y = choose|y: int| 0 <= y < p.len() && p[y] == i;
            assert(r[y] == ds[i]);
        }
        assert(r[k] == ds[p[k]]);
        assert(ranks_before(ds, p[k], i));
    }
    if n >= ds.len() {
        assert forall|i: int| 0 <= i < ds.len() implies r.contains(#[trigger] ds[i]) by {
            lemma_full_prefix_covers(ds, p, i);
            let y = choose|y: int| 0 <= y < p.len() && p[y] == i;
            assert(r[y] == ds[i]);
        }
    }
}

proof fn lemma_tally_push(log: Seq<(u64, u64)>, b: (u64, u64), id: u64)
    ensures
        tally(log.push(b), id) == tally(log, id) + if b.0 == id {
            b.1 as nat
        } else {
            0nat
        },
{
    assert(log.push(b).drop_last() =~= log);
}

proof fn lemma_tally_absent(log: Seq<(u64, u64)>, id: u64)
    requires
        forall|j: int| 0 <= j < log.len() ==> log[j].0 != id,
    ensures
        tally(log, id) == 0,
    decreases log.len(),
{
    if log.len() > 0 {
        lemma_tally_absent(log.drop_last(), id);
    }
}

/// Stake-weighted delegate selection: stakeholders with fixed stakes vote
/// for delegates, whose totals decide their rank.
pub struct DelegatedProofOfStake {
    stakeholders: HashMap<u64, Stakeholder>,
    delegates: Vec<Delegate>,
    ballots: Ghost<Seq<(u64, u64)>>,
}

impl DelegatedProofOfStake {
    /// Stake of each registered stakeholder, by identity.
    pub closed spec fn stake_map(&self) -> Map<u64, u64> {
        Map::new(
            |k: u64| self.stakeholders@.contains_key(k),
            |k: u64| self.stakeholders@[k].stake,
        )
    }

    /// The registered delegates, in registration order.
    pub closed spec fn delegate_seq(&self) -> Seq<Delegate> {
        self.delegates@
    }

    /// Every vote that counted, in order, as `(delegate id, stake)`.
    pub closed spec fn ballots(&self) -> Seq<(u64, u64)> {
        self.ballots@
    }

    /// Identities are unique, each delegate's total is the tally of the
    /// ballots cast for it, and every ballot names a registered delegate.
    pub closed spec fn wf(&self) -> bool {
        &&& vstd::std_specs::hash::obeys_key_model::<u64>()
        &&& unique_ids(self.delegates@)
        &&& forall|i: int|
            0 <= i < self.delegates@.len() ==> #[trigger] self.delegates@[i].votes == tally(
                self.ballots@,
                self.delegates@[i].id,
            )
        &&& forall|j: int|
            0 <= j < self.ballots@.len() ==> has_delegate(self.delegates@, #[trigger] self.ballots@[j].0)
    }

    /// An empty registry.
    pub fn new() -> (r: Self)
        ensures
            r.wf(),
            r.stake_map() == Map::<u64, u64>::empty(),
            r.delegate_seq() == Seq::<Delegate>::empty(),
            r.ballots() == Seq::<(u64, u64)>::empty(),
    {
        let r = DelegatedProofOfStake {
            stakeholders: HashMap::new(),
            delegates: Vec::new(),
            ballots: Ghost(Seq::empty()),
        };
        assert(r.stake_map() =~= Map::<u64, u64>::empty());
        r
    }

    /// Vote conservation: in every reachable registry, each delegate's total
    /// equals the sum of the stakes of the votes that counted for it.
    pub proof fn lemma_vote_conservation(&self)
        requires
            self.wf(),
        ensures
            forall|i: int|
                0 <= i < self.delegate_seq().len() ==> #[trigger] self.delegate_seq()[i].votes
                    == tally(self.ballots(), self.delegate_seq()[i].id),
    {
    }

    /// Delegate identities stay unique.
    pub proof fn lemma_unique_delegates(&self)
        requires
            self.wf(),
        ensures
            unique_ids(self.delegate_seq()),
    {
    }

    /// Registers stakeholder `id` with `stake`, replacing an earlier
    /// registration of the same identity.
    pub fn add_stakeholder(&mut self, id: u64, stake: u64)
        requires
            old(self).wf(),
        ensures
            final(self).wf(),
            final(self).stake_map() == old(self).stake_map().insert(id, stake),
            final(self).delegate_seq() == old(self).delegate_seq(),
            final(self).ballots() == old(self).ballots(),
    {
        self.stakeholders.insert(id, Stakeholder { id, stake });
        assert(self.stake_map() =~= old(self).stake_map().insert(id, stake));
    }

    /// Position of delegate `id`, if registered.
    fn find_delegate(&self, id: u64) -> (r: Option<usize>)
        ensures
            match r {
                Some(i) => i < self.delegates@.len() && self.delegates@[i as int].id == id,
                None => !has_delegate(self.delegates@, id),
            },
    {
        let mut i: usize = 0;
        while i < self.delegates.len()
            invariant
                i <= self.delegates@.len(),
                forall|j: int| 0 <= j < i ==> self.delegates@[j].id != id,
            decreases self.delegates@.len() - i,
        {
            if self.delegates[i].id == id {
                return Some(i);
            }
            i = i + 1;
        }
        None
    }

    /// Registers delegate `id` with no votes. A delegate already registered
    /// under `id` is kept as it is and nothing changes.
    pub fn add_delegate(&mut self, id: u64)
        requires
            old(self).wf(),
        ensures
            final(self).wf(),
            final(self).stake_map() == old(self).stake_map(),
            final(self).ballots() == old(self).ballots(),
            final(self).delegate_seq() == if has_delegate(old(self).delegate_seq(), id) {
                old(self).delegate_seq()
            } else {
                old(self).delegate_seq().push((Delegate { id, votes: 0 }))
            },
    {
        if self.find_delegate(id).is_some() {
            return;
        }
        proof {
            assert forall|j: int| 0 <= j < self.ballots@.len() implies self.ballots@[j].0 != id by {
                assert(has_delegate(self.delegates@, self.ballots@[j].0));
            }
            lemma_tally_absent(self.ballots@, id);
        }
        self.delegates.push(Delegate { id, votes: 0 });
        proof {
            assert forall|j: int| 0 <= j < self.ballots@.len() implies has_delegate(
                self.delegates@,
                #[trigger] self.ballots@[j].0,
            ) by {
                assert(has_delegate(old(self).delegates@, self.ballots@[j].0));
                let i = choose|i: int|
                    0 <= i < old(self).delegates@.len() && old(self).delegates@[i].id
                        == self.ballots@[j].0;
                assert(self.delegates@[i] == old(self).delegates@[i]);
            }
        }
    }

    /// Stakeholder `stakeholder_id` votes for delegate `delegate_id`: the
    /// stakeholder's whole stake is added to the delegate's total. Returns
    /// false, changing nothing, where either identity is unknown or the total
    /// would pass `u64::MAX`. Repeated votes are counted again.
    pub fn vote(&mut self, stakeholder_id: u64, delegate_id: u64) -> (r: bool)
        requires
            old(self).wf(),
        ensures
            final(self).wf(),
            final(self).stake_map() == old(self).stake_map(),
            r == (old(self).stake_map().contains_key(stakeholder_id) && vote_fits(
                old(self).delegate_seq(),
                delegate_id,
                old(self).stake_map()[stakeholder_id],
            )),
            r ==> {
                let stake = old(self).stake_map()[stakeholder_id];
                &&& final(self).ballots() == old(self).ballots().push((delegate_id, stake))
                &&& final(self).delegate_seq().len() == old(self).delegate_seq().len()
                &&& forall|i: int|
                    0 <= i < old(self).delegate_seq().len() ==> #[trigger] final(self).delegate_seq()[i]
                        == if old(self).delegate_seq()[i].id == delegate_id {
                        (Delegate {
                            id: delegate_id,
                            votes: (old(self).delegate_seq()[i].votes + stake) as u64,
                        })
                    } else {
                        old(self).delegate_seq()[i]
                    }
            },
            !r ==> final(self).delegate_seq() == old(self).delegate_seq() && final(self).ballots()
                == old(self).ballots(),
            !old(self).stake_map().contains_key(stakeholder_id) || !has_delegate(
                old(self).delegate_seq(),
                delegate_id,
            ) ==> !r,
    {
        let stake = match self.stakeholders.get(&stakeholder_id) {
            Some(s) => s.stake,
            None => {
                return false;
            },
        };
        let i = match self.find_delegate(delegate_id) {
            Some(i) => i,
            None => {
                return false;
            },
        };
        let total = match self.delegates[i].votes.checked_add(stake) {
            Some(t) => t,
            None => {
                return false;
            },
        };
        let ghost prev = self.delegates@;
        self.delegates.set(i, Delegate { id: delegate_id, votes: total });
        self.ballots = Ghost(self.ballots@.push((delegate_id, stake)));
        proof {
            assert forall|k: int|
                0 <= k < self.delegates@.len() implies #[trigger] self.delegates@[k].votes == tally(
                self.ballots@,
                self.delegates@[k].id,
            ) by {
                lemma_tally_push(old(self).ballots@, (delegate_id, stake), self.delegates@[k].id);
            }
            assert forall|j: int| 0 <= j < self.ballots@.len() implies has_delegate(
                self.delegates@,
                #[trigger] self.ballots@[j].0,
            ) by {
                if j < old(self).ballots@.len() {
                    assert(old(self).ballots@[j] == self.ballots@[j]);
                    assert(has_delegate(prev, self.ballots@[j].0));
                    let w = choose|w: int| 0 <= w < prev.len() && prev[w].id == self.ballots@[j].0;
                    assert(self.delegates@[w].id == prev[w].id);
                } else {
                    assert(self.delegates@[i as int].id == delegate_id);
                }
            }
        }
        true
    }
    /// The `n` delegates with the most votes, by descending total; equal
    /// totals keep registration order. All delegates, ranked, where `n` is at
    /// least their number; none where `n` is 0.
    pub fn get_top_delegates(&self, n: usize) -> (r: Vec<Delegate>)
        requires
            self.wf(),
        ensures
            is_top(self.delegate_seq(), n as nat, r@),
    {
        let len: usize = self.delegates.len();
        let count: usize = if n < len {
            n
        } else {
            len
        };
        let ghost ds = self.delegates@;
        let mut taken: Vec<bool> = Vec::with_capacity(len);
        let mut j: usize = 0;
        while j < len
            invariant
                j <= len,
                taken@ =~= Seq::new(j as nat, |i: int| false),
            decreases len - j,
        {
            taken.push(false);
            j = j + 1;
        }
        proof {
            lemma_count_open_all(len as nat);
        }
        let mut out: Vec<Delegate> = Vec::with_capacity(count);
        let ghost mut p: Seq<int> = Seq::empty();
        while out.len() < count
            invariant
                ds == self.delegates@,
                len == ds.len(),
                count <= len,
                count == n || count == len,
                n < len ==> count == n,
                taken@.len() == len,
                out@.len() == p.len(),
                out@.len() <= count,
                count_open(taken@) + p.len() == len,
                forall|k: int| 0 <= k < out@.len() ==> #[trigger] out@[k] == ds[p[k]],
                is_ranking_prefix(ds, p),
                forall|i: int| 0 <= i < len ==> (taken@[i] <==> p.contains(i)),
            decreases count - out@.len(),
        {
            proof {
                lemma_count_open_positive(taken@);
            }
            let mut best: usize = len;
            let mut i: usize = 0;
            while i < len
                invariant
                    ds == self.delegates@,
                    len == ds.len(),
                    taken@.len() == len,
                    i <= len,
                    best <= len,
                    exists|w: int| 0 <= w < len && !taken@[w],
                    best == len ==> forall|x: int| 0 <= x < i ==> taken@[x],
                    best < len ==> best < i && !taken@[best as int],
                    best < len ==> forall|x: int|
                        0 <= x < i && !taken@[x] && x != best ==> ranks_before(ds, best as int, x),
                decreases len - i,
            {
                if !taken[i] {
                    if best == len || self.delegates[i].votes > self.delegates[best].votes {
                        best = i;
                    }
                }
                i = i + 1;
            }
            proof {
                if best == len {
                    let w = choose|w: int| 0 <= w < len && !taken@[w];
                    assert(taken@[w]);
                }
            }
            let ghost b = best as int;
            proof {
                lemma_count_open_take(taken@, b);
                assert(!p.contains(b));
            }
            taken.set(best, true);
            out.push(self.delegates[best]);
            let ghost old_p = p;
            proof {
                p = p.push(b);
                assert forall|k: int, l: int| 0 <= k < l < p.len() implies ranks_before(
                    ds,
                    p[k],
                    p[l],
                ) by {
                    if l == p.len() - 1 {
                        assert(old_p[k] == p[k]);
                    }
                }
                assert forall|k: int, x: int|
                    0 <= k < p.len() && 0 <= x < ds.len() && !p.contains(x) implies ranks_before(
                    ds,
                    p[k],
                    x,
                ) by {
                    assert(!old_p.contains(x)) by {
                        if old_p.contains(x) {
                            let y = choose|y: int| 0 <= y < old_p.len() && old_p[y] == x;
                            assert(p[y] == x);
                        }
                    }
                    assert(x != b) by {
                        assert(p[p.len() - 1] == b);
                    }
                    if k < p.len() - 1 {
                        assert(old_p[k] == p[k]);
                    }
                }
                assert forall|i: int| 0 <= i < len implies (taken@[i] <==> p.contains(i)) by {
                    if i == b {
                        assert(p[p.len() - 1] == b);
                    } else if old_p.contains(i) {
                        let y = choose|y: int| 0 <= y < old_p.len() && old_p[y] == i;
                        assert(p[y] == i);
                    } else if p.contains(i) {
                        let y = choose|y: int| 0 <= y < p.len() && p[y] == i;
                        assert(y < old_p.len());
                        assert(old_p[y] == i);
                    }
                }
            }
        }
        out
    }
    /// The registered delegates, in registration order.
    pub fn delegates(&self) -> (r: &[Delegate])
        ensures
            r@ == self.delegate_seq(),
    {
        self.delegates.as_slice()
    }

    /// Stake of stakeholder `id`, if registered.
    pub fn stake_of(&self, id: u64) -> (r: Option<u64>)
        requires
            self.wf(),
        ensures
            match r {
                Some(s) => self.stake_map().contains_key(id) && s == self.stake_map()[id],
                None => !self.stake_map().contains_key(id),
            },
    {
        match self.stakeholders.get(&id) {
            Some(s) => Some(s.stake),
            None => None,
        }
    }
}

} // verus!
