//! Committees for the subset-based coin: every subset of a fixed size of the
//! parties `1 ..= 3t + 1`, and the publisher that tallies the bits reported
//! for the subsets it belongs to.
use vstd::prelude::*;

verus! {

/// The subsets listed in `v`, as sequences.
pub open spec fn subsets_view(v: Seq<Vec<usize>>) -> Seq<Seq<usize>> {
    v.map_values(|x: Vec<usize>| x@)
}

/// In lexicographic order, every extension of `cur` to length `size` by
/// strictly increasing elements taken from `start ..= max`.
pub open spec fn extensions(cur: Seq<usize>, size: nat, start: int, max: int) -> Seq<Seq<usize>>
    decreases size - cur.len(), max + 1 - start,
{
    if cur.len() >= size {
        if cur.len() == size {
            seq![cur]
        } else {
            seq![]
        }
    } else if start > max || start < 0 {
        seq![]
    } else {
        extensions(cur.push(start as usize), size, start + 1, max) + extensions(
            cur,
            size,
            start + 1,
            max,
        )
    }
}

/// Appends to `all_subsets`, in lexicographic order, every extension of
/// `current_subset` to `subset_size` elements by strictly increasing numbers
/// from `start_idx ..= max_num`; `current_subset` comes back unchanged.
pub fn generate_subsets(
    max_num: usize,
    subset_size: usize,
    start_idx: usize,
    current_subset: &mut Vec<usize>,
    all_subsets: &mut Vec<Vec<usize>>,
)
    requires
        max_num < usize::MAX,
        old(current_subset).len() <= subset_size,
    ensures
        final(current_subset)@ == old(current_subset)@,
        subsets_view(final(all_subsets)@) == subsets_view(old(all_subsets)@) + extensions(
            old(current_subset)@,
            subset_size as nat,
            start_idx as int,
            max_num as int,
        ),
    decreases subset_size - old(current_subset).len(), max_num + 1 - start_idx,
{
    if current_subset.len() == subset_size {
        let c = current_subset.clone();
        proof {
            assert(c@ =~= current_subset@);
        }
        all_subsets.push(c);
        proof {
            assert(subsets_view(all_subsets@) =~= subsets_view(old(all_subsets)@) + seq![
                current_subset@,
            ]);
        }
        return ;
    }
    let ghost cur = current_subset@;
    let ghost before = subsets_view(all_subsets@);
    let mut i: usize = start_idx;
    assert(i > max_num ==> extensions(cur, subset_size as nat, i as int, max_num as int) .len() == 0);
    while i <= max_num
        invariant
            max_num < usize::MAX,
            cur.len() < subset_size,
            current_subset@ == cur,
            start_idx <= i,
            i <= max_num + 1 || i == start_idx,
            cur == old(current_subset)@,
            before + extensions(cur, subset_size as nat, start_idx as int, max_num as int)
                == subsets_view(all_subsets@) + extensions(
                cur,
                subset_size as nat,
                i as int,
                max_num as int,
            ),
        decreases max_num + 1 - i,
    {
        let ghost mid = subsets_view(all_subsets@);
        current_subset.push(i);
        assert(current_subset@.len() == old(current_subset)@.len() + 1);
        generate_subsets(max_num, subset_size, i + 1, current_subset, all_subsets);
        current_subset.pop();
        proof {
            assert(current_subset@ =~= cur);
            let a = extensions(cur.push(i), subset_size as nat, i + 1, max_num as int);
            let b = extensions(cur, subset_size as nat, i + 1, max_num as int);
            assert(extensions(cur, subset_size as nat, i as int, max_num as int) == a + b);
            assert(mid + (a + b) =~= (mid + a) + b);
        }
        i = i + 1;
    }
    proof {
        assert(extensions(cur, subset_size as nat, i as int, max_num as int) .len() == 0);
        let e = extensions(cur, subset_size as nat, i as int, max_num as int);
        assert(subsets_view(all_subsets@) + e =~= subsets_view(all_subsets@));
    }
}


fn contains(v: &Vec<usize>, x: usize) -> (r: bool)
    ensures
        r == v@.contains(x),
{
    let mut k: usize = 0;
    while k < v.len()
        invariant
            k <= v.len(),
            forall|a: int| 0 <= a < k ==> v@[a] != x,
        decreases v.len() - k,
    {
        if v[k] == x {
            return true;
        }
        k = k + 1;
    }
    false
}

/// In increasing order, the positions below `m` of the subsets that hold `x`.
pub open spec fn member_indices(subsets: Seq<Seq<usize>>, x: usize, m: nat) -> Seq<usize>
    decreases m,
{
    if m == 0 {
        seq![]
    } else {
        let earlier = member_indices(subsets, x, (m - 1) as nat);
        if subsets[m - 1].contains(x) {
            earlier.push((m - 1) as usize)
        } else {
            earlier
        }
    }
}

/// Verifier `v` reported the bit 1 for subset `s`.
pub open spec fn vote_is_one(votes: Seq<Vec<Option<i32>>>, v: usize, s: usize) -> bool {
    &&& 1 <= v <= votes.len()
    &&& s < votes[v - 1].len()
    &&& votes[v - 1]@[s as int] == Some(1i32)
}

/// How many of the first `m` members of `subset` reported 1 for subset `s`.
pub open spec fn ones_for(votes: Seq<Vec<Option<i32>>>, subset: Seq<usize>, s: usize, m: nat) -> nat
    decreases m,
{
    if m == 0 {
        0
    } else {
        ones_for(votes, subset, s, (m - 1) as nat) + if vote_is_one(votes, subset[m - 1], s) {
            1nat
        } else {
            0nat
        }
    }
}

/// The majority bit of subset `s`: 1 when strictly more members reported 1
/// than did not.
pub open spec fn majority_bit(votes: Seq<Vec<Option<i32>>>, subset: Seq<usize>, s: usize) -> i32 {
    if 2 * ones_for(votes, subset, s, subset.len()) > subset.len() {
        1
    } else {
        0
    }
}

/// Party `index` of `1 ..= 3t + 1` in its role of publishing, for each
/// subset of size `2t + 1` that holds it, the bit that subset agreed on.
pub struct Publisher {
    pub t: usize,
    pub index: usize,
    pub all_subsets: Vec<Vec<usize>>,
    /// Positions in `all_subsets` of the subsets that hold `index`, increasing.
    pub my_subsets: Vec<usize>,
}

impl Publisher {
    pub fn new(t: usize, index: usize) -> (r: Publisher)
        ensures
            r.t == t,
            r.index == index,
            r.all_subsets@.len() == 0,
            r.my_subsets@.len() == 0,
    {
        Publisher { t, index, all_subsets: Vec::new(), my_subsets: Vec::new() }
    }

    /// Lists every subset of size `2t + 1` of `1 ..= 3t + 1` in
    /// lexicographic order, and picks out those that hold `index`.
    pub fn init(&mut self)
        requires
            3 * old(self).t + 2 < usize::MAX,
        ensures
            final(self).t == old(self).t,
            final(self).index == old(self).index,
            subsets_view(final(self).all_subsets@) == extensions(
                seq![],
                (2 * old(self).t + 1) as nat,
                1,
                3 * old(self).t + 1,
            ),
            final(self).my_subsets@ == member_indices(
                subsets_view(final(self).all_subsets@),
                old(self).index,
                final(self).all_subsets@.len() as nat,
            ),
    {
        let mut all_subsets: Vec<Vec<usize>> = Vec::new();
        let mut current_subset: Vec<usize> = Vec::new();
        let max_num = 3 * self.t + 1;
        let subset_size = 2 * self.t + 1;
        generate_subsets(max_num, subset_size, 1, &mut current_subset, &mut all_subsets);
        assert(subsets_view(all_subsets@) =~= seq![] + extensions(seq![], subset_size as nat, 1, max_num as int));
        let ghost view = subsets_view(all_subsets@);
        let mut my_subsets: Vec<usize> = Vec::new();
        let mut k: usize = 0;
        while k < all_subsets.len()
            invariant
                k <= all_subsets.len(),
                view == subsets_view(all_subsets@),
                my_subsets@ == member_indices(view, self.index, k as nat),
            decreases all_subsets.len() - k,
        {
            if contains(&all_subsets[k], self.index) {
                my_subsets.push(k);
            }
            k = k + 1;
        }
        self.all_subsets = all_subsets;
        self.my_subsets = my_subsets;
    }

    /// For each subset that holds this publisher, in order, its position and
    /// its majority bit among the bits that its members reported:
    /// `votes[v - 1][s]` is what verifier `v` reported for subset `s`.
    pub fn process(&self, votes: &Vec<Vec<Option<i32>>>) -> (r: Vec<(usize, i32)>)
        requires
            forall|k: int| 0 <= k < self.my_subsets.len() ==> #[trigger] self.my_subsets@[k] < self.all_subsets.len(),
        ensures
            r.len() == self.my_subsets.len(),
            forall|k: int|
                0 <= k < r.len() ==> (#[trigger] r@[k]).0 == self.my_subsets@[k] && r@[k].1
                    == majority_bit(votes@, self.all_subsets@[self.my_subsets@[k] as int]@, self.my_subsets@[k]),
    {
        let mut results: Vec<(usize, i32)> = Vec::new();
        let mut k: usize = 0;
        while k < self.my_subsets.len()
            invariant
                k <= self.my_subsets.len(),
                forall|a: int| 0 <= a < self.my_subsets.len() ==> #[trigger] self.my_subsets@[a] < self.all_subsets.len(),
                results.len() == k,
                forall|a: int|
                    0 <= a < k ==> (#[trigger] results@[a]).0 == self.my_subsets@[a] && results@[a].1
                        == majority_bit(votes@, self.all_subsets@[self.my_subsets@[a] as int]@, self.my_subsets@[a]),
            decreases self.my_subsets.len() - k,
        {
            let s = self.my_subsets[k];
            let subset = &self.all_subsets[s];
            let mut ones: usize = 0;
            let mut m: usize = 0;
            while m < subset.len()
                invariant
                    m <= subset.len(),
                    ones == ones_for(votes@, subset@, s, m as nat),
                    ones <= m,
                decreases subset.len() - m,
            {
                let v = subset[m];
                if 1 <= v && v <= votes.len() && s < votes[v - 1].len() {
                    match votes[v - 1][s] {
                        Some(bit) => {
                            if bit == 1 {
                                ones = ones + 1;
                            }
                        },
                        None => {},
                    }
                }
                m = m + 1;
            }
            let bit: i32 = if ones > subset.len() - ones { 1 } else { 0 };
            results.push((s, bit));
            k = k + 1;
        }
        results
    }
}

} // verus!
