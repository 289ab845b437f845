//! Sharing out 255 units by the largest remainders.

use vstd::prelude::*;

use crate::ieee::Double;

verus! {

/// One action's exact part of the 255 units of a hand: the whole units, and the rest of a unit.
#[derive(Debug, Clone, Copy, PartialEq, Eq, Structural)]
pub struct Share {
    pub floor: u16,
    pub rest: Double,
}

impl Share {
    /// The rest is a number that is not below zero.
    pub open spec fn valid(self) -> bool {
        !self.rest.nan() && self.rest.value() >= 0
    }
}

/// How many of the first `n` numbers have a property.
pub open spec fn count(p: spec_fn(int) -> bool, n: int) -> int
    decreases n,
{
    if n <= 0 {
        0
    } else if p(n - 1) {
        count(p, n - 1) + 1
    } else {
        count(p, n - 1)
    }
}

/// Whether action `j` comes before action `i` when units are left over: the larger rest first,
/// the earlier action where the rests are equal.
pub open spec fn before(s: Seq<Share>, j: int, i: int) -> bool {
    s[j].rest.value() > s[i].rest.value() || (s[j].rest.value() == s[i].rest.value() && j < i)
}

/// How many actions come before action `i`.
pub open spec fn rank(s: Seq<Share>, i: int) -> int {
    count(|j: int| before(s, j, i), s.len() as int)
}

/// The whole units of the first `k` actions.
pub open spec fn whole(s: Seq<Share>, k: int) -> int
    decreases k,
{
    if k <= 0 {
        0
    } else {
        whole(s, k - 1) + s[k - 1].floor
    }
}

/// The units that the whole parts leave over.
pub open spec fn left_over(s: Seq<Share>) -> int {
    let d = 255 - whole(s, s.len() as int);
    if d > 0 {
        d
    } else {
        0
    }
}

/// What action `i` gets of the units that are left over: one if its rest is among the largest.
/// Units that go beyond one for each action go to the first.
pub open spec fn extra(s: Seq<Share>, i: int) -> int {
    let d = left_over(s);
    let n = s.len() as int;
    (if rank(s, i) < d {
        1int
    } else {
        0int
    }) + (if i == 0 && d > n {
        d - n
    } else {
        0int
    })
}

/// The units of action `i`.
pub open spec fn quota(s: Seq<Share>, i: int) -> int {
    s[i].floor + extra(s, i)
}

/// The units of the first `k` actions.
pub open spec fn quotas(s: Seq<Share>, k: int) -> int
    decreases k,
{
    if k <= 0 {
        0
    } else {
        quotas(s, k - 1) + quota(s, k - 1)
    }
}

proof fn lemma_count_range(p: spec_fn(int) -> bool, n: int)
    ensures
        0 <= count(p, n),
        n >= 0 ==> count(p, n) <= n,
    decreases n,
{
    if n > 0 {
        lemma_count_range(p, n - 1);
    }
}

proof fn lemma_count_le(p: spec_fn(int) -> bool, q: spec_fn(int) -> bool, n: int)
    requires
        forall|i: int| 0 <= i < n && #[trigger] p(i) ==> q(i),
    ensures
        count(p, n) <= count(q, n),
    decreases n,
{
    if n > 0 {
        lemma_count_le(p, q, n - 1);
    }
}

proof fn lemma_count_lt(p: spec_fn(int) -> bool, q: spec_fn(int) -> bool, n: int, m: int)
    requires
        forall|i: int| 0 <= i < n && #[trigger] p(i) ==> q(i),
        0 <= m < n,
        q(m),
        !p(m),
    ensures
        count(p, n) < count(q, n),
    decreases n,
{
    if m == n - 1 {
        lemma_count_le(p, q, n - 1);
    } else {
        lemma_count_lt(p, q, n - 1, m);
    }
}

/// One more member is one more counted.
proof fn lemma_count_add(p: spec_fn(int) -> bool, q: spec_fn(int) -> bool, n: int, m: int)
    requires
        forall|i: int| 0 <= i < n && i != m ==> (#[trigger] p(i) <==> q(i)),
        0 <= m < n,
        q(m),
        !p(m),
    ensures
        count(q, n) == count(p, n) + 1,
    decreases n,
{
    if m == n - 1 {
        lemma_count_same(p, q, n - 1);
    } else {
        lemma_count_add(p, q, n - 1, m);
    }
}

proof fn lemma_count_same(p: spec_fn(int) -> bool, q: spec_fn(int) -> bool, n: int)
    requires
        forall|i: int| 0 <= i < n ==> (#[trigger] p(i) <==> q(i)),
    ensures
        count(q, n) == count(p, n),
    decreases n,
{
    if n > 0 {
        lemma_count_same(p, q, n - 1);
    }
}

/// Where not all are counted, one is not; where all are, all have the property.
proof fn lemma_count_full(p: spec_fn(int) -> bool, n: int)
    requires
        0 <= n,
    ensures
        count(p, n) < n ==> exists|i: int| 0 <= i < n && !(#[trigger] p(i)),
        count(p, n) == n ==> forall|i: int| 0 <= i < n ==> #[trigger] p(i),
    decreases n,
{
    if n > 0 {
        lemma_count_full(p, n - 1);
        lemma_count_range(p, n - 1);
    }
}

/// A set of actions that holds, with an action, all that come before it.
pub open spec fn first_ones(s: Seq<Share>, used: Seq<bool>) -> bool {
    &&& used.len() == s.len()
    &&& forall|j: int, i: int|
        0 <= j < s.len() && 0 <= i < s.len() && #[trigger] used[i] && before(s, j, i)
            ==> #[trigger] used[j]
}

/// The size of a set of actions.
pub open spec fn size(used: Seq<bool>) -> int {
    count(|i: int| used[i], used.len() as int)
}

/// The members of such a set are those whose rank is below its size.
proof fn lemma_rank(s: Seq<Share>, used: Seq<bool>, i: int)
    requires
        first_ones(s, used),
        0 <= i < s.len(),
    ensures
        used[i] <==> rank(s, i) < size(used),
{
    let n = s.len() as int;
    let p = |j: int| before(s, j, i);
    let q = |j: int| used[j];
    if used[i] {
        assert forall|j: int| 0 <= j < n && #[trigger] p(j) implies q(j) by {
            assert(before(s, j, i));
            assert(used[i]);
            assert(used[j]);
        }
        lemma_count_lt(p, q, n, i);
    } else {
        assert forall|j: int| 0 <= j < n && #[trigger] q(j) implies p(j) by {
            if !before(s, j, i) {
                assert(before(s, i, j) || i == j);
            }
        }
        lemma_count_le(q, p, n);
    }
}

/// The action that comes first of those outside such a set may join it.
proof fn lemma_join(s: Seq<Share>, used: Seq<bool>, m: int)
    requires
        first_ones(s, used),
        0 <= m < s.len(),
        !used[m],
        forall|j: int| 0 <= j < s.len() && j != m && !(#[trigger] used[j]) ==> before(s, m, j),
    ensures
        first_ones(s, used.update(m, true)),
        size(used.update(m, true)) == size(used) + 1,
{
    let more = used.update(m, true);
    let n = s.len() as int;
    assert forall|j: int, i: int|
        0 <= j < n && 0 <= i < n && #[trigger] more[i] && before(s, j, i) implies #[trigger] more[j] by {
        if i == m {
            if j != m && !used[j] {
                assert(before(s, m, j));
            }
        } else {
            assert(used[i]);
            assert(used[j]);
        }
    }
    lemma_count_add(|i: int| used[i], |i: int| more[i], n, m);
}

/// The action of those outside a set that comes first.
fn pick(shares: &Vec<Share>, used: &Vec<bool>) -> (r: Option<usize>)
    requires
        used@.len() == shares@.len(),
        forall|i: int| 0 <= i < shares@.len() ==> (#[trigger] shares@[i]).valid(),
    ensures
        match r {
            None => forall|j: int| 0 <= j < used@.len() ==> #[trigger] used@[j],
            Some(m) => {
                &&& m < shares@.len()
                &&& !used@[m as int]
                &&& forall|j: int|
                    0 <= j < shares@.len() && j != m && !(#[trigger] used@[j]) ==> before(
                        shares@,
                        m as int,
                        j,
                    )
            },
        },
{
    let mut best: Option<usize> = None;
    for i in 0..shares.len()
        invariant
            used@.len() == shares@.len(),
            forall|i: int| 0 <= i < shares@.len() ==> (#[trigger] shares@[i]).valid(),
            match best {
                None => forall|j: int| 0 <= j < i ==> #[trigger] used@[j],
                Some(m) => {
                    &&& m < i
                    &&& !used@[m as int]
                    &&& forall|j: int|
                        0 <= j < i && j != m && !(#[trigger] used@[j]) ==> before(
                            shares@,
                            m as int,
                            j,
                        )
                },
            },
    {
        if !used[i] {
            assert(shares@[i as int].valid());
            match best {
                None => {
                    best = Some(i);
                },
                Some(m) => {
                    assert(shares@[m as int].valid());
                    if shares[m].rest.lt(&shares[i].rest) {
                        best = Some(i);
                    }
                },
            }
        }
    }
    best
}

/// The units of each action of one hand.
pub(crate) fn apportion(shares: &Vec<Share>) -> (r: Vec<u16>)
    requires
        shares@.len() > 0,
        forall|i: int| 0 <= i < shares@.len() ==> (#[trigger] shares@[i]).valid(),
    ensures
        r@.len() == shares@.len(),
        forall|i: int| 0 <= i < r@.len() ==> #[trigger] r@[i] == quota(shares@, i),
{
    let n: usize = shares.len();
    let mut quotas: Vec<u16> = Vec::new();
    let mut used: Vec<bool> = Vec::new();
    let mut assigned: u16 = 0;
    for i in 0..n
        invariant
            n == shares@.len(),
            quotas@.len() == i,
            used@.len() == i,
            assigned == (if whole(shares@, i as int) < 255 {
                whole(shares@, i as int)
            } else {
                255
            }),
            forall|j: int| 0 <= j < i ==> #[trigger] quotas@[j] == shares@[j].floor,
            forall|j: int| 0 <= j < i ==> !(#[trigger] used@[j]),
    {
        proof {
            lemma_whole_grows(shares@, 0, i as int);
        }
        let floor: u16 = shares[i].floor;
        quotas.push(floor);
        used.push(false);
        assigned = if floor < 255 - assigned {
            assigned + floor
        } else {
            255
        };
    }
    let ghost start = assigned as int;
    proof {
        lemma_count_none(|i: int| used@[i], n as int);
        lemma_floor_is_part(shares@, n as int);
        lemma_whole_grows(shares@, 0, n as int);
    }
    while assigned < 255
        invariant
            n == shares@.len(),
            n > 0,
            quotas@.len() == n,
            first_ones(shares@, used@),
            forall|i: int| 0 <= i < shares@.len() ==> (#[trigger] shares@[i]).valid(),
            0 <= start <= assigned <= 255,
            start == (if whole(shares@, n as int) < 255 {
                whole(shares@, n as int)
            } else {
                255
            }),
            size(used@) == (if assigned - start <= n {
                assigned - start
            } else {
                n as int
            }),
            start < 255 ==> forall|j: int|
                0 <= j < n ==> (#[trigger] shares@[j]).floor <= start,
            forall|j: int|
                0 <= j < n ==> #[trigger] quotas@[j] == shares@[j].floor + (if used@[j] {
                    1int
                } else {
                    0int
                }) + (if j == 0 && assigned - start > n {
                    assigned - start - n
                } else {
                    0int
                }),
        decreases 255 - assigned,
    {
        let ghost before_used = used@;
        let ghost before_quotas = quotas@;
        proof {
            lemma_count_full(|i: int| used@[i], n as int);
            lemma_count_range(|i: int| used@[i], n as int);
            assert(shares@[0].floor <= start);
        }
        match pick(shares, &used) {
            None => {
                proof {
                    let p = |i: int| used@[i];
                    if size(used@) < n {
                        let w = choose|i: int| 0 <= i < n && !(#[trigger] p(i));
                        assert(used@[w]);
                    }
                }
                quotas[0] = quotas[0] + 1;
            },
            Some(m) => {
                proof {
                    let p = |i: int| used@[i];
                    if size(used@) == n {
                        assert(p(m as int));
                    }
                    assert(shares@[m as int].floor <= start);
                    lemma_join(shares@, used@, m as int);
                }
                quotas[m] = quotas[m] + 1;
                used[m] = true;
            },
        }
        assigned = assigned + 1;
    }
    proof {
        assert forall|i: int| 0 <= i < n implies #[trigger] quotas@[i] == quota(shares@, i) by {
            lemma_rank(shares@, used@, i);
            lemma_rank_range(shares@, i);
        }
    }
    quotas
}

proof fn lemma_rank_range(s: Seq<Share>, i: int)
    requires
        0 <= i < s.len(),
    ensures
        0 <= rank(s, i) < s.len(),
{
    let p = |j: int| before(s, j, i);
    let all = |j: int| true;
    lemma_count_range(p, s.len() as int);
    lemma_count_range(all, s.len() as int);
    lemma_count_lt(p, all, s.len() as int, i);
}

proof fn lemma_whole_grows(s: Seq<Share>, j: int, k: int)
    requires
        j <= k,
    ensures
        0 <= whole(s, j) <= whole(s, k),
    decreases k,
{
    if k > 0 {
        if j < k {
            lemma_whole_grows(s, j, k - 1);
        } else {
            lemma_whole_grows(s, j - 1, k - 1);
        }
    }
}

proof fn lemma_floor_is_part(s: Seq<Share>, k: int)
    requires
        0 <= k <= s.len(),
    ensures
        forall|j: int| 0 <= j < k ==> (#[trigger] s[j]).floor <= whole(s, k),
    decreases k,
{
    if k > 0 {
        lemma_floor_is_part(s, k - 1);
        lemma_whole_grows(s, 0, k - 1);
    }
}

proof fn lemma_count_none(p: spec_fn(int) -> bool, n: int)
    requires
        forall|i: int| 0 <= i < n ==> !(#[trigger] p(i)),
    ensures
        count(p, n) == 0,
    decreases n,
{
    if n > 0 {
        lemma_count_none(p, n - 1);
    }
}

/// For every number of actions there is a set of that size that holds the ones that come first.
proof fn lemma_first_ones(s: Seq<Share>, t: int) -> (used: Seq<bool>)
    requires
        0 <= t <= s.len(),
    ensures
        first_ones(s, used),
        size(used) == t,
    decreases t,
{
    let n = s.len() as int;
    if t == 0 {
        let used = Seq::new(s.len(), |i: int| false);
        lemma_count_none(|i: int| used[i], n);
        used
    } else {
        let used = lemma_first_ones(s, t - 1);
        let p = |i: int| used[i];
        lemma_count_full(p, n);
        let w = choose|i: int| 0 <= i < n && !(#[trigger] p(i));
        let m = lemma_first_outside(s, used, w, n);
        lemma_join(s, used, m);
        used.update(m, true)
    }
}

/// Of the first `k` actions outside a set, one comes first.
proof fn lemma_first_outside(s: Seq<Share>, used: Seq<bool>, w: int, k: int) -> (m: int)
    requires
        used.len() == s.len(),
        0 <= w < s.len(),
        !used[w],
        0 <= k <= s.len(),
    ensures
        0 <= m < s.len(),
        !used[m],
        forall|j: int| 0 <= j < k && j != m && !(#[trigger] used[j]) ==> before(s, m, j),
    decreases k,
{
    if k == 0 {
        w
    } else {
        let m = lemma_first_outside(s, used, w, k - 1);
        if !used[k - 1] && m != k - 1 && before(s, k - 1, m) {
            k - 1
        } else {
            m
        }
    }
}

proof fn lemma_quotas_split(s: Seq<Share>, k: int)
    requires
        0 <= k <= s.len(),
    ensures
        quotas(s, k) == whole(s, k) + count(|i: int| rank(s, i) < left_over(s), k) + (if k > 0
            && left_over(s) > s.len() {
            left_over(s) - s.len()
        } else {
            0
        }),
    decreases k,
{
    if k > 0 {
        lemma_quotas_split(s, k - 1);
    }
}

/// All 255 units are given out, no more and no fewer.
pub proof fn law_all_units_are_given(s: Seq<Share>)
    requires
        s.len() > 0,
        whole(s, s.len() as int) <= 255,
    ensures
        quotas(s, s.len() as int) == 255,
{
    let n = s.len() as int;
    let d = left_over(s);
    let t = if d < n {
        d
    } else {
        n
    };
    let used = lemma_first_ones(s, t);
    let p = |i: int| used[i];
    let q = |i: int| rank(s, i) < d;
    assert forall|i: int| 0 <= i < n implies (#[trigger] p(i) <==> q(i)) by {
        lemma_rank(s, used, i);
        lemma_rank_range(s, i);
    }
    lemma_count_same(p, q, n);
    lemma_quotas_split(s, n);
}

/// No action is given less than its whole units, and none more than one unit beyond them, where
/// no more units are left over than there are actions.
pub proof fn law_within_one_unit(s: Seq<Share>, i: int)
    requires
        0 <= i < s.len(),
        left_over(s) <= s.len(),
    ensures
        s[i].floor <= quota(s, i) <= s[i].floor + 1,
{
}

/// The larger rest goes first: an action that is given a unit beyond its whole ones does not have
/// the smaller rest of two.
pub proof fn law_larger_rest_first(s: Seq<Share>, i: int, j: int)
    requires
        0 <= i < s.len(),
        0 <= j < s.len(),
        s[i].rest.value() > s[j].rest.value(),
        left_over(s) <= s.len(),
    ensures
        extra(s, i) >= extra(s, j),
{
    let n = s.len() as int;
    let p = |k: int| before(s, k, i);
    let q = |k: int| before(s, k, j);
    lemma_count_le(p, q, n);
}

/// Every action's units are part of the units of all.
pub proof fn lemma_quota_is_part(s: Seq<Share>, k: int)
    requires
        0 <= k <= s.len(),
    ensures
        forall|i: int| 0 <= i < k ==> 0 <= #[trigger] quota(s, i) <= quotas(s, k),
        quotas(s, k) >= 0,
    decreases k,
{
    if k > 0 {
        lemma_quota_is_part(s, k - 1);
    }
}

} // verus!
