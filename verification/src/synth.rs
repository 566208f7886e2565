use vstd::prelude::*;
use crate::rng::{OUTPUT_MIX, Rng, xorshift};

verus! {

broadcast use vstd::seq_lib::group_to_multiset_ensures, vstd::multiset::group_multiset_axioms;

/// The pool after the Fisher–Yates swaps at positions `i, i - 1, ..., 1` (position `i`
/// swapped with a position drawn in `0..=i`), drawing from a generator in state `state`;
/// also the generator's final state.
pub open spec fn shuffled(s: Seq<u64>, state: u64, i: int) -> (Seq<u64>, u64)
    decreases i,
{
    if i <= 0 {
        (s, state)
    } else {
        let st = xorshift(state);
        let j = ((st.wrapping_mul(OUTPUT_MIX) as usize) as int) % (i + 1);
        shuffled(s.update(i, s[j]).update(j, s[i]), st, i - 1)
    }
}

/// Shuffles `pool` in place with the Fisher–Yates method, from the last position down,
/// drawing one number from `rng` per swap. The pool keeps exactly its elements.
pub fn shuffle(pool: &mut Vec<u64>, rng: &mut Rng)
    ensures
        (final(pool)@, final(rng).state) == shuffled(old(pool)@, old(rng).state, old(pool)@.len() - 1),
        final(pool)@.to_multiset() == old(pool)@.to_multiset(),
{
    let n = pool.len();
    let mut i: usize = n;
    while i > 1
        invariant
            pool@.len() == n,
            i <= n,
            n >= 1 ==> i >= 1,
            shuffled(pool@, rng.state, i - 1) == shuffled(old(pool)@, old(rng).state, n - 1),
            pool@.to_multiset() == old(pool)@.to_multiset(),
        decreases i,
    {
        i -= 1;
        let r = rng.next_u64();
        let j = (r as usize) % (i + 1);
        let a = pool[i];
        let b = pool[j];
        proof {
            let s = pool@;
            assert(s.update(i as int, b).update(j as int, a).to_multiset() =~= s.to_multiset());
        }
        pool.set(i, b);
        pool.set(j, a);
    }
}

/// The sum of the counts.
pub open spec fn count_total(counts: Seq<u64>) -> nat
    decreases counts.len(),
{
    if counts.len() == 0 {
        0
    } else {
        count_total(counts.drop_last()) + counts.last() as nat
    }
}

/// Each index `u` repeated `counts[u]` times, indices in increasing order.
pub open spec fn owner_pool(counts: Seq<u64>) -> Seq<u64>
    decreases counts.len(),
{
    if counts.len() == 0 {
        Seq::empty()
    } else {
        owner_pool(counts.drop_last()) + Seq::new(counts.last() as nat, |k: int| (counts.len() - 1) as u64)
    }
}

proof fn lemma_owner_pool_len(counts: Seq<u64>)
    ensures
        owner_pool(counts).len() == count_total(counts),
    decreases counts.len(),
{
    if counts.len() > 0 {
        lemma_owner_pool_len(counts.drop_last());
    }
}

proof fn lemma_count_total_prefix(counts: Seq<u64>, i: int)
    requires
        0 <= i <= counts.len(),
    ensures
        count_total(counts.take(i)) <= count_total(counts),
    decreases counts.len() - i,
{
    if i < counts.len() {
        lemma_count_total_prefix(counts, i + 1);
        assert(counts.take(i + 1).drop_last() =~= counts.take(i));
    } else {
        assert(counts.take(i) =~= counts);
    }
}

proof fn lemma_repeat_count(n: nat, x: u64, y: u64)
    ensures
        Seq::new(n, |k: int| x).to_multiset().count(y) == (if x == y { n } else { 0 }),
    decreases n,
{
    let s = Seq::new(n, |k: int| x);
    if n == 0 {
        assert(s =~= Seq::<u64>::empty());
    } else {
        let t = Seq::new((n - 1) as nat, |k: int| x);
        lemma_repeat_count((n - 1) as nat, x, y);
        assert(s =~= t.insert(t.len() as int, x));
    }
}

/// In the owner pool, each user occurs exactly as many times as its count, and nothing
/// else occurs; a shuffle keeps this, since it keeps the pool's multiset.
pub proof fn law_pool_counts(counts: Seq<u64>, u: u64)
    requires
        counts.len() <= u64::MAX,
    ensures
        owner_pool(counts).to_multiset().count(u) == (if u < counts.len() { counts[u as int] as nat } else { 0 }),
    decreases counts.len(),
{
    broadcast use vstd::seq_lib::lemma_multiset_commutative;
    if counts.len() == 0 {
        assert(owner_pool(counts) =~= Seq::<u64>::empty());
    } else {
        let c = counts.drop_last();
        law_pool_counts(c, u);
        let last = (counts.len() - 1) as u64;
        lemma_repeat_count(counts.last() as nat, last, u);
        assert(owner_pool(counts) == owner_pool(c) + Seq::new(counts.last() as nat, |k: int| last));
    }
}

/// The owner of every transaction slot: user `u` once for each of its `counts[u]`
/// transactions, users in increasing order.
pub fn expand_counts(counts: &Vec<u64>) -> (pool: Vec<u64>)
    requires
        count_total(counts@) <= usize::MAX,
    ensures
        pool@ == owner_pool(counts@),
{
    let mut pool: Vec<u64> = Vec::new();
    let mut uid: usize = 0;
    while uid < counts.len()
        invariant
            0 <= uid <= counts@.len(),
            count_total(counts@) <= usize::MAX,
            pool@ == owner_pool(counts@.take(uid as int)),
        decreases counts@.len() - uid,
    {
        let cnt = counts[uid];
        let ghost before = pool@;
        proof {
            assert(counts@.take(uid as int + 1).drop_last() =~= counts@.take(uid as int));
            lemma_count_total_prefix(counts@, uid as int + 1);
            lemma_owner_pool_len(counts@.take(uid as int));
        }
        let mut k: u64 = 0;
        while k < cnt
            invariant
                0 <= k <= cnt,
                cnt == counts@[uid as int],
                uid < counts@.len(),
                before.len() + cnt <= usize::MAX,
                pool@ == before + Seq::new(k as nat, |m: int| uid as u64),
            decreases cnt - k,
        {
            pool.push(uid as u64);
            k += 1;
            assert(pool@ =~= before + Seq::new(k as nat, |m: int| uid as u64));
        }
        proof {
            assert(owner_pool(counts@.take(uid as int + 1)) =~= before + Seq::new(cnt as nat, |m: int| uid as u64));
        }
        uid += 1;
    }
    assert(counts@.take(counts@.len() as int) =~= counts@);
    pool
}

/// The counts handed out from a budget of `total`: each user but the last gets what it
/// asks for, capped at what is left; the last user gets whatever is left.
pub open spec fn apportioned(wanted: Seq<u64>, total: int) -> Seq<u64>
    decreases wanted.len(),
{
    if wanted.len() == 0 {
        Seq::empty()
    } else if wanted.len() == 1 {
        seq![total as u64]
    } else {
        let v: int = if wanted[0] < total { wanted[0] as int } else { total };
        seq![v as u64] + apportioned(wanted.drop_first(), total - v)
    }
}

proof fn lemma_count_total_front(a: Seq<u64>, b: Seq<u64>)
    ensures
        count_total(a + b) == count_total(a) + count_total(b),
    decreases b.len(),
{
    if b.len() == 0 {
        assert(a + b =~= a);
    } else {
        lemma_count_total_front(a, b.drop_last());
        assert((a + b).drop_last() =~= a + b.drop_last());
    }
}

/// The counts handed out add up to exactly the budget, and no user but the last gets
/// more than it asked for.
pub proof fn law_apportioned_sums_to_total(wanted: Seq<u64>, total: u64)
    requires
        wanted.len() >= 1,
    ensures
        apportioned(wanted, total as int).len() == wanted.len(),
        count_total(apportioned(wanted, total as int)) == total,
        forall|i: int| 0 <= i < wanted.len() - 1 ==> #[trigger] apportioned(wanted, total as int)[i] <= wanted[i],
    decreases wanted.len(),
{
    let out = apportioned(wanted, total as int);
    if wanted.len() == 1 {
        assert(out == seq![total]);
        assert(seq![total].drop_last() =~= Seq::<u64>::empty());
        assert(seq![total].last() == total);
        assert(count_total(Seq::<u64>::empty()) == 0);
    } else {
        let v: u64 = if wanted[0] < total { wanted[0] } else { total };
        let rest = wanted.drop_first();
        let tail = apportioned(rest, total - v);
        assert(out == seq![v] + tail);
        law_apportioned_sums_to_total(rest, (total - v) as u64);
        lemma_count_total_front(seq![v], tail);
        assert(seq![v].drop_last() =~= Seq::<u64>::empty());
        assert(seq![v].last() == v);
        assert(count_total(Seq::<u64>::empty()) == 0);
        assert forall|i: int| 0 <= i < wanted.len() - 1 implies #[trigger] out[i] <= wanted[i] by {
            if i > 0 {
                assert(out[i] == apportioned(rest, total - v)[i - 1]);
                assert(rest[i - 1] == wanted[i]);
            }
        }
    }
}

/// Hands out a budget of `total` transactions: user `i` asks for `wanted[i]`; each user
/// but the last gets that, capped at what is left, and the last user gets the rest.
pub fn apportion(wanted: &Vec<u64>, total: u64) -> (out: Vec<u64>)
    ensures
        out@ == apportioned(wanted@, total as int),
{
    let n = wanted.len();
    let mut out: Vec<u64> = Vec::new();
    let mut remaining = total;
    let mut i: usize = 0;
    proof {
        assert(wanted@.subrange(0, n as int) =~= wanted@);
        assert(out@ + apportioned(wanted@, total as int) =~= apportioned(wanted@, total as int));
    }
    while i < n
        invariant
            n == wanted@.len(),
            0 <= i <= n,
            out@ + apportioned(wanted@.subrange(i as int, n as int), remaining as int)
                == apportioned(wanted@, total as int),
        decreases n - i,
    {
        let ghost w = wanted@.subrange(i as int, n as int);
        let ghost before = out@;
        let ghost r0 = remaining;
        let val = if wanted[i] < remaining { wanted[i] } else { remaining };
        if i + 1 < n {
            out.push(val);
            remaining = remaining - val;
            proof {
                assert(w.drop_first() =~= wanted@.subrange(i + 1, n as int));
                assert(apportioned(w, r0 as int) == seq![val] + apportioned(w.drop_first(), r0 - val));
                assert(out@ + apportioned(wanted@.subrange(i + 1, n as int), remaining as int)
                    =~= before + apportioned(w, r0 as int));
            }
        } else {
            out.push(remaining);
            proof {
                assert(w.len() == 1);
                assert(apportioned(w, r0 as int) =~= seq![r0]);
                assert(wanted@.subrange(i + 1, n as int) =~= Seq::<u64>::empty());
                assert(out@ + apportioned(wanted@.subrange(i + 1, n as int), remaining as int)
                    =~= before + apportioned(w, r0 as int));
            }
        }
        i += 1;
    }
    proof {
        assert(wanted@.subrange(n as int, n as int) =~= Seq::<u64>::empty());
        assert(out@ + Seq::<u64>::empty() =~= out@);
    }
    out
}

/// The member at position `offset` of cluster `cluster_id` (clusters of
/// `users_per_cluster` consecutive users), wrapped around the population.
pub fn cluster_member(cluster_id: usize, users_per_cluster: usize, offset: usize, num_users: usize) -> (r: usize)
    requires
        num_users > 0,
        cluster_id * users_per_cluster + offset <= usize::MAX,
    ensures
        r == (cluster_id * users_per_cluster + offset) % (num_users as int),
        r < num_users,
{
    proof {
        assert(0 <= cluster_id * users_per_cluster) by (nonlinear_arith);
    }
    (cluster_id * users_per_cluster + offset) % num_users
}

/// The destination `dest`, moved on to the next user (wrapping around) when it is the
/// source itself.
pub fn other_than(dest: usize, source: usize, num_users: usize) -> (r: usize)
    requires
        dest < num_users,
    ensures
        r == (if dest == source { ((dest + 1) % (num_users as int)) as usize } else { dest }),
        r < num_users,
        num_users >= 2 ==> r != source,
{
    if dest == source {
        let r = if dest + 1 == num_users { 0 } else { dest + 1 };
        proof {
            if dest + 1 == num_users {
                assert((num_users as int) % (num_users as int) == 0) by (nonlinear_arith) requires num_users > 0;
            } else {
                assert((dest + 1) % (num_users as int) == dest + 1) by (nonlinear_arith) requires 0 <= dest + 1 < num_users;
            }
        }
        r
    } else {
        dest
    }
}

} // verus!
