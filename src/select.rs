//! Ranking of candidates and greedy choice of a disjoint set among them.
use vstd::prelude::*;
use crate::interval::Interval;

verus! {

/// Candidate `j` ranks above candidate `i`: a higher average speed, or the same
/// speed and a later place in the scan, which is never earlier in time.
pub open spec fn outranks(c: Seq<Interval>, j: int, i: int) -> bool {
    c[j].rank > c[i].rank || (c[j].rank == c[i].rank && j > i)
}

/// An already accepted interval rules out a new one: the new one starts before
/// the old one stops (plus half the rest, `rest` being in seconds) and stops
/// after the old one starts.
pub open spec fn precludes(existing: Interval, new: Interval, rest: int) -> bool {
    new.start < existing.stop + rest * 500 && new.stop > existing.start
}

/// Some accepted candidate that ranks above `i` rules it out.
pub open spec fn blocked(c: Seq<Interval>, rest: int, m: Seq<bool>, i: int) -> bool {
    exists|j: int| 0 <= j < c.len() && m[j] && outranks(c, j, i) && precludes(c[j], c[i], rest)
}

/// `m` marks what the greedy selection accepts: taking candidates from the
/// highest rank down, each is kept unless a kept one rules it out.
pub open spec fn greedy_choice(c: Seq<Interval>, rest: int, m: Seq<bool>) -> bool {
    &&& m.len() == c.len()
    &&& forall|i: int| 0 <= i < c.len() ==> (m[i] <==> !blocked(c, rest, m, i))
}

/// No two accepted candidates overlap: the lower ranked of the two is never
/// ruled out by the higher ranked one.
pub proof fn lemma_greedy_disjoint(c: Seq<Interval>, rest: int, m: Seq<bool>)
    requires
        greedy_choice(c, rest, m),
    ensures
        forall|i: int, j: int|
            0 <= i < c.len() && 0 <= j < c.len() && m[i] && m[j] && outranks(c, j, i)
                ==> !precludes(c[j], c[i], rest),
{
    assert forall|i: int, j: int|
        0 <= i < c.len() && 0 <= j < c.len() && m[i] && m[j] && outranks(c, j, i) implies !precludes(
        c[j],
        c[i],
        rest,
    ) by {
        if precludes(c[j], c[i], rest) {
            assert(blocked(c, rest, m, i));
        }
    }
}

/// The greedy selection is a function of the candidates and the rest: two
/// markings that both satisfy it agree everywhere.
pub proof fn lemma_greedy_unique(c: Seq<Interval>, rest: int, m1: Seq<bool>, m2: Seq<bool>)
    requires
        greedy_choice(c, rest, m1),
        greedy_choice(c, rest, m2),
    ensures
        m1 == m2,
{
    assert forall|i: int| 0 <= i < c.len() implies m1[i] == m2[i] by {
        lemma_greedy_agree_at(c, rest, m1, m2, i);
    }
    assert(m1 =~= m2);
}

proof fn lemma_greedy_agree_at(c: Seq<Interval>, rest: int, m1: Seq<bool>, m2: Seq<bool>, i: int)
    requires
        greedy_choice(c, rest, m1),
        greedy_choice(c, rest, m2),
        0 <= i < c.len(),
    ensures
        m1[i] == m2[i],
    decreases (u64::MAX - c[i].rank) as nat, (c.len() - i) as nat,
{
    assert forall|j: int| 0 <= j < c.len() && outranks(c, j, i) implies m1[j] == m2[j] by {
        lemma_greedy_agree_at(c, rest, m1, m2, j);
    }
    if blocked(c, rest, m1, i) {
        let j = choose|j: int|
            0 <= j < c.len() && m1[j] && outranks(c, j, i) && precludes(c[j], c[i], rest);
        assert(m2[j]);
    }
    if blocked(c, rest, m2, i) {
        let j = choose|j: int|
            0 <= j < c.len() && m2[j] && outranks(c, j, i) && precludes(c[j], c[i], rest);
        assert(m1[j]);
    }
}

fn ranks_above(c: &Vec<Interval>, j: usize, i: usize) -> (r: bool)
    requires
        j < c@.len(),
        i < c@.len(),
    ensures
        r == outranks(c@, j as int, i as int),
{
    c[j].rank > c[i].rank || (c[j].rank == c[i].rank && j > i)
}

fn rules_out(existing: &Interval, new: &Interval, rest: u8) -> (r: bool)
    ensures
        r == precludes(*existing, *new, rest as int),
{
    (new.start as i128) < existing.stop as i128 + rest as i128 * 500 && new.stop > existing.start
}

/// `o` lists candidates from the highest rank down: no entry outranks one
/// listed before it.
pub open spec fn ranked_order(c: Seq<Interval>, o: Seq<usize>) -> bool {
    forall|p: int, q: int| 0 <= p < q < o.len() ==> !outranks(c, o[q] as int, o[p] as int)
}

/// Every entry of `o` is a position in `c`.
pub open spec fn in_bounds(c: Seq<Interval>, o: Seq<usize>) -> bool {
    forall|p: int| 0 <= p < o.len() ==> o[p] < c.len()
}

fn copy_range(v: &Vec<usize>, lo: usize, hi: usize) -> (r: Vec<usize>)
    requires
        lo <= hi <= v@.len(),
    ensures
        r@ == v@.subrange(lo as int, hi as int),
{
    let mut r: Vec<usize> = Vec::new();
    let mut k: usize = lo;
    while k < hi
        invariant
            lo <= k <= hi <= v@.len(),
            r@ == v@.subrange(lo as int, k as int),
        decreases hi - k,
    {
        r.push(v[k]);
        k = k + 1;
    }
    r
}

/// Merges two lists of candidates that are each from the highest rank down.
fn merge_ranked(c: &Vec<Interval>, left: Vec<usize>, right: Vec<usize>) -> (r: Vec<usize>)
    requires
        ranked_order(c@, left@),
        ranked_order(c@, right@),
        in_bounds(c@, left@),
        in_bounds(c@, right@),
    ensures
        ranked_order(c@, r@),
        in_bounds(c@, r@),
        r@.to_multiset() == left@.to_multiset().add(right@.to_multiset()),
{
    broadcast use vstd::seq_lib::group_to_multiset_ensures;

    let mut r: Vec<usize> = Vec::new();
    let mut i: usize = 0;
    let mut j: usize = 0;
    while i < left.len() || j < right.len()
        invariant
            ranked_order(c@, left@),
            ranked_order(c@, right@),
            in_bounds(c@, left@),
            in_bounds(c@, right@),
            i <= left@.len(),
            j <= right@.len(),
            ranked_order(c@, r@),
            in_bounds(c@, r@),
            r@.to_multiset() == left@.subrange(0, i as int).to_multiset().add(
                right@.subrange(0, j as int).to_multiset(),
            ),
            r@.len() > 0 ==> forall|p: int|
                i <= p < left@.len() ==> !outranks(c@, left@[p] as int, r@.last() as int),
            r@.len() > 0 ==> forall|p: int|
                j <= p < right@.len() ==> !outranks(c@, right@[p] as int, r@.last() as int),
        decreases left@.len() + right@.len() - i - j,
    {
        let ghost before = r@;
        let ghost li = i as int;
        let ghost rj = j as int;
        let ghost ml = left@.subrange(0, li).to_multiset();
        let ghost mr = right@.subrange(0, rj).to_multiset();
        if j == right.len() || (i < left.len() && !ranks_above(c, right[j], left[i])) {
            let x = left[i];
            proof {
                assert(left@.subrange(0, li + 1) =~= left@.subrange(0, li).push(x));
                vstd::seq_lib::to_multiset_build(left@.subrange(0, li), x);
                assert(left@.subrange(0, li + 1).to_multiset() =~= ml.insert(x));
                assert forall|p: int| rj <= p < right@.len() implies !outranks(
                    c@,
                    right@[p] as int,
                    x as int,
                ) by {
                    assert(!outranks(c@, right@[rj] as int, x as int));
                    if p > rj {
                        assert(!outranks(c@, right@[p] as int, right@[rj] as int));
                    }
                }
                assert forall|p: int| li + 1 <= p < left@.len() implies !outranks(
                    c@,
                    left@[p] as int,
                    x as int,
                ) by {
                    assert(!outranks(c@, left@[p] as int, left@[li] as int));
                }
            }
            r.push(x);
            i = i + 1;
            proof {
                assert(r@ == before.push(x));
                vstd::seq_lib::to_multiset_build(before, x);
                assert(r@.to_multiset() =~= before.to_multiset().insert(x));
                assert(r@.to_multiset() =~= ml.insert(x).add(mr));
            }
        } else {
            let x = right[j];
            proof {
                assert(right@.subrange(0, rj + 1) =~= right@.subrange(0, rj).push(x));
                vstd::seq_lib::to_multiset_build(right@.subrange(0, rj), x);
                assert(right@.subrange(0, rj + 1).to_multiset() =~= mr.insert(x));
                assert forall|p: int| li <= p < left@.len() implies !outranks(
                    c@,
                    left@[p] as int,
                    x as int,
                ) by {
                    assert(outranks(c@, x as int, left@[li] as int));
                    if p > li {
                        assert(!outranks(c@, left@[p] as int, left@[li] as int));
                    }
                }
                assert forall|p: int| rj + 1 <= p < right@.len() implies !outranks(
                    c@,
                    right@[p] as int,
                    x as int,
                ) by {
                    assert(!outranks(c@, right@[p] as int, right@[rj] as int));
                }
            }
            r.push(x);
            j = j + 1;
            proof {
                assert(r@ == before.push(x));
                vstd::seq_lib::to_multiset_build(before, x);
                assert(r@.to_multiset() =~= before.to_multiset().insert(x));
                assert(r@.to_multiset() =~= ml.add(mr.insert(x)));
            }
        }
        proof {
            assert forall|p: int, q: int| 0 <= p < q < r@.len() implies !outranks(
                c@,
                r@[q] as int,
                r@[p] as int,
            ) by {
                if q == r@.len() - 1 && p < q - 1 {
                    assert(r@[p] == before[p]);
                    assert(!outranks(c@, before.last() as int, before[p] as int));
                }
            }
        }
    }
    proof {
        assert(left@.subrange(0, i as int) =~= left@);
        assert(right@.subrange(0, j as int) =~= right@);
    }
    r
}

/// Orders candidate positions from the highest rank down.
fn sort_by_rank(c: &Vec<Interval>, v: Vec<usize>) -> (r: Vec<usize>)
    requires
        in_bounds(c@, v@),
    ensures
        ranked_order(c@, r@),
        in_bounds(c@, r@),
        r@.to_multiset() == v@.to_multiset(),
    decreases v@.len(),
{
    if v.len() <= 1 {
        return v;
    }
    let mid = v.len() / 2;
    let left = copy_range(&v, 0, mid);
    let right = copy_range(&v, mid, v.len());
    proof {
        assert(v@ =~= left@ + right@);
        vstd::seq_lib::lemma_multiset_commutative(left@, right@);
    }
    let left = sort_by_rank(c, left);
    let right = sort_by_rank(c, right);
    merge_ranked(c, left, right)
}

/// The positions `0 .. n` in order, each once, listed from the highest rank
/// down.
fn ranked_positions(c: &Vec<Interval>) -> (r: Vec<usize>)
    ensures
        ranked_order(c@, r@),
        in_bounds(c@, r@),
        r@.len() == c@.len(),
        r@.no_duplicates(),
        forall|i: usize| i < c@.len() ==> r@.contains(i),
{
    broadcast use vstd::seq_lib::group_to_multiset_ensures;

    let n = c.len();
    let mut v: Vec<usize> = Vec::new();
    let mut k: usize = 0;
    while k < n
        invariant
            k <= n == c@.len(),
            v@ == Seq::new(k as nat, |i: int| i as usize),
        decreases n - k,
    {
        v.push(k);
        k = k + 1;
        assert(v@ =~= Seq::new(k as nat, |i: int| i as usize));
    }
    let ghost all = v@;
    assert(all.no_duplicates());
    proof {
        all.lemma_multiset_has_no_duplicates();
    }
    let r = sort_by_rank(c, v);
    proof {
        r@.lemma_multiset_has_no_duplicates_conv();
        assert(r@.to_multiset().len() == r@.len());
        assert(all.to_multiset().len() == all.len());
        assert forall|i: usize| i < n implies r@.contains(i) by {
            assert(all[i as int] == i);
            assert(all.contains(i));
            assert(all.to_multiset().count(i) > 0);
            assert(r@.to_multiset().count(i) > 0);
        }
    }
    r
}

/// Takes the candidates from the highest rank down and keeps each one that no
/// kept candidate rules out. The result marks, for each candidate, whether it
/// was kept.
pub fn disjoint_mask(c: &Vec<Interval>, rest: u8) -> (m: Vec<bool>)
    ensures
        greedy_choice(c@, rest as int, m@),
        forall|i: int, j: int|
            0 <= i < c@.len() && 0 <= j < c@.len() && m@[i] && m@[j] && outranks(c@, j, i)
                ==> !precludes(c@[j], c@[i], rest as int),
{
    let n = c.len();
    let order = ranked_positions(c);
    let mut chosen: Vec<bool> = Vec::new();
    let mut k: usize = 0;
    while k < n
        invariant
            k <= n == c@.len(),
            chosen@.len() == k,
            forall|i: int| 0 <= i < k ==> !chosen@[i],
        decreases n - k,
    {
        chosen.push(false);
        k = k + 1;
    }
    let mut kept: Vec<usize> = Vec::new();
    let ghost mut taken: Seq<bool> = Seq::new(n as nat, |i: int| false);
    let mut k: usize = 0;
    while k < n
        invariant
            n == c@.len(),
            k <= n,
            ranked_order(c@, order@),
            in_bounds(c@, order@),
            order@.len() == n,
            order@.no_duplicates(),
            forall|i: usize| i < n ==> order@.contains(i),
            taken.len() == n,
            chosen@.len() == n,
            forall|i: int| 0 <= i < n ==> (taken[i] <==> exists|p: int| 0 <= p < k && order@[p] == i),
            forall|i: int| 0 <= i < n && chosen@[i] ==> taken[i],
            forall|q: int| 0 <= q < kept@.len() ==> kept@[q] < n && chosen@[kept@[q] as int],
            forall|i: int| 0 <= i < n && chosen@[i] ==> kept@.contains(i as usize),
            forall|i: int|
                0 <= i < n && taken[i] ==> (chosen@[i] <==> !blocked(c@, rest as int, chosen@, i)),
        decreases n - k,
    {
        let x = order[k];
        let ghost xi = x as int;
        proof {
            assert(!taken[xi]) by {
                if taken[xi] {
                    let p = choose|p: int| 0 <= p < k && order@[p] == xi;
                    assert(order@[p] == order@[k as int]);
                }
            }
            assert forall|i: int| 0 <= i < n && taken[i] implies outranks(c@, i, xi) by {
                let p = choose|p: int| 0 <= p < k && order@[p] == i;
                assert(!outranks(c@, order@[k as int] as int, order@[p] as int));
            }
        }
        let mut is_blocked = false;
        let mut q: usize = 0;
        while q < kept.len()
            invariant
                n == c@.len(),
                x < n,
                q <= kept@.len(),
                is_blocked == exists|p: int|
                    0 <= p < q && precludes(c@[kept@[p] as int], c@[x as int], rest as int),
                forall|p: int| 0 <= p < kept@.len() ==> kept@[p] < n,
            decreases kept@.len() - q,
        {
            if rules_out(&c[kept[q]], &c[x], rest) {
                is_blocked = true;
            }
            q = q + 1;
        }
        let ghost old_chosen = chosen@;
        let ghost old_taken = taken;
        proof {
            if is_blocked {
                let p = choose|p: int|
                    0 <= p < kept@.len() && precludes(c@[kept@[p] as int], c@[xi], rest as int);
                let j = kept@[p] as int;
                assert(old_chosen[j]);
                assert(taken[j]);
                assert(outranks(c@, j, xi));
                assert(blocked(c@, rest as int, old_chosen, xi));
            }
            if blocked(c@, rest as int, old_chosen, xi) {
                let j = choose|j: int|
                    0 <= j < n && old_chosen[j] && outranks(c@, j, xi) && precludes(c@[j], c@[xi], rest as int);
                assert(kept@.contains(j as usize));
                let p = choose|p: int| 0 <= p < kept@.len() && kept@[p] == j as usize;
                assert(is_blocked);
            }
        }
        let ghost old_kept = kept@;
        if !is_blocked {
            chosen.set(x, true);
            kept.push(x);
        }
        proof {
            taken = taken.update(xi, true);
            assert forall|i: int|
                0 <= i < n && taken[i] implies (chosen@[i] <==> !blocked(c@, rest as int, chosen@, i)) by {
                if i == xi {
                    if !is_blocked && blocked(c@, rest as int, chosen@, i) {
                        let j = choose|j: int|
                            0 <= j < n && chosen@[j] && outranks(c@, j, i) && precludes(c@[j], c@[i], rest as int);
                        assert(j != xi);
                        assert(old_chosen[j]);
                        assert(blocked(c@, rest as int, old_chosen, xi));
                    }
                    if is_blocked {
                        let j = choose|j: int|
                            0 <= j < n && old_chosen[j] && outranks(c@, j, xi) && precludes(c@[j], c@[xi], rest as int);
                        assert(chosen@[j]);
                        assert(blocked(c@, rest as int, chosen@, i));
                    }
                } else {
                    assert(old_taken[i]);
                    assert(outranks(c@, i, xi));
                    if blocked(c@, rest as int, chosen@, i) {
                        let j = choose|j: int|
                            0 <= j < n && chosen@[j] && outranks(c@, j, i) && precludes(c@[j], c@[i], rest as int);
                        assert(j != xi);
                        assert(blocked(c@, rest as int, old_chosen, i));
                    }
                    if blocked(c@, rest as int, old_chosen, i) {
                        let j = choose|j: int|
                            0 <= j < n && old_chosen[j] && outranks(c@, j, i) && precludes(c@[j], c@[i], rest as int);
                        assert(chosen@[j]);
                    }
                }
            }
            assert forall|i: int| 0 <= i < n implies (taken[i] <==> exists|p: int|
                0 <= p < k + 1 && order@[p] == i) by {
                if i == xi {
                    assert(order@[k as int] == i);
                } else if taken[i] {
                    assert(old_taken[i]);
                }
            }
            assert forall|i: int| 0 <= i < n && chosen@[i] implies kept@.contains(i as usize) by {
                if i != xi {
                    assert(old_chosen[i]);
                    assert(old_kept.contains(i as usize));
                    let p = choose|p: int| 0 <= p < old_kept.len() && old_kept[p] == i as usize;
                    assert(kept@[p] == i as usize);
                } else {
                    assert(kept@[kept@.len() - 1] == x);
                }
            }
        }
        k = k + 1;
    }
    proof {
        assert forall|i: int| 0 <= i < n implies taken[i] by {
            assert(order@.contains(i as usize));
            let p = choose|p: int| 0 <= p < order@.len() && order@[p] == i as usize;
            assert(0 <= p < k && order@[p] == i);
        }
        assert forall|i: int| 0 <= i < c@.len() implies (chosen@[i] <==> !blocked(c@, rest as int, chosen@, i)) by {
            assert(taken[i]);
        }
        lemma_greedy_disjoint(c@, rest as int, chosen@);
    }
    chosen
}

} // verus!
