//! The `k`-element subsets of `0..n`, as increasing index lists in
//! lexicographic order.

use vstd::prelude::*;

verus! {

/// `c` with `x` in front of each of them.
pub open spec fn prepend_all(x: usize, cs: Seq<Seq<usize>>) -> Seq<Seq<usize>> {
    cs.map_values(|c: Seq<usize>| seq![x] + c)
}

/// `p` in front of each of `cs`.
pub open spec fn prefix_all(p: Seq<usize>, cs: Seq<Seq<usize>>) -> Seq<Seq<usize>> {
    cs.map_values(|c: Seq<usize>| p + c)
}

/// The `m`-element increasing lists drawn from `start..n`, in lexicographic
/// order: first those that begin with `start`, then those that do not.
pub open spec fn combos(start: int, n: int, m: int) -> Seq<Seq<usize>>
    decreases m, n - start,
{
    if m <= 0 {
        seq![seq![]]
    } else if start < 0 || start + m > n {
        seq![]
    } else {
        prepend_all(start as usize, combos(start + 1, n, m - 1)) + combos(start + 1, n, m)
    }
}

/// What `index_combinations(n, k)` returns: every `k`-combination of
/// `0..n` (for `k == 0`, the one empty combination; for `k > n`, none).
pub open spec fn spec_index_combinations(n: int, k: int) -> Seq<Seq<usize>> {
    combos(0, n, k)
}

/// The views of a list of index lists.
pub open spec fn rows(out: Seq<Vec<usize>>) -> Seq<Seq<usize>> {
    out.map_values(|r: Vec<usize>| r@)
}

/// `c` is a `k`-combination of `0..n`: `k` strictly increasing indexes below `n`.
pub open spec fn is_combination(c: Seq<usize>, n: int, k: int) -> bool {
    &&& c.len() == k
    &&& forall|i: int| 0 <= i < c.len() ==> c[i] < n
    &&& forall|i: int, j: int| 0 <= i < j < c.len() ==> c[i] < c[j]
}

/// The binomial coefficient `a` choose `b`.
pub open spec fn binomial(a: nat, b: nat) -> nat
    decreases a,
{
    if b == 0 {
        1
    } else if a == 0 {
        0
    } else {
        binomial((a - 1) as nat, (b - 1) as nat) + binomial((a - 1) as nat, b)
    }
}

fn copy_indexes(v: &Vec<usize>) -> (r: Vec<usize>)
    ensures
        r@ == v@,
{
    let mut r: Vec<usize> = Vec::new();
    let mut i: usize = 0;
    while i < v.len()
        invariant
            i <= v.len(),
            r@ == v@.take(i as int),
        decreases v.len() - i,
    {
        r.push(v[i]);
        assert(v@.take(i + 1) == v@.take(i as int).push(v@[i as int]));
        i = i + 1;
    }
    assert(v@.take(v.len() as int) == v@);
    r
}

proof fn lemma_prefix_all_concat(p: Seq<usize>, a: Seq<Seq<usize>>, b: Seq<Seq<usize>>)
    ensures
        prefix_all(p, a + b) == prefix_all(p, a) + prefix_all(p, b),
{
    assert(prefix_all(p, a + b) =~= prefix_all(p, a) + prefix_all(p, b));
}

proof fn lemma_prefix_all_push(p: Seq<usize>, x: usize, cs: Seq<Seq<usize>>)
    ensures
        prefix_all(p.push(x), cs) == prefix_all(p, prepend_all(x, cs)),
{
    assert forall|i: int| 0 <= i < cs.len() implies prefix_all(p.push(x), cs)[i] == prefix_all(
        p,
        prepend_all(x, cs),
    )[i] by {
        assert(p.push(x) + cs[i] =~= p + (seq![x] + cs[i]));
    }
    assert(prefix_all(p.push(x), cs) =~= prefix_all(p, prepend_all(x, cs)));
}

/// Appends to `out` every way to complete `current` into a `k`-combination
/// using indexes from `start` on.
fn collect_combinations(n: usize, k: usize, start: usize, current: &mut Vec<usize>, out: &mut Vec<Vec<usize>>)
    requires
        old(current).len() <= k <= n,
        start + (k - old(current).len()) <= n + 1,
    ensures
        final(current)@ == old(current)@,
        rows(final(out)@) == rows(old(out)@) + prefix_all(
            old(current)@,
            combos(start as int, n as int, k - old(current).len()),
        ),
    decreases k - old(current).len(),
{
    if current.len() == k {
        let row = copy_indexes(current);
        let ghost old_out = out@;
        out.push(row);
        assert(rows(out@) =~= rows(old_out).push(current@));
        assert(prefix_all(current@, seq![seq![]]) =~= seq![current@]);
        return;
    }
    let missing = k - current.len();
    let ghost cur = current@;
    let ghost out0 = rows(out@);
    let mut i: usize = start;
    while i <= n - missing
        invariant
            current@ == cur,
            cur == old(current)@,
            cur.len() + missing == k,
            1 <= missing <= k <= n,
            start <= i,
            i <= n - missing + 1,
            rows(out@) + prefix_all(cur, combos(i as int, n as int, missing as int)) == out0 + prefix_all(
                cur,
                combos(start as int, n as int, missing as int),
            ),
        decreases n - missing + 1 - i,
    {
        let ghost before = rows(out@);
        let ghost first = combos(i + 1, n as int, missing - 1);
        let ghost second = combos(i + 1, n as int, missing as int);
        assert(combos(i as int, n as int, missing as int) == prepend_all(i, first) + second);
        current.push(i);
        collect_combinations(n, k, i + 1, current, out);
        current.pop();
        proof {
            assert(current@ =~= cur);
            lemma_prefix_all_push(cur, i, first);
            lemma_prefix_all_concat(cur, prepend_all(i, first), second);
            assert(rows(out@) == before + prefix_all(cur, prepend_all(i, first)));
        }
        i = i + 1;
    }
    assert(combos(i as int, n as int, missing as int) == Seq::<Seq<usize>>::empty());
    assert(prefix_all(cur, Seq::<Seq<usize>>::empty()) =~= Seq::<Seq<usize>>::empty());
    assert(rows(out@) + Seq::<Seq<usize>>::empty() =~= rows(out@));
}

/// Returns every `k`-sized combination of indexes from `0..n`.
pub fn index_combinations(n: usize, k: usize) -> (r: Vec<Vec<usize>>)
    ensures
        rows(r@) == spec_index_combinations(n as int, k as int),
{
    if k > n {
        let r: Vec<Vec<usize>> = Vec::new();
        assert(rows(r@) =~= Seq::<Seq<usize>>::empty());
        return r;
    }
    let mut out: Vec<Vec<usize>> = Vec::new();
    let mut current: Vec<usize> = Vec::new();
    collect_combinations(n, k, 0, &mut current, &mut out);
    assert(rows(Seq::<Vec<usize>>::empty()) =~= Seq::<Seq<usize>>::empty());
    assert(prefix_all(Seq::<usize>::empty(), combos(0, n as int, k as int)) =~= combos(0, n as int, k as int));
    out
}


pub(crate) proof fn lemma_combos_sound(start: int, n: int, m: int)
    requires
        m >= 0,
        n <= usize::MAX,
    ensures
        forall|i: int| 0 <= i < combos(start, n, m).len() ==> {
            &&& is_combination(#[trigger] combos(start, n, m)[i], n, m)
            &&& forall|j: int| 0 <= j < m ==> combos(start, n, m)[i][j] >= start
        },
    decreases m, n - start,
{
    if m == 0 || start < 0 || start + m > n {
    } else {
        lemma_combos_sound(start + 1, n, m - 1);
        lemma_combos_sound(start + 1, n, m);
        let a = combos(start + 1, n, m - 1);
        let b = combos(start + 1, n, m);
        let cs = combos(start, n, m);
        assert(cs == prepend_all(start as usize, a) + b);
        assert forall|i: int| 0 <= i < cs.len() implies {
            &&& is_combination(#[trigger] cs[i], n, m)
            &&& forall|j: int| 0 <= j < m ==> cs[i][j] >= start
        } by {
            if i < a.len() {
                let c = cs[i];
                assert(c == seq![start as usize] + a[i]);
                assert(is_combination(a[i], n, m - 1));
                assert forall|x: int, y: int| 0 <= x < y < c.len() implies c[x] < c[y] by {
                    if x > 0 {
                        assert(c[x] == a[i][x - 1]);
                    }
                    assert(c[y] == a[i][y - 1]);
                }
                assert forall|j: int| 0 <= j < c.len() implies c[j] < n && c[j] >= start by {
                    if j > 0 {
                        assert(c[j] == a[i][j - 1]);
                    }
                }
            } else {
                assert(cs[i] == b[i - a.len()]);
            }
        }
    }
}

pub(crate) proof fn lemma_combos_complete(start: int, n: int, m: int, c: Seq<usize>)
    requires
        m >= 0,
        n <= usize::MAX,
        start >= 0,
        is_combination(c, n, m),
        forall|j: int| 0 <= j < m ==> c[j] >= start,
    ensures
        combos(start, n, m).contains(c),
    decreases m, n - start,
{
    if m == 0 {
        assert(c =~= Seq::<usize>::empty());
        assert(combos(start, n, m)[0] == c);
    } else {
        let a = combos(start + 1, n, m - 1);
        let b = combos(start + 1, n, m);
        if c[0] == start {
            let d = c.drop_first();
            assert forall|x: int, y: int| 0 <= x < y < d.len() implies d[x] < d[y] by {
                assert(d[x] == c[x + 1] && d[y] == c[y + 1]);
            }
            assert forall|j: int| 0 <= j < m - 1 implies d[j] >= start + 1 by {
                assert(d[j] == c[j + 1]);
                assert(c[0] < c[j + 1]);
            }
            lemma_combos_complete(start + 1, n, m - 1, d);
            if start + m > n {
                assert(m - 1 > 0);
            } else {
                let t = choose|t: int| 0 <= t < a.len() && a[t] == d;
                assert(c =~= seq![start as usize] + d);
                let cs = combos(start, n, m);
                assert(cs == prepend_all(start as usize, a) + b);
                assert(cs[t] == c);
            }
        } else {
            lemma_combos_complete(start + 1, n, m, c);
            let t = choose|t: int| 0 <= t < b.len() && b[t] == c;
            let cs = combos(start, n, m);
            assert(cs == prepend_all(start as usize, a) + b);
            assert(cs[a.len() + t] == c);
        }
    }
}

proof fn lemma_combos_distinct(start: int, n: int, m: int)
    requires
        m >= 0,
        n <= usize::MAX,
    ensures
        forall|i: int, j: int|
            0 <= i < j < combos(start, n, m).len() ==> combos(start, n, m)[i] != combos(start, n, m)[j],
    decreases m, n - start,
{
    if m == 0 || start < 0 || start + m > n {
    } else {
        lemma_combos_distinct(start + 1, n, m - 1);
        lemma_combos_distinct(start + 1, n, m);
        lemma_combos_sound(start + 1, n, m);
        let a = combos(start + 1, n, m - 1);
        let b = combos(start + 1, n, m);
        let cs = combos(start, n, m);
        assert(cs == prepend_all(start as usize, a) + b);
        assert forall|i: int, j: int| 0 <= i < j < cs.len() implies cs[i] != cs[j] by {
            if j < a.len() {
                assert(cs[i].drop_first() == a[i]);
                assert(cs[j].drop_first() == a[j]);
            } else if i < a.len() {
                assert(cs[i][0] == start);
                assert(cs[j] == b[j - a.len()]);
                assert(b[j - a.len()][0] >= start + 1);
            } else {
                assert(cs[i] == b[i - a.len()]);
                assert(cs[j] == b[j - a.len()]);
            }
        }
    }
}

proof fn lemma_binomial_zero(a: nat, b: nat)
    requires
        b > a,
    ensures
        binomial(a, b) == 0,
    decreases a,
{
    if a > 0 {
        lemma_binomial_zero((a - 1) as nat, (b - 1) as nat);
        lemma_binomial_zero((a - 1) as nat, b);
    }
}

proof fn lemma_combos_len(start: int, n: int, m: int)
    requires
        m >= 0,
        0 <= start <= n,
    ensures
        combos(start, n, m).len() == binomial((n - start) as nat, m as nat),
    decreases m, n - start,
{
    if m == 0 {
    } else if start + m > n {
        lemma_binomial_zero((n - start) as nat, m as nat);
    } else {
        lemma_combos_len(start + 1, n, m - 1);
        lemma_combos_len(start + 1, n, m);
    }
}

/// Every list that `index_combinations(n, k)` returns is a `k`-combination
/// of `0..n`: `k` strictly increasing indexes, each below `n`.
pub proof fn lemma_index_combinations_sound(n: usize, k: usize)
    ensures
        forall|i: int|
            0 <= i < spec_index_combinations(n as int, k as int).len() ==> is_combination(
                #[trigger] spec_index_combinations(n as int, k as int)[i],
                n as int,
                k as int,
            ),
{
    lemma_combos_sound(0, n as int, k as int);
}

/// Every `k`-combination of `0..n` is among the lists that
/// `index_combinations(n, k)` returns.
pub proof fn lemma_index_combinations_complete(n: usize, k: usize, c: Seq<usize>)
    requires
        is_combination(c, n as int, k as int),
    ensures
        spec_index_combinations(n as int, k as int).contains(c),
{
    lemma_combos_complete(0, n as int, k as int, c);
}

/// The lists that `index_combinations(n, k)` returns are pairwise distinct.
pub proof fn lemma_index_combinations_distinct(n: usize, k: usize)
    ensures
        forall|i: int, j: int|
            0 <= i < j < spec_index_combinations(n as int, k as int).len() ==> spec_index_combinations(
                n as int,
                k as int,
            )[i] != spec_index_combinations(n as int, k as int)[j],
{
    lemma_combos_distinct(0, n as int, k as int);
}

/// `index_combinations(n, k)` returns `n` choose `k` lists.
pub proof fn lemma_index_combinations_count(n: usize, k: usize)
    ensures
        spec_index_combinations(n as int, k as int).len() == binomial(n as nat, k as nat),
{
    lemma_combos_len(0, n as int, k as int);
}

} // verus!
