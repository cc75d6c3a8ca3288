//! Acyclicity of the conclusion dependencies: a ranking of the atoms, or a cycle.
use vstd::prelude::*;
use crate::model::{Conclusion, Rule};
use vstd::arithmetic::div_mod::{lemma_mod_self_0, lemma_small_mod};

verus! {

/// The atom that a rule concludes, if it concludes an atom rather than a goal.
pub open spec fn concl_atom(rule: Rule) -> Option<usize> {
    match rule.conclusion {
        Conclusion::Fact { atom, choice } => Some(atom),
        Conclusion::Goal { goal } => None,
    }
}

/// Every condition of every rule names an atom below `n`.
pub open spec fn refs_below(rules: Seq<Rule>, n: int) -> bool {
    &&& forall|r: int, j: int|
        0 <= r < rules.len() && 0 <= j < rules[r].conditions@.len()
            ==> #[trigger] rules[r].conditions@[j].atom < n
    &&& forall|r: int| 0 <= r < rules.len() && (#[trigger] concl_atom(rules[r])) is Some ==> concl_atom(rules[r])->0 < n
}

/// Atom `a` is concluded by a rule with a condition on atom `b`.
pub open spec fn depends(rules: Seq<Rule>, a: int, b: int) -> bool {
    exists|r: int, j: int|
        0 <= r < rules.len() && 0 <= j < rules[r].conditions@.len() && concl_atom(rules[r])
            == Some(a as usize) && #[trigger] rules[r].conditions@[j].atom == b
}

/// A closed walk through the dependencies: each atom depends on the next, and
/// the last on the first.
pub open spec fn is_cycle(rules: Seq<Rule>, path: Seq<usize>) -> bool {
    &&& path.len() > 0
    &&& forall|i: int|
        0 <= i < path.len() ==> depends(
            rules,
            #[trigger] path[i] as int,
            path[(i + 1) % (path.len() as int)] as int,
        )
}

/// Ranks below `n` under which every atom outranks the atoms its rules depend on.
pub open spec fn ranks_ok(rules: Seq<Rule>, n: int, ranks: Seq<usize>) -> bool {
    &&& ranks.len() == n
    &&& forall|a: int| 0 <= a < n ==> #[trigger] ranks[a] < n
    &&& forall|r: int, j: int|
        0 <= r < rules.len() && 0 <= j < rules[r].conditions@.len() && concl_atom(rules[r]) is Some
            ==> ranks[#[trigger] rules[r].conditions@[j].atom as int]
            < ranks[concl_atom(rules[r])->0 as int]
}

pub open spec fn count_none(s: Seq<Option<usize>>) -> nat
    decreases s.len(),
{
    if s.len() == 0 {
        0
    } else {
        count_none(s.drop_last()) + if s.last() is None {
            1nat
        } else {
            0nat
        }
    }
}

proof fn lemma_count_none_update(s: Seq<Option<usize>>, i: int, v: usize)
    requires
        0 <= i < s.len(),
        s[i] is None,
    ensures
        count_none(s.update(i, Some(v))) + 1 == count_none(s),
    decreases s.len(),
{
    let t = s.update(i, Some(v));
    if i < s.len() - 1 {
        assert(t.drop_last() =~= s.drop_last().update(i, Some(v)));
        lemma_count_none_update(s.drop_last(), i, v);
    } else {
        assert(t.drop_last() =~= s.drop_last());
    }
}

proof fn lemma_count_none_zero(s: Seq<Option<usize>>)
    ensures
        count_none(s) <= s.len(),
        count_none(s) == 0 ==> forall|i: int| 0 <= i < s.len() ==> (#[trigger] s[i]) is Some,
    decreases s.len(),
{
    if s.len() > 0 {
        lemma_count_none_zero(s.drop_last());
        assert forall|i: int| 0 <= i < s.len() - 1 implies s[i] == s.drop_last()[i] by {}
    }
}

/// The ranks assigned so far are consistent: each is below `next`, and every
/// assigned atom's dependencies were assigned before it.
pub open spec fn assigned_ok(rules: Seq<Rule>, n: int, s: Seq<Option<usize>>, next: int) -> bool {
    &&& s.len() == n
    &&& forall|a: int| 0 <= a < n && (#[trigger] s[a]) is Some ==> s[a]->0 < next
    &&& forall|r: int, j: int|
        0 <= r < rules.len() && 0 <= j < rules[r].conditions@.len() && concl_atom(rules[r]) is Some
            && s[concl_atom(rules[r])->0 as int] is Some ==> {
            let b = #[trigger] rules[r].conditions@[j].atom as int;
            s[b] is Some && s[b]->0 < s[concl_atom(rules[r])->0 as int]->0
        }
}

/// Atom `a` has every dependency assigned.
pub open spec fn ready(rules: Seq<Rule>, s: Seq<Option<usize>>, a: int) -> bool {
    forall|r: int, j: int|
        0 <= r < rules.len() && 0 <= j < rules[r].conditions@.len() && concl_atom(rules[r]) == Some(
            a as usize,
        ) ==> s[#[trigger] rules[r].conditions@[j].atom as int] is Some
}

/// A dependency of atom `a` that is not assigned yet, if there is one.
fn unassigned_dependency(rules: &Vec<Rule>, s: &Vec<Option<usize>>, a: usize) -> (d: Option<usize>)
    requires
        refs_below(rules@, s@.len() as int),
    ensures
        d is None ==> ready(rules@, s@, a as int),
        d matches Some(b) ==> b < s@.len() && s@[b as int] is None && depends(
            rules@,
            a as int,
            b as int,
        ),
{
    for r in 0..rules.len()
        invariant
            refs_below(rules@, s@.len() as int),
            forall|x: int, j: int|
                0 <= x < r && 0 <= j < rules@[x].conditions@.len() && concl_atom(rules@[x]) == Some(
                    a,
                ) ==> s@[#[trigger] rules@[x].conditions@[j].atom as int] is Some,
    {
        let is_a = match rules[r].conclusion {
            Conclusion::Fact { atom, choice } => atom == a,
            Conclusion::Goal { goal } => false,
        };
        if is_a {
            let conds = &rules[r].conditions;
            for j in 0..conds.len()
                invariant
                    r < rules@.len(),
                    refs_below(rules@, s@.len() as int),
                    *conds == rules@[r as int].conditions,
                    concl_atom(rules@[r as int]) == Some(a),
                    forall|y: int|
                        0 <= y < j ==> s@[#[trigger] rules@[r as int].conditions@[y].atom as int] is Some,
            {
                let b = conds[j].atom;
                assert(rules@[r as int].conditions@[j as int].atom < s@.len());
                if s[b].is_none() {
                    assert(rules@[r as int].conditions@[j as int].atom == b);
                    return Some(b);
                }
            }
        }
    }
    None
}

/// Ranks for the atoms `0..n` under which each atom outranks its dependencies, or
/// a cycle of dependencies when there are none.
pub fn rank_atoms(rules: &Vec<Rule>, n: usize) -> (res: Result<Vec<usize>, Vec<usize>>)
    requires
        refs_below(rules@, n as int),
    ensures
        res matches Ok(ranks) ==> ranks_ok(rules@, n as int, ranks@),
        res matches Err(path) ==> is_cycle(rules@, path@) && forall|i: int|
            0 <= i < path@.len() ==> #[trigger] path@[i] < n,
{
    let mut s: Vec<Option<usize>> = Vec::new();
    for a in 0..n
        invariant
            s@.len() == a,
            forall|x: int| 0 <= x < a ==> (#[trigger] s@[x]) is None,
    {
        s.push(None);
    }
    proof {
        assert(count_none(s@) == n) by {
            lemma_count_all_none(s@);
        }
    }
    let mut next: usize = 0;
    loop
        invariant
            refs_below(rules@, n as int),
            assigned_ok(rules@, n as int, s@, next as int),
            next + count_none(s@) == n,
        ensures
            refs_below(rules@, n as int),
            assigned_ok(rules@, n as int, s@, next as int),
            next <= n,
            forall|x: int| 0 <= x < n && (#[trigger] s@[x]) is None ==> !ready(rules@, s@, x),
        decreases count_none(s@),
    {
        let ghost start = count_none(s@);
        let mut changed = false;
        for a in 0..n
            invariant
                refs_below(rules@, n as int),
                assigned_ok(rules@, n as int, s@, next as int),
                next + count_none(s@) == n,
                changed ==> count_none(s@) < start,
                !changed ==> count_none(s@) == start,
                !changed ==> forall|x: int| 0 <= x < a && (#[trigger] s@[x]) is None ==> !ready(rules@, s@, x),
        {
            if s[a].is_none() {
                let d = unassigned_dependency(rules, &s, a);
                if d.is_none() {
                    proof {
                        lemma_count_none_update(s@, a as int, next);
                        lemma_count_none_zero(s@.update(a as int, Some(next)));
                    }
                    proof {
                        lemma_assign(rules@, n as int, s@, next as int, a as int);
                    }
                    s.set(a, Some(next));
                    next = next + 1;
                    changed = true;
                }
            }
        }
        if !changed {
            proof {
                lemma_count_none_zero(s@);
            }
            break;
        }
    }
    // No atom can be ranked any more.
    let mut first: Option<usize> = None;
    for a in 0..n
        invariant
            s@.len() == n,
            first is None ==> forall|x: int| 0 <= x < a ==> (#[trigger] s@[x]) is Some,
            first matches Some(f) ==> f < n && s@[f as int] is None,
    {
        if first.is_none() && s[a].is_none() {
            first = Some(a);
        }
    }
    match first {
        None => {
            let mut ranks: Vec<usize> = Vec::new();
            for a in 0..n
                invariant
                    assigned_ok(rules@, n as int, s@, next as int),
                    next <= n,
                    forall|x: int| 0 <= x < n ==> (#[trigger] s@[x]) is Some,
                    ranks@.len() == a,
                    forall|x: int| 0 <= x < a ==> ranks@[x] == s@[x]->0,
            {
                ranks.push(s[a].unwrap());
            }
            proof {
                assert forall|x: int| 0 <= x < n implies #[trigger] ranks@[x] < n by {
                    assert(s@[x] is Some);
                }
                assert forall|r: int, j: int|
                    0 <= r < rules@.len() && 0 <= j < rules@[r].conditions@.len() && concl_atom(rules@[r]) is Some
                    implies ranks@[#[trigger] rules@[r].conditions@[j].atom as int]
                        < ranks@[concl_atom(rules@[r])->0 as int] by {
                    assert(rules@[r].conditions@[j].atom < n);
                    assert(s@[concl_atom(rules@[r])->0 as int] is Some);
                }
            }
            Ok(ranks)
        },
        Some(start_atom) => Err(find_cycle(rules, &s, start_atom)),
    }
}

proof fn lemma_assign(rules: Seq<Rule>, n: int, s: Seq<Option<usize>>, next: int, a: int)
    requires
        refs_below(rules, n),
        assigned_ok(rules, n, s, next),
        0 <= a < n,
        0 <= next < usize::MAX,
        s[a] is None,
        ready(rules, s, a),
    ensures
        assigned_ok(rules, n, s.update(a, Some(next as usize)), next + 1),
{
    let t = s.update(a, Some(next as usize));
    assert forall|r: int, j: int|
        0 <= r < rules.len() && 0 <= j < rules[r].conditions@.len() && concl_atom(rules[r]) is Some
            && t[concl_atom(rules[r])->0 as int] is Some implies {
        let b = #[trigger] rules[r].conditions@[j].atom as int;
        t[b] is Some && t[b]->0 < t[concl_atom(rules[r])->0 as int]->0
    } by {
        let c = concl_atom(rules[r])->0 as int;
        let b = rules[r].conditions@[j].atom as int;
        if c == a {
            assert(s[b] is Some);
            assert(b != a);
        } else {
            assert(s[c] is Some);
            assert(s[b] is Some);
        }
    }
}

proof fn lemma_count_all_none(s: Seq<Option<usize>>)
    requires
        forall|x: int| 0 <= x < s.len() ==> (#[trigger] s[x]) is None,
    ensures
        count_none(s) == s.len(),
    decreases s.len(),
{
    if s.len() > 0 {
        lemma_count_all_none(s.drop_last());
    }
}

proof fn lemma_ranks_descend(rules: Seq<Rule>, n: int, ranks: Seq<usize>, path: Seq<usize>, k: int)
    requires
        ranks_ok(rules, n, ranks),
        is_cycle(rules, path),
        forall|i: int| 0 <= i < path.len() ==> #[trigger] path[i] < n,
        0 <= k < path.len(),
    ensures
        ranks[path[k] as int] + k <= ranks[path[0] as int],
    decreases k,
{
    if k > 0 {
        lemma_ranks_descend(rules, n, ranks, path, k - 1);
        lemma_small_mod(k as nat, path.len() as nat);
        lemma_edge_descends(rules, n, ranks, path[k - 1] as int, path[k] as int);
    }
}

proof fn lemma_edge_descends(rules: Seq<Rule>, n: int, ranks: Seq<usize>, a: int, b: int)
    requires
        ranks_ok(rules, n, ranks),
        depends(rules, a, b),
        0 <= a < n,
        a <= usize::MAX,
    ensures
        ranks[b] < ranks[a],
{
    let (r, j) = choose|r: int, j: int|
        0 <= r < rules.len() && 0 <= j < rules[r].conditions@.len() && concl_atom(rules[r])
            == Some(a as usize) && #[trigger] rules[r].conditions@[j].atom == b;
    assert(ranks[rules[r].conditions@[j].atom as int] < ranks[concl_atom(rules[r])->0 as int]);
}

/// A cycle of dependencies and a ranking exclude each other: no ranking exists
/// for rules that contain a cycle, so the cycle that loading reports is a true
/// reason to refuse the definition.
pub proof fn lemma_cycle_excludes_ranks(rules: Seq<Rule>, n: int, ranks: Seq<usize>, path: Seq<usize>)
    requires
        is_cycle(rules, path),
        forall|i: int| 0 <= i < path.len() ==> #[trigger] path[i] < n,
    ensures
        !ranks_ok(rules, n, ranks),
{
    if ranks_ok(rules, n, ranks) {
        let m = path.len() as int;
        let last = m - 1;
        lemma_ranks_descend(rules, n, ranks, path, last);
        assert((last + 1) % m == 0) by {
            lemma_mod_self_0(m);
        }
        assert(depends(rules, path[last] as int, path[(last + 1) % m] as int));
        lemma_edge_descends(rules, n, ranks, path[last] as int, path[0] as int);
    }
}

/// Follow unassigned dependencies from `start` until an atom repeats, and return
/// the cycle that closes there.
/// The suffix of `path` from `f` on, when the last atom of `path` depends on
/// `path[f]`, is a cycle.
fn close_cycle(rules: &Vec<Rule>, path: &Vec<usize>, f: usize) -> (cycle: Vec<usize>)
    requires
        f < path@.len(),
        depends(rules@, path@.last() as int, path@[f as int] as int),
        forall|i: int|
            0 <= i < path@.len() - 1 ==> depends(rules@, #[trigger] path@[i] as int, path@[i + 1] as int),
    ensures
        cycle@ == path@.subrange(f as int, path@.len() as int),
        is_cycle(rules@, cycle@),
{
    let len = path.len();
    let mut cycle: Vec<usize> = Vec::new();
    let mut k: usize = f;
    while k < len
        invariant
            f <= k <= len,
            len == path@.len(),
            cycle@ == path@.subrange(f as int, k as int),
        decreases len - k,
    {
        cycle.push(path[k]);
        k = k + 1;
    }
    proof {
        let m = cycle@.len() as int;
        assert forall|q: int| 0 <= q < m implies depends(
            rules@,
            #[trigger] cycle@[q] as int,
            cycle@[(q + 1) % m] as int,
        ) by {
            if q + 1 < m {
                lemma_small_mod((q + 1) as nat, m as nat);
                assert(depends(rules@, path@[f + q] as int, path@[f + q + 1] as int));
            } else {
                lemma_mod_self_0(m);
            }
        }
    }
    cycle
}

proof fn lemma_extend_path(rules: Seq<Rule>, before: Seq<usize>, b: usize)
    requires
        before.len() > 0,
        before.no_duplicates(),
        !before.contains(b),
        depends(rules, before.last() as int, b as int),
        forall|i: int|
            0 <= i < before.len() - 1 ==> depends(rules, #[trigger] before[i] as int, before[i + 1] as int),
    ensures
        before.push(b).no_duplicates(),
        forall|i: int|
            0 <= i < before.push(b).len() - 1 ==> depends(
                rules,
                #[trigger] before.push(b)[i] as int,
                before.push(b)[i + 1] as int,
            ),
{
    let p = before.push(b);
    assert forall|x: int, y: int| 0 <= x < p.len() && 0 <= y < p.len() && x != y implies p[x] != p[y] by {
        if x < before.len() && y < before.len() {
            assert(before[x] != before[y]);
        } else if x < before.len() {
            assert(before.contains(p[x]));
        } else {
            assert(before.contains(p[y]));
        }
    }
    assert forall|x: int| 0 <= x < p.len() - 1 implies depends(rules, #[trigger] p[x] as int, p[x + 1] as int) by {
        if x < before.len() - 1 {
            assert(depends(rules, before[x] as int, before[x + 1] as int));
        }
    }
}

fn find_cycle(rules: &Vec<Rule>, s: &Vec<Option<usize>>, start: usize) -> (path: Vec<usize>)
    requires
        refs_below(rules@, s@.len() as int),
        start < s@.len(),
        s@[start as int] is None,
        forall|x: int| 0 <= x < s@.len() && (#[trigger] s@[x]) is None ==> !ready(rules@, s@, x),
    ensures
        is_cycle(rules@, path@),
        forall|i: int| 0 <= i < path@.len() ==> #[trigger] path@[i] < s@.len(),
{
    let n = s.len();
    let mut path: Vec<usize> = Vec::new();
    path.push(start);
    loop
        invariant
            n == s@.len(),
            refs_below(rules@, n as int),
            forall|x: int| 0 <= x < s@.len() && (#[trigger] s@[x]) is None ==> !ready(rules@, s@, x),
            path@.len() > 0,
            path@.no_duplicates(),
            forall|i: int| 0 <= i < path@.len() ==> #[trigger] path@[i] < n && s@[path@[i] as int] is None,
            forall|i: int|
                0 <= i < path@.len() - 1 ==> depends(rules@, #[trigger] path@[i] as int, path@[i + 1] as int),
        decreases n - path@.len(),
    {
        let last = path[path.len() - 1];
        let d = unassigned_dependency(rules, s, last);
        let ghost before = path@;
        let b = match d {
            Some(b) => b,
            None => {
                proof {
                    assert(!ready(rules@, s@, last as int));
                }
                return path;
            },
        };
        let mut found: Option<usize> = None;
        let mut i: usize = 0;
        while i < path.len()
            invariant
                i <= path@.len(),
                found is None ==> forall|k: int| 0 <= k < i ==> path@[k] != b,
                found matches Some(f) ==> f < path@.len() && path@[f as int] == b,
            decreases path@.len() - i,
        {
            if found.is_none() && path[i] == b {
                found = Some(i);
            }
            i = i + 1;
        }
        match found {
            Some(f) => {
                return close_cycle(rules, &path, f);
            },
            None => {
                proof {
                    let ps = path@.to_set();
                    let range = Set::<usize>::range(0, n);
                    path@.unique_seq_to_set();
                    vstd::set_lib::range_set_properties(0usize, n);
                    assert(!ps.contains(b));
                    assert(ps.insert(b).subset_of(range));
                    vstd::set_lib::lemma_len_subset(ps.insert(b), range);
                }
                path.push(b);
                proof {
                    lemma_extend_path(rules@, before, b);
                }
            },
        }
    }
}

} // verus!
