use vstd::prelude::*;
use std::collections::VecDeque;
use crate::board::types::Square;

verus! {

/// Neighbour lists over `n` squares: every listed neighbour is a square.
pub open spec fn neighbors_ok(nb: Seq<Vec<Square>>, n: int) -> bool {
    &&& nb.len() == n
    &&& forall|s: int, k: int| 0 <= s < n && 0 <= k < nb[s]@.len() ==> #[trigger] nb[s]@[k] < n
}

/// A walk over passable squares, each step to a listed neighbour.
pub open spec fn is_walk(pass: Seq<bool>, nb: Seq<Vec<Square>>, p: Seq<int>) -> bool {
    &&& p.len() >= 1
    &&& forall|i: int| 0 <= i < p.len() ==> 0 <= #[trigger] p[i] < pass.len() && pass[p[i]]
    &&& forall|i: int| 0 <= i < p.len() - 1 ==> nb[#[trigger] p[i]]@.contains(p[i + 1] as usize)
}

/// `s` is reached from one of the start squares over passable squares.
pub open spec fn spec_reachable(pass: Seq<bool>, nb: Seq<Vec<Square>>, starts: Seq<Square>, s: int) -> bool {
    exists|p: Seq<int>| #[trigger] is_walk(pass, nb, p) && starts.contains(p[0] as usize) && p.last() == s
}

pub open spec fn count_false(v: Seq<bool>) -> int
    decreases v.len(),
{
    if v.len() == 0 {
        0
    } else {
        count_false(v.drop_last()) + if v.last() {
            0int
        } else {
            1int
        }
    }
}

proof fn lemma_count_false_set(v: Seq<bool>, i: int)
    requires
        0 <= i < v.len(),
        !v[i],
    ensures
        count_false(v.update(i, true)) == count_false(v) - 1,
        count_false(v) >= 1,
    decreases v.len(),
{
    lemma_count_false_nonneg(v);
    if i < v.len() - 1 {
        assert(v.update(i, true).drop_last() =~= v.drop_last().update(i, true));
        lemma_count_false_set(v.drop_last(), i);
    } else {
        assert(v.update(i, true).drop_last() =~= v.drop_last());
        lemma_count_false_nonneg(v.drop_last());
    }
}

proof fn lemma_count_false_nonneg(v: Seq<bool>)
    ensures
        count_false(v) >= 0,
    decreases v.len(),
{
    if v.len() > 0 {
        lemma_count_false_nonneg(v.drop_last());
    }
}

/// A walk from a start ends inside any set that holds every passable start
/// and every passable neighbour of its members.
proof fn lemma_closed_holds_walk(
    pass: Seq<bool>,
    nb: Seq<Vec<Square>>,
    starts: Seq<Square>,
    marked: Seq<bool>,
    p: Seq<int>,
)
    requires
        is_walk(pass, nb, p),
        pass.len() <= usize::MAX,
        starts.contains(p[0] as usize),
        marked.len() == pass.len(),
        forall|k: int| 0 <= k < starts.len() && pass[starts[k] as int] ==> #[trigger] marked[starts[k] as int],
        forall|m: int, t: int|
            0 <= m < pass.len() && marked[m] && #[trigger] nb[m]@.contains(t as usize) && 0 <= t < pass.len() && pass[t]
                ==> marked[t],
    ensures
        marked[p.last()],
    decreases p.len(),
{
    if p.len() == 1 {
        let k = choose|k: int| 0 <= k < starts.len() && starts[k] == p[0] as usize;
        assert(pass[p[0]]);
        assert(starts[k] as int == p[0]);
        assert(marked[starts[k] as int]);
    } else {
        let q = p.drop_last();
        assert forall|i: int| 0 <= i < q.len() implies 0 <= #[trigger] q[i] < pass.len() && pass[q[i]] by {
            assert(q[i] == p[i]);
        }
        assert forall|i: int| 0 <= i < q.len() - 1 implies nb[#[trigger] q[i]]@.contains(q[i + 1] as usize) by {
            assert(q[i] == p[i] && q[i + 1] == p[i + 1]);
        }
        lemma_closed_holds_walk(pass, nb, starts, marked, q);
        let m = q.last();
        let t = p.last();
        assert(p[p.len() - 2] == m);
        assert(nb[p[p.len() - 2]]@.contains(p[p.len() - 1] as usize));
        assert(pass[p[p.len() - 1]]);
    }
}

/// The squares reached from `start_sq` through squares marked in
/// `is_archivable`, stepping to the listed neighbours. A start square that is
/// not passable is not reached and leads nowhere.
pub fn bfs(is_archivable: &Vec<bool>, neighbors: &Vec<Vec<Square>>, start_sq: &Vec<Square>) -> (result: Vec<bool>)
    requires
        neighbors_ok(neighbors@, is_archivable@.len() as int),
        forall|k: int| 0 <= k < start_sq@.len() ==> #[trigger] start_sq@[k] < is_archivable@.len(),
    ensures
        result@.len() == is_archivable@.len(),
        forall|s: int|
            0 <= s < result@.len() ==> (#[trigger] result@[s] <==> spec_reachable(
                is_archivable@,
                neighbors@,
                start_sq@,
                s,
            )),
{
    let n = is_archivable.len();
    let ghost pass = is_archivable@;
    let ghost nb = neighbors@;
    let ghost starts = start_sq@;
    let mut queue: VecDeque<Square> = VecDeque::new();
    let mut j: usize = 0;
    while j < start_sq.len()
        invariant
            j <= start_sq@.len(),
            queue@ == start_sq@.subrange(0, j as int),
        decreases start_sq@.len() - j,
    {
        queue.push_back(start_sq[j]);
        proof {
            assert(start_sq@.subrange(0, j + 1) =~= start_sq@.subrange(0, j as int).push(start_sq@[j as int]));
        }
        j += 1;
    }
    proof {
        assert(start_sq@.subrange(0, j as int) =~= start_sq@);
    }
    let mut visited: Vec<bool> = Vec::new();
    let mut result: Vec<bool> = Vec::new();
    let mut i: usize = 0;
    while i < n
        invariant
            i <= n,
            n == pass.len(),
            visited@.len() == i,
            result@.len() == i,
            queue@ == start_sq@,
            starts == start_sq@,
            forall|k: int| 0 <= k < start_sq@.len() ==> #[trigger] start_sq@[k] < n,
            forall|k: int| 0 <= k < i ==> !#[trigger] visited@[k] && !result@[k],
        decreases n - i,
    {
        visited.push(false);
        result.push(false);
        i += 1;
    }
    proof {
        lemma_count_false_nonneg(visited@);
        assert forall|x: int| 0 <= x < n implies !#[trigger] result@[x] by {
            assert(!visited@[x]);
        }
        assert forall|k: int| 0 <= k < queue@.len() implies starts.contains(#[trigger] queue@[k]) by {
            assert(starts[k] == queue@[k]);
        }
        assert forall|k: int| 0 <= k < starts.len() implies visited@[#[trigger] starts[k] as int]
            || queue@.contains(starts[k]) by {
            assert(queue@[k] == starts[k]);
        }
    }
    while queue.len() > 0
        invariant
            n == pass.len(),
            pass == is_archivable@,
            nb == neighbors@,
            starts == start_sq@,
            neighbors_ok(nb, n as int),
            visited@.len() == n,
            result@.len() == n,
            forall|k: int| 0 <= k < starts.len() ==> #[trigger] starts[k] < n,
            forall|k: int| 0 <= k < queue@.len() ==> #[trigger] queue@[k] < n,
            forall|s: int| 0 <= s < n ==> (#[trigger] result@[s] <==> (visited@[s] && pass[s])),
            forall|s: int| 0 <= s < n && #[trigger] result@[s] ==> spec_reachable(pass, nb, starts, s),
            forall|k: int|
                0 <= k < queue@.len() ==> starts.contains(#[trigger] queue@[k]) || exists|m: int|
                    0 <= m < n && result@[m] && nb[m]@.contains(queue@[k]),
            forall|k: int|
                0 <= k < starts.len() ==> visited@[#[trigger] starts[k] as int] || queue@.contains(starts[k]),
            forall|m: int, t: int|
                0 <= m < n && result@[m] && #[trigger] nb[m]@.contains(t as usize) && 0 <= t < n ==> visited@[t]
                    || queue@.contains(t as usize),
            count_false(visited@) >= 0,
        decreases count_false(visited@), queue@.len(),
    {
        let ghost q0 = queue@;
        let ghost v0 = visited@;
        let ghost r0 = result@;
        proof {
            assert(forall|k: int| 0 <= k < starts.len() ==> v0[#[trigger] starts[k] as int] || q0.contains(starts[k]));
            assert(forall|m: int, t: int|
                0 <= m < n && r0[m] && #[trigger] nb[m]@.contains(t as usize) && 0 <= t < n ==> v0[t] || q0.contains(t as usize));
        }
        let cur = queue.pop_front().unwrap();
        proof {
            assert(cur == q0[0]);
            assert(queue@ =~= q0.drop_first());
            assert forall|x: Square| q0.contains(x) && x != cur implies queue@.contains(x) by {
                let k = choose|k: int| 0 <= k < q0.len() && q0[k] == x;
                assert(k != 0);
                assert(queue@[k - 1] == x);
            }
            assert forall|x: int| 0 <= x < queue@.len() implies starts.contains(#[trigger] queue@[x])
                || exists|m: int| 0 <= m < n && result@[m] && nb[m]@.contains(queue@[x]) by {
                assert(queue@[x] == q0[x + 1]);
            }
        }
        if visited[cur] {
            proof {
                assert forall|m: int, t: int|
                    0 <= m < n && result@[m] && #[trigger] nb[m]@.contains(t as usize) && 0 <= t < n implies visited@[t]
                        || queue@.contains(t as usize) by {
                    if !v0[t] {
                        assert(q0.contains(t as usize));
                    }
                }
                assert forall|k: int| 0 <= k < starts.len() implies visited@[#[trigger] starts[k] as int]
                    || queue@.contains(starts[k]) by {
                    if !v0[starts[k] as int] {
                        assert(q0.contains(starts[k]));
                    }
                }
            }
        } else {
            visited.set(cur, true);
            proof {
                lemma_count_false_set(v0, cur as int);
            }
            if is_archivable[cur] {
                result.set(cur, true);
                proof {
                    // `cur` is reached: it is a start, or a neighbour of a reached square.
                    if starts.contains(cur) {
                        let p = seq![cur as int];
                        assert(is_walk(pass, nb, p));
                        assert(p[0] as usize == cur);
                    } else {
                        let m = choose|m: int| 0 <= m < n && r0[m] && nb[m]@.contains(cur);
                        assert(spec_reachable(pass, nb, starts, m));
                        let pm = choose|p: Seq<int>| #[trigger] is_walk(pass, nb, p) && starts.contains(p[0] as usize)
                            && p.last() == m;
                        let p = pm.push(cur as int);
                        assert forall|i: int| 0 <= i < p.len() implies 0 <= #[trigger] p[i] < pass.len() && pass[p[i]] by {
                            if i < pm.len() {
                                assert(p[i] == pm[i]);
                            }
                        }
                        assert forall|i: int| 0 <= i < p.len() - 1 implies nb[#[trigger] p[i]]@.contains(p[i + 1] as usize) by {
                            if i < pm.len() - 1 {
                                assert(p[i] == pm[i] && p[i + 1] == pm[i + 1]);
                            } else {
                                assert(p[i] == m);
                            }
                        }
                        assert(is_walk(pass, nb, p));
                        assert(p[0] == pm[0]);
                    }
                    assert forall|x: int| 0 <= x < queue@.len() implies starts.contains(#[trigger] queue@[x])
                        || exists|m: int| 0 <= m < n && result@[m] && nb[m]@.contains(queue@[x]) by {
                        if !starts.contains(queue@[x]) {
                            let m = choose|m: int| 0 <= m < n && r0[m] && nb[m]@.contains(queue@[x]);
                            assert(result@[m]);
                        }
                    }
                }
                let nbs = &neighbors[cur];
                let mut k: usize = 0;
                while k < nbs.len()
                    invariant
                        n == pass.len(),
                        nb == neighbors@,
                        neighbors_ok(nb, n as int),
                        cur < n,
                        nbs@ == nb[cur as int]@,
                        k <= nbs@.len(),
                        visited@.len() == n,
                        result@.len() == n,
                        result@[cur as int],
                        forall|x: int| 0 <= x < queue@.len() ==> #[trigger] queue@[x] < n,
                        forall|x: int|
                            0 <= x < queue@.len() ==> starts.contains(#[trigger] queue@[x]) || exists|m: int|
                                0 <= m < n && result@[m] && nb[m]@.contains(queue@[x]),
                        forall|x: Square| #[trigger] q0.contains(x) && x != cur ==> queue@.contains(x),
                        forall|j: int| 0 <= j < k ==> visited@[#[trigger] nbs@[j] as int] || queue@.contains(nbs@[j]),
                    decreases nbs@.len() - k,
                {
                    let t = nbs[k];
                    if !visited[t] {
                        let ghost qb = queue@;
                        queue.push_back(t);
                        proof {
                            assert(queue@[qb.len() as int] == t);
                            assert forall|x: Square| qb.contains(x) implies queue@.contains(x) by {
                                let y = choose|y: int| 0 <= y < qb.len() && qb[y] == x;
                                assert(queue@[y] == x);
                            }
                            assert forall|x: int| 0 <= x < queue@.len() implies starts.contains(#[trigger] queue@[x])
                                || exists|m: int| 0 <= m < n && result@[m] && nb[m]@.contains(queue@[x]) by {
                                if x < qb.len() {
                                    assert(queue@[x] == qb[x]);
                                } else {
                                    assert(nb[cur as int]@.contains(t));
                                }
                            }
                            assert forall|j: int| 0 <= j < k implies visited@[#[trigger] nbs@[j] as int]
                                || queue@.contains(nbs@[j]) by {
                                if !visited@[nbs@[j] as int] {
                                    assert(qb.contains(nbs@[j]));
                                }
                            }
                        }
                    }
                    k += 1;
                }
                proof {
                    assert forall|m: int, t: int|
                        0 <= m < n && result@[m] && #[trigger] nb[m]@.contains(t as usize) && 0 <= t < n implies visited@[t]
                            || queue@.contains(t as usize) by {
                        if m == cur {
                            let j = choose|j: int| 0 <= j < nb[m]@.len() && nb[m]@[j] == t as usize;
                            assert(nbs@[j] == t as usize);
                        } else if !v0[t] {
                            assert(r0[m]);
                            assert(q0.contains(t as usize));
                        }
                    }
                    assert forall|k: int| 0 <= k < starts.len() implies visited@[#[trigger] starts[k] as int]
                        || queue@.contains(starts[k]) by {
                        let sk = starts[k];
                        if !v0[sk as int] {
                            assert(q0.contains(sk));
                            if sk == cur {
                                assert(visited@[cur as int]);
                            } else {
                                assert(queue@.contains(sk));
                            }
                        } else {
                            assert(visited@[sk as int]);
                        }
                    }
                }
            } else {
                proof {
                    assert forall|m: int, t: int|
                        0 <= m < n && result@[m] && #[trigger] nb[m]@.contains(t as usize) && 0 <= t < n implies visited@[t]
                            || queue@.contains(t as usize) by {
                        assert(r0[m]);
                        if !v0[t] {
                            assert(q0.contains(t as usize));
                        }
                    }
                    assert forall|k: int| 0 <= k < starts.len() implies visited@[#[trigger] starts[k] as int]
                        || queue@.contains(starts[k]) by {
                        let sk = starts[k];
                        if !v0[sk as int] {
                            assert(q0.contains(sk));
                            if sk == cur {
                                assert(visited@[cur as int]);
                            } else {
                                assert(queue@.contains(sk));
                            }
                        } else {
                            assert(visited@[sk as int]);
                        }
                    }
                }
            }
        }
    }
    proof {
        assert forall|s: int| 0 <= s < n implies (#[trigger] result@[s] <==> spec_reachable(pass, nb, starts, s)) by {
            if spec_reachable(pass, nb, starts, s) {
                let p = choose|p: Seq<int>| #[trigger] is_walk(pass, nb, p) && starts.contains(p[0] as usize) && p.last()
                    == s;
                assert forall|k: int| 0 <= k < starts.len() && pass[starts[k] as int] implies #[trigger] result@[starts[k] as int] by {
                    assert(visited@[starts[k] as int] || queue@.contains(starts[k]));
                }
                assert forall|m: int, t: int|
                    0 <= m < pass.len() && result@[m] && #[trigger] nb[m]@.contains(t as usize) && 0 <= t < pass.len() && pass[t]
                        implies result@[t] by {
                    assert(visited@[t] || queue@.contains(t as usize));
                }
                lemma_closed_holds_walk(pass, nb, starts, result@, p);
            }
        }
    }
    result
}

} // verus!
