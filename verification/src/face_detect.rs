use vstd::prelude::*;

verus! {

/// The view of a list of loops: each loop by its own view.
pub open spec fn loops_view(v: Seq<Vec<usize>>) -> Seq<Seq<usize>> {
    v.map_values(|l: Vec<usize>| l@)
}

/// `first` traverses the edge `first[i] -> first[i+1]` and `second`
/// traverses the same edge the other way, `second[j] -> second[j+1]`
/// (indices taken cyclically).
pub open spec fn shares_edge_at(first: Seq<usize>, second: Seq<usize>, i: int, j: int) -> bool {
    &&& 0 <= i < first.len()
    &&& 0 <= j < second.len()
    &&& second[j] == first[(i + 1) % (first.len() as int)]
    &&& second[(j + 1) % (second.len() as int)] == first[i]
}

/// `(i, j)` is the lexicographically first shared edge position.
pub open spec fn first_shared_edge(first: Seq<usize>, second: Seq<usize>, i: int, j: int) -> bool {
    &&& shares_edge_at(first, second, i, j)
    &&& forall|i2: int, j2: int|
        #![trigger shares_edge_at(first, second, i2, j2)]
        shares_edge_at(first, second, i2, j2) ==> (i < i2 || (i == i2 && j <= j2))
}

/// The loop obtained by walking `first` up to `first[i]`, detouring through
/// every vertex of `second` except the two ends of the shared edge, and
/// resuming `first` at `first[i+1]`.
pub open spec fn spliced_loop(first: Seq<usize>, second: Seq<usize>, i: int, j: int) -> Seq<usize> {
    let m = second.len() as int;
    let detour_len: int = if m >= 2 { m - 2 } else { 0 };
    first.subrange(0, i + 1) + Seq::new(detour_len as nat, |k: int| second[(j + k + 2) % m])
        + first.subrange(i + 1, first.len() as int)
}

/// The union of two equally wound loops along their first shared edge, or
/// `None` when they share no edge in opposite directions.
pub open spec fn merged_loop(first: Seq<usize>, second: Seq<usize>) -> Option<Seq<usize>> {
    if exists|i: int, j: int| first_shared_edge(first, second, i, j) {
        let (i, j) = choose|i: int, j: int| first_shared_edge(first, second, i, j);
        Some(spliced_loop(first, second, i, j))
    } else {
        None
    }
}

/// Among `holes`, loops `x < y` can be fused into one.
pub open spec fn holes_mergeable(holes: Seq<Seq<usize>>, x: int, y: int) -> bool {
    &&& 0 <= x < y < holes.len()
    &&& merged_loop(holes[x], holes[y]) is Some
}

pub open spec fn first_mergeable_pair(holes: Seq<Seq<usize>>, x: int, y: int) -> bool {
    &&& holes_mergeable(holes, x, y)
    &&& forall|x2: int, y2: int|
        #![trigger holes_mergeable(holes, x2, y2)]
        holes_mergeable(holes, x2, y2) ==> (x < x2 || (x == x2 && y <= y2))
}

/// Repeatedly fuses the first (in index order) pair of holes that share an
/// edge, until no pair does.
pub open spec fn merged_holes(holes: Seq<Seq<usize>>) -> Seq<Seq<usize>>
    decreases holes.len(),
{
    if exists|x: int, y: int| first_mergeable_pair(holes, x, y) {
        let (x, y) = choose|x: int, y: int| first_mergeable_pair(holes, x, y);
        merged_holes(holes.remove(y).update(x, merged_loop(holes[x], holes[y]).unwrap()))
    } else {
        holes
    }
}

/// Joins `first` and `second` along the first directed edge they share in
/// opposite directions (`first` traverses `a -> b`, `second` traverses
/// `b -> a`), dropping that now-interior edge. Returns `None` when they share
/// no such edge. Both loops are wound the same way, so the result is too.
pub fn merge_two_loops_on_shared_edge(first: &[usize], second: &[usize]) -> (r: Option<Vec<usize>>)
    ensures
        match r {
            Some(v) => merged_loop(first@, second@) == Some(v@),
            None => merged_loop(first@, second@) is None,
        },
{
    let n = first.len();
    let m = second.len();
    let mut i: usize = 0;
    while i < n
        invariant
            n == first@.len(),
            m == second@.len(),
            i <= n,
            forall|i2: int, j2: int| 0 <= i2 < i && shares_edge_at(first@, second@, i2, j2) ==> false,
        decreases n - i,
    {
        let a = first[i];
        let b = first[(i + 1) % n];
        let mut j: usize = 0;
        while j < m
            invariant
                n == first@.len(),
                m == second@.len(),
                i < n,
                j <= m,
                a == first@[i as int],
                b == first@[(i as int + 1) % (n as int)],
                forall|i2: int, j2: int| 0 <= i2 < i && shares_edge_at(first@, second@, i2, j2) ==> false,
                forall|j2: int| 0 <= j2 < j && shares_edge_at(first@, second@, i as int, j2) ==> false,
            decreases m - j,
        {
            if second[j] != b || second[(j + 1) % m] != a {
                j = j + 1;
                continue;
            }
            let mut merged: Vec<usize> = Vec::new();
            let mut k: usize = 0;
            while k <= i
                invariant
                    n == first@.len(),
                    i < n,
                    k <= i + 1,
                    merged@ == first@.subrange(0, k as int),
                decreases i + 1 - k,
            {
                merged.push(first[k]);
                k = k + 1;
            }
            let ghost head = merged@;
            let mut d: usize = 2;
            while d < m
                invariant
                    m == second@.len(),
                    j < m,
                    2 <= d,
                    d <= m || m < 2,
                    m < 2 ==> d == 2,
                    merged@ == head + Seq::new((d - 2) as nat, |t: int| second@[(j + t + 2) % (m as int)]),
                decreases m - d,
            {
                let off = m - j;
                let idx = if d < off { j + d } else { d - off };
                proof {
                    assert(idx as int == (j + d) % (m as int)) by (nonlinear_arith)
                        requires
                            j < m, d < m, off == m - j,
                            idx == (if d < off { j + d } else { d - off }),
                    ;
                }
                merged.push(second[idx]);
                proof {
                    assert(merged@ =~= head + Seq::new((d + 1 - 2) as nat, |t: int| second@[(j + t + 2) % (m as int)]));
                }
                d = d + 1;
            }
            assert(m >= 2 ==> d == m);
            let ghost mid = merged@;
            proof {
                let dl: int = if m >= 2 { m - 2 } else { 0 };
                assert((d - 2) as int == dl);
                assert(Seq::new((d - 2) as nat, |t: int| second@[(j + t + 2) % (m as int)]) =~= Seq::new(dl as nat, |t: int| second@[(j + t + 2) % (m as int)]));
                assert(mid =~= head + Seq::new(dl as nat, |t: int| second@[(j + t + 2) % (m as int)]));
            }
            let mut k: usize = i + 1;
            while k < n
                invariant
                    n == first@.len(),
                    i < n,
                    i + 1 <= k <= n,
                    merged@ == mid + first@.subrange(i as int + 1, k as int),
                decreases n - k,
            {
                merged.push(first[k]);
                proof {
                    assert(merged@ =~= mid + first@.subrange(i as int + 1, k as int + 1));
                }
                k = k + 1;
            }
            proof {
                assert(merged@ =~= spliced_loop(first@, second@, i as int, j as int));
                assert(shares_edge_at(first@, second@, i as int, j as int));
                assert(first_shared_edge(first@, second@, i as int, j as int));
                let (ci, cj) = choose|ci: int, cj: int| first_shared_edge(first@, second@, ci, cj);
                assert(shares_edge_at(first@, second@, ci, cj));
                assert(ci == i && cj == j);
            }
            return Some(merged);
        }
        i = i + 1;
    }
    proof {
        assert forall|i2: int, j2: int| !first_shared_edge(first@, second@, i2, j2) by {
            if first_shared_edge(first@, second@, i2, j2) {
                assert(shares_edge_at(first@, second@, i2, j2));
            }
        }
    }
    None
}

/// The first pair `x < y` (in index order) of `holes` that can be fused,
/// with their fused loop.
fn find_first_mergeable_pair(holes: &Vec<Vec<usize>>) -> (r: Option<(usize, usize, Vec<usize>)>)
    ensures
        match r {
            Some((x, y, merged)) => {
                &&& first_mergeable_pair(loops_view(holes@), x as int, y as int)
                &&& merged_loop(holes@[x as int]@, holes@[y as int]@) == Some(merged@)
            },
            None => forall|x: int, y: int| !holes_mergeable(loops_view(holes@), x, y),
        },
{
    let ghost hv = loops_view(holes@);
    let len = holes.len();
    let mut x: usize = 0;
    while x < len
        invariant
            len == holes@.len(),
            hv == loops_view(holes@),
            x <= len,
            forall|x2: int, y2: int| 0 <= x2 < x ==> !holes_mergeable(hv, x2, y2),
        decreases len - x,
    {
        let mut y: usize = x + 1;
        while y < len
            invariant
                len == holes@.len(),
                hv == loops_view(holes@),
                x < len,
                x + 1 <= y <= len,
                forall|x2: int, y2: int| 0 <= x2 < x ==> !holes_mergeable(hv, x2, y2),
                forall|y2: int| y2 < y ==> !holes_mergeable(hv, x as int, y2),
            decreases len - y,
        {
            let merged = merge_two_loops_on_shared_edge(holes[x].as_slice(), holes[y].as_slice());
            match merged {
                Some(m) => {
                    proof {
                        assert(hv[x as int] == holes@[x as int]@);
                        assert(hv[y as int] == holes@[y as int]@);
                        assert(holes_mergeable(hv, x as int, y as int));
                        assert forall|x2: int, y2: int| holes_mergeable(hv, x2, y2) implies (x < x2 || (x == x2
                            && y <= y2)) by {
                            if x2 < x {
                            } else if x2 == x && y2 < y {
                            }
                        }
                    }
                    return Some((x, y, m));
                },
                None => {
                    proof {
                        assert(hv[x as int] == holes@[x as int]@);
                        assert(hv[y as int] == holes@[y as int]@);
                    }
                },
            }
            y = y + 1;
        }
        x = x + 1;
    }
    None
}

/// Fuses any two of a face's hole loops that run along a shared edge into
/// the single loop tracing the outside of their union, repeating until no
/// two holes share an edge.
pub fn merge_holes_sharing_an_edge(holes: Vec<Vec<usize>>) -> (r: Vec<Vec<usize>>)
    ensures
        loops_view(r@) == merged_holes(loops_view(holes@)),
{
    let mut work = holes;
    loop
        invariant
            merged_holes(loops_view(work@)) == merged_holes(loops_view(holes@)),
        decreases work.len(),
    {
        match find_first_mergeable_pair(&work) {
            None => {
                proof {
                    let hv = loops_view(work@);
                    assert forall|x: int, y: int| !first_mergeable_pair(hv, x, y) by {
                        if first_mergeable_pair(hv, x, y) {
                            assert(holes_mergeable(hv, x, y));
                        }
                    }
                    assert(merged_holes(hv) == hv);
                }
                return work;
            },
            Some((x, y, merged)) => {
                let ghost hv = loops_view(work@);
                proof {
                    let (cx, cy) = choose|cx: int, cy: int| first_mergeable_pair(hv, cx, cy);
                    assert(holes_mergeable(hv, cx, cy));
                    assert(holes_mergeable(hv, x as int, y as int));
                    assert(cx == x && cy == y);
                }
                work.remove(y);
                work.set(x, merged);
                proof {
                    assert(loops_view(work@) =~= hv.remove(y as int).update(x as int, merged@));
                }
            },
        }
    }
}


/// A dart is a directed edge of the adjacency `nbrs`: `(v, i)` runs from
/// vertex `v` to its `i`-th neighbour.
pub open spec fn is_dart(nbrs: Seq<Seq<usize>>, x: (usize, usize)) -> bool {
    x.0 < nbrs.len() && x.1 < nbrs[x.0 as int].len()
}

/// The vertex dart `x` runs to.
pub open spec fn dart_head(nbrs: Seq<Seq<usize>>, x: (usize, usize)) -> usize {
    nbrs[x.0 as int][x.1 as int]
}

/// The dart that follows `x` around the region on its side: from the head
/// of `x`, on to the neighbour listed right after the tail of `x` in the
/// head's list (the lists are sorted clockwise, so this turns as far left
/// as possible).
pub open spec fn next_dart(nbrs: Seq<Seq<usize>>, x: (usize, usize)) -> (usize, usize) {
    let w = dart_head(nbrs, x);
    let t = nbrs[w as int].index_of(x.0);
    (w, ((t + 1) % (nbrs[w as int].len() as int)) as usize)
}

/// The dart reached from `x` after `k` steps of `next_dart`.
pub open spec fn walk(nbrs: Seq<Seq<usize>>, x: (usize, usize), k: nat) -> (usize, usize)
    decreases k,
{
    if k == 0 {
        x
    } else {
        next_dart(nbrs, walk(nbrs, x, (k - 1) as nat))
    }
}

/// `nbrs` lists, for each vertex, its neighbours: other vertices of the
/// graph, each once, and symmetrically.
pub open spec fn adjacency_ok(nbrs: Seq<Seq<usize>>) -> bool {
    &&& forall|v: int| 0 <= v < nbrs.len() ==> #[trigger] nbrs[v].len() <= usize::MAX
    &&& forall|v: int, i: int|
        0 <= v < nbrs.len() && 0 <= i < nbrs[v].len() ==> (#[trigger] nbrs[v][i]) < nbrs.len() && nbrs[v][i] != v
            && nbrs[nbrs[v][i] as int].contains(v as usize)
    &&& forall|v: int, i: int, j: int|
        0 <= v < nbrs.len() && 0 <= i < j < nbrs[v].len() ==> #[trigger] nbrs[v][i] != #[trigger] nbrs[v][j]
}

/// Every edge of `edges` that is not a loop joins two listed neighbours.
pub open spec fn edges_listed(nbrs: Seq<Seq<usize>>, edges: Seq<(usize, usize)>) -> bool {
    forall|k: int|
        0 <= k < edges.len() && (#[trigger] edges[k]).0 != edges[k].1 ==> edges[k].0 < nbrs.len() && edges[k].1 < nbrs.len()
            && nbrs[edges[k].0 as int].contains(edges[k].1)
}

/// The darts tracing starts from, in order: both directions of each edge
/// that is not a loop.
pub open spec fn start_darts(nbrs: Seq<Seq<usize>>, edges: Seq<(usize, usize)>) -> Seq<(usize, usize)>
    decreases edges.len(),
{
    if edges.len() == 0 {
        Seq::empty()
    } else {
        let rest = start_darts(nbrs, edges.drop_last());
        let (a, b) = edges.last();
        if a == b {
            rest
        } else {
            rest.push((a, nbrs[a as int].index_of(b) as usize)).push((b, nbrs[b as int].index_of(a) as usize))
        }
    }
}

/// Dart `x` is among the first `len` darts of the walk from `s`.
pub open spec fn on_walk(nbrs: Seq<Seq<usize>>, s: (usize, usize), len: nat, x: (usize, usize)) -> bool {
    exists|i: nat| i < len && #[trigger] walk(nbrs, s, i) == x
}

/// The vertices the first `len` darts of the walk from `s` start at.
pub open spec fn walk_vertices(nbrs: Seq<Seq<usize>>, s: (usize, usize), len: nat) -> Seq<usize> {
    Seq::new(len, |i: int| walk(nbrs, s, i as nat).0)
}

/// The walk from `s` first returns to `s` after `len` steps.
pub open spec fn closes_after(nbrs: Seq<Seq<usize>>, s: (usize, usize), len: nat) -> bool {
    &&& len > 0
    &&& walk(nbrs, s, len) == s
    &&& forall|i: nat| 0 < i < len ==> #[trigger] walk(nbrs, s, i) != s
}

/// Candidate `j` lies on one of the cycles traced from `cands[idx[c]]`.
pub open spec fn covered(nbrs: Seq<Seq<usize>>, cands: Seq<(usize, usize)>, idx: Seq<int>, lens: Seq<nat>, j: int) -> bool {
    exists|c: int| 0 <= c < idx.len() && #[trigger] on_walk(nbrs, cands[idx[c]], lens[c], cands[j])
}

/// `cycles` are the boundary cycles traced from the candidate darts
/// `cands`: cycle `c` is the closed walk from candidate `idx[c]` (its
/// vertices, `lens[c]` of them), taken in candidate order, starting at the
/// first candidate on it; every candidate lies on exactly one of them.
pub open spec fn traced(
    nbrs: Seq<Seq<usize>>,
    cands: Seq<(usize, usize)>,
    cycles: Seq<Seq<usize>>,
    idx: Seq<int>,
    lens: Seq<nat>,
) -> bool {
    &&& idx.len() == cycles.len()
    &&& lens.len() == cycles.len()
    &&& forall|c: int| 0 <= c < cycles.len() ==> 0 <= #[trigger] idx[c] < cands.len()
    &&& forall|c: int, d: int| 0 <= c < d < cycles.len() ==> #[trigger] idx[c] < #[trigger] idx[d]
    &&& forall|c: int| 0 <= c < cycles.len() ==> closes_after(nbrs, cands[idx[c]], #[trigger] lens[c])
    &&& forall|c: int| 0 <= c < cycles.len() ==> #[trigger] cycles[c] == walk_vertices(nbrs, cands[idx[c]], lens[c])
    &&& forall|c: int, j: int|
        0 <= c < cycles.len() && 0 <= j < idx[c] ==> !#[trigger] on_walk(nbrs, cands[idx[c]], lens[c], cands[j])
    &&& forall|j: int| 0 <= j < cands.len() ==> #[trigger] covered(nbrs, cands, idx, lens, j)
    &&& forall|c: int, d: int, x: (usize, usize)|
        0 <= c < d < cycles.len() && #[trigger] on_walk(nbrs, cands[idx[c]], lens[c], x) ==> !#[trigger] on_walk(
            nbrs,
            cands[idx[d]],
            lens[d],
            x,
        )
}

proof fn lemma_next_dart_is_dart(nbrs: Seq<Seq<usize>>, x: (usize, usize))
    requires
        adjacency_ok(nbrs),
        is_dart(nbrs, x),
    ensures
        is_dart(nbrs, next_dart(nbrs, x)),
        nbrs[dart_head(nbrs, x) as int][nbrs[dart_head(nbrs, x) as int].index_of(x.0)] == x.0,
        0 <= nbrs[dart_head(nbrs, x) as int].index_of(x.0) < nbrs[dart_head(nbrs, x) as int].len(),
{
    let w = dart_head(nbrs, x);
    assert(nbrs[x.0 as int][x.1 as int] == w);
    assert(nbrs[w as int].contains(x.0));
}

proof fn lemma_walk_is_dart(nbrs: Seq<Seq<usize>>, x: (usize, usize), k: nat)
    requires
        adjacency_ok(nbrs),
        is_dart(nbrs, x),
    ensures
        is_dart(nbrs, walk(nbrs, x, k)),
    decreases k,
{
    if k > 0 {
        lemma_walk_is_dart(nbrs, x, (k - 1) as nat);
        lemma_next_dart_is_dart(nbrs, walk(nbrs, x, (k - 1) as nat));
    }
}

/// Different darts are followed by different darts.
proof fn lemma_next_dart_injective(nbrs: Seq<Seq<usize>>, x: (usize, usize), y: (usize, usize))
    requires
        adjacency_ok(nbrs),
        is_dart(nbrs, x),
        is_dart(nbrs, y),
        next_dart(nbrs, x) == next_dart(nbrs, y),
    ensures
        x == y,
{
    lemma_next_dart_is_dart(nbrs, x);
    lemma_next_dart_is_dart(nbrs, y);
    let w = dart_head(nbrs, x);
    let l = nbrs[w as int].len() as int;
    let tx = nbrs[w as int].index_of(x.0);
    let ty = nbrs[w as int].index_of(y.0);
    assert(dart_head(nbrs, y) == w);
    assert(nbrs[w as int].len() <= usize::MAX);
    assert(0 <= (tx + 1) % l < l);
    assert(0 <= (ty + 1) % l < l);
    assert((tx + 1) % l == (ty + 1) % l);
    assert(tx == ty) by {
        if tx + 1 < l {
            vstd::arithmetic::div_mod::lemma_small_mod((tx + 1) as nat, l as nat);
        } else {
            vstd::arithmetic::div_mod::lemma_mod_self_0(l);
        }
        if ty + 1 < l {
            vstd::arithmetic::div_mod::lemma_small_mod((ty + 1) as nat, l as nat);
        } else {
            vstd::arithmetic::div_mod::lemma_mod_self_0(l);
        }
    }
    assert(x.0 == y.0);
    if x.1 != y.1 {
        let v = x.0 as int;
        if x.1 < y.1 {
            assert(nbrs[v][x.1 as int] != nbrs[v][y.1 as int]);
        } else {
            assert(nbrs[v][y.1 as int] != nbrs[v][x.1 as int]);
        }
    }
}

/// How many `false` entries `s` has.
pub open spec fn falses(s: Seq<bool>) -> nat
    decreases s.len(),
{
    if s.len() == 0 {
        0
    } else {
        falses(s.drop_last()) + if s.last() {
            0nat
        } else {
            1nat
        }
    }
}

/// How many `false` entries the rows of `m` have together.
pub open spec fn all_falses(m: Seq<Seq<bool>>) -> nat
    decreases m.len(),
{
    if m.len() == 0 {
        0
    } else {
        all_falses(m.drop_last()) + falses(m.last())
    }
}

proof fn lemma_falses_mark(s: Seq<bool>, i: int)
    requires
        0 <= i < s.len(),
        !s[i],
    ensures
        falses(s.update(i, true)) + 1 == falses(s),
    decreases s.len(),
{
    let t = s.update(i, true);
    if i == s.len() - 1 {
        assert(t.drop_last() =~= s.drop_last());
    } else {
        assert(t.drop_last() =~= s.drop_last().update(i, true));
        lemma_falses_mark(s.drop_last(), i);
    }
}

proof fn lemma_all_falses_mark(m: Seq<Seq<bool>>, v: int, i: int)
    requires
        0 <= v < m.len(),
        0 <= i < m[v].len(),
        !m[v][i],
    ensures
        all_falses(m.update(v, m[v].update(i, true))) + 1 == all_falses(m),
    decreases m.len(),
{
    let t = m.update(v, m[v].update(i, true));
    if v == m.len() - 1 {
        assert(t.drop_last() =~= m.drop_last());
        lemma_falses_mark(m[v], i);
    } else {
        assert(t.drop_last() =~= m.drop_last().update(v, m[v].update(i, true)));
        lemma_all_falses_mark(m.drop_last(), v, i);
    }
}

/// The view of a table of marks.
pub open spec fn marks_view(m: Seq<Vec<bool>>) -> Seq<Seq<bool>> {
    m.map_values(|r: Vec<bool>| r@)
}

/// Where `x` sits in the repeat-free `list`.
fn position_of(list: &Vec<usize>, x: usize) -> (r: usize)
    requires
        list@.contains(x),
        forall|i: int, j: int| 0 <= i < j < list@.len() ==> list@[i] != list@[j],
    ensures
        r < list@.len(),
        list@[r as int] == x,
        r == list@.index_of(x),
{
    let mut i: usize = 0;
    while i < list.len()
        invariant
            i <= list@.len(),
            list@.contains(x),
            forall|k: int| 0 <= k < i ==> list@[k] != x,
            forall|a: int, b: int| 0 <= a < b < list@.len() ==> list@[a] != list@[b],
        decreases list@.len() - i,
    {
        if list[i] == x {
            proof {
                let c = list@.index_of(x);
                assert(list@[c] == x);
                if c != i {
                    if c < i {
                        assert(list@[c] != x);
                    } else {
                        assert(list@[i as int] != list@[c]);
                    }
                }
            }
            return i;
        }
        i = i + 1;
    }
    proof {
        let c = choose|c: int| 0 <= c < list@.len() && list@[c] == x;
    }
    0
}

/// Whether dart `x` is marked in the table `m`.
pub open spec fn marked(m: Seq<Seq<bool>>, x: (usize, usize)) -> bool {
    m[x.0 as int][x.1 as int]
}

/// The marks table `m` has one mark per dart of `nbrs`.
pub open spec fn marks_fit(m: Seq<Seq<bool>>, nbrs: Seq<Seq<usize>>) -> bool {
    &&& m.len() == nbrs.len()
    &&& forall|v: int| 0 <= v < m.len() ==> #[trigger] m[v].len() == nbrs[v].len()
}

/// The marked darts are closed under stepping back: a dart whose
/// successor is marked is marked.
pub open spec fn marks_closed(m: Seq<Seq<bool>>, nbrs: Seq<Seq<usize>>) -> bool {
    forall|y: (usize, usize)| is_dart(nbrs, y) && #[trigger] marked(m, next_dart(nbrs, y)) ==> marked(m, y)
}

proof fn lemma_walk_step(nbrs: Seq<Seq<usize>>, s: (usize, usize), i: nat)
    ensures
        walk(nbrs, s, i + 1) == next_dart(nbrs, walk(nbrs, s, i)),
{
}

/// Walks the closed walk from the unmarked dart `s`, marking its darts,
/// and returns the vertices its darts start at, with its length.
fn trace_one(nbrs: &Vec<Vec<usize>>, vis: &mut Vec<Vec<bool>>, s: (usize, usize)) -> (r: (Vec<usize>, Ghost<nat>))
    requires
        adjacency_ok(loops_view(nbrs@)),
        is_dart(loops_view(nbrs@), s),
        marks_fit(marks_view(old(vis)@), loops_view(nbrs@)),
        !marked(marks_view(old(vis)@), s),
        marks_closed(marks_view(old(vis)@), loops_view(nbrs@)),
    ensures
        closes_after(loops_view(nbrs@), s, r.1@),
        r.0@ == walk_vertices(loops_view(nbrs@), s, r.1@),
        marks_fit(marks_view(final(vis)@), loops_view(nbrs@)),
        forall|x: (usize, usize)|
            is_dart(loops_view(nbrs@), x) ==> (#[trigger] marked(marks_view(final(vis)@), x) == (marked(
                marks_view(old(vis)@),
                x,
            ) || on_walk(loops_view(nbrs@), s, r.1@, x))),
        forall|i: nat| i < r.1@ ==> !marked(marks_view(old(vis)@), #[trigger] walk(loops_view(nbrs@), s, i)),
        marks_closed(marks_view(final(vis)@), loops_view(nbrs@)),
{
    let ghost nv = loops_view(nbrs@);
    let ghost m0 = marks_view(vis@);
    let mut cycle: Vec<usize> = Vec::new();
    cycle.push(s.0);
    let mut cur = s;
    let ghost mut k: nat = 0;
    proof {
        assert(cycle@ =~= walk_vertices(nv, s, 1));
        assert forall|x: (usize, usize)| is_dart(nv, x) implies #[trigger] marked(marks_view(vis@), x) == (marked(m0, x) || on_walk(nv, s, 0, x)) by {}
    }
    loop
        invariant
            nv == loops_view(nbrs@),
            adjacency_ok(nv),
            is_dart(nv, s),
            marks_fit(marks_view(vis@), nv),
            marks_fit(m0, nv),
            marks_closed(m0, nv),
            m0 == marks_view(old(vis)@),
            cur == walk(nv, s, k),
            is_dart(nv, cur),
            !marked(marks_view(vis@), cur),
            forall|x: (usize, usize)|
                is_dart(nv, x) ==> (#[trigger] marked(marks_view(vis@), x) == (marked(m0, x) || on_walk(nv, s, k, x))),
            forall|i: nat| 0 < i <= k ==> #[trigger] walk(nv, s, i) != s,
            forall|i: nat| i < k ==> !marked(m0, #[trigger] walk(nv, s, i)),
            cycle@ == walk_vertices(nv, s, k + 1),
        decreases all_falses(marks_view(vis@)),
    {
        let o = cur.0;
        let oi = cur.1;
        let ghost before = marks_view(vis@);
        proof {
            assert(nv[o as int] == nbrs@[o as int]@);
            assert(before[o as int] == vis@[o as int]@);
            lemma_all_falses_mark(before, o as int, oi as int);
        }
        let mut row = vis[o].clone();
        row.set(oi, true);
        vis.set(o, row);
        proof {
            assert(marks_view(vis@) =~= before.update(o as int, before[o as int].update(oi as int, true)));
        }
        let d = nbrs[o][oi];
        cycle.push(d);
        proof {
            lemma_next_dart_is_dart(nv, cur);
            assert(dart_head(nv, cur) == d);
            assert(nv[d as int] == nbrs@[d as int]@);
            assert(nv[d as int].contains(o));
        }
        let t = position_of(&nbrs[d], o);
        let len = nbrs[d].len();
        let nxt = (d, (t + 1) % len);
        proof {
            assert(nxt == next_dart(nv, cur));
            lemma_walk_step(nv, s, k);
            assert(nxt == walk(nv, s, k + 1));
            assert(cycle@ =~= walk_vertices(nv, s, k + 2));
        }
        if nxt.0 == s.0 && nxt.1 == s.1 {
            proof {
                assert(nxt == s);
            }
            let ghost len_g = k + 1;
            cycle.pop();
            proof {
                assert(cycle@ =~= walk_vertices(nv, s, len_g));
                assert forall|x: (usize, usize)| is_dart(nv, x) implies #[trigger] marked(marks_view(vis@), x) == (marked(m0, x) || on_walk(nv, s, len_g, x)) by {
                    if x == cur {
                        assert(walk(nv, s, k) == x);
                        assert(on_walk(nv, s, len_g, x));
                    } else {
                        assert(marked(marks_view(vis@), x) == marked(before, x));
                        if on_walk(nv, s, len_g, x) {
                            let i = choose|i: nat| i < len_g && #[trigger] walk(nv, s, i) == x;
                            assert(i < k);
                            assert(on_walk(nv, s, k, x));
                        }
                        if on_walk(nv, s, k, x) {
                            let i = choose|i: nat| i < k && #[trigger] walk(nv, s, i) == x;
                            assert(i < len_g);
                        }
                    }
                }
                assert forall|y: (usize, usize)| is_dart(nv, y) && #[trigger] marked(marks_view(vis@), next_dart(nv, y)) implies marked(
                    marks_view(vis@),
                    y,
                ) by {
                    lemma_next_dart_is_dart(nv, y);
                    let z = next_dart(nv, y);
                    if marked(m0, z) {
                        assert(marked(m0, y));
                    } else {
                        let i = choose|i: nat| i < len_g && #[trigger] walk(nv, s, i) == z;
                        if i == 0 {
                            lemma_walk_is_dart(nv, s, k);
                            lemma_next_dart_injective(nv, y, cur);
                            assert(walk(nv, s, k) == y);
                        } else {
                            lemma_walk_step(nv, s, (i - 1) as nat);
                            lemma_walk_is_dart(nv, s, (i - 1) as nat);
                            lemma_next_dart_injective(nv, y, walk(nv, s, (i - 1) as nat));
                            assert(walk(nv, s, (i - 1) as nat) == y);
                        }
                    }
                }
            }
            proof {
                assert(!marked(m0, walk(nv, s, k)));
                assert forall|i: nat| i < len_g implies !marked(m0, #[trigger] walk(nv, s, i)) by {
                    if i < k {
                    }
                }
            }
            return (cycle, Ghost(len_g));
        }
        proof {
            lemma_walk_is_dart(nv, s, k + 1);
            let mv = marks_view(vis@);
            if marked(mv, nxt) {
                if nxt == cur {
                    if k == 0 {
                        assert(cur == s);
                        assert(false);
                    } else {
                        lemma_walk_step(nv, s, (k - 1) as nat);
                        lemma_walk_is_dart(nv, s, (k - 1) as nat);
                        lemma_next_dart_injective(nv, cur, walk(nv, s, (k - 1) as nat));
                        assert(on_walk(nv, s, k, walk(nv, s, (k - 1) as nat)));
                        assert(marked(before, cur));
                        assert(false);
                    }
                } else if marked(m0, nxt) {
                    assert(marked(m0, cur));
                    assert(false);
                } else {
                    assert(marked(mv, nxt) == marked(before, nxt));
                    assert(on_walk(nv, s, k, nxt));
                    let i = choose|i: nat| i < k && #[trigger] walk(nv, s, i) == nxt;
                    if i == 0 {
                        assert(false);
                    } else {
                        lemma_walk_step(nv, s, (i - 1) as nat);
                        lemma_walk_is_dart(nv, s, (i - 1) as nat);
                        lemma_next_dart_injective(nv, cur, walk(nv, s, (i - 1) as nat));
                        assert(on_walk(nv, s, k, walk(nv, s, (i - 1) as nat)));
                        assert(false);
                    }
                }
            }
            assert forall|x: (usize, usize)| is_dart(nv, x) implies #[trigger] marked(marks_view(vis@), x) == (marked(m0, x) || on_walk(nv, s, k + 1, x)) by {
                if x == cur {
                    assert(walk(nv, s, k) == x);
                    assert(on_walk(nv, s, k + 1, x));
                } else {
                    assert(marked(marks_view(vis@), x) == marked(before, x));
                    if on_walk(nv, s, k + 1, x) {
                        let i = choose|i: nat| i < k + 1 && #[trigger] walk(nv, s, i) == x;
                        assert(i < k);
                        assert(on_walk(nv, s, k, x));
                    }
                    if on_walk(nv, s, k, x) {
                        let i = choose|i: nat| i < k && #[trigger] walk(nv, s, i) == x;
                        assert(i < k + 1);
                    }
                }
            }
            assert(!marked(m0, walk(nv, s, k)));
        }
        cur = nxt;
        proof {
            k = k + 1;
        }
    }
}

proof fn lemma_rows_distinct(nv: Seq<Seq<usize>>, v: int)
    requires
        adjacency_ok(nv),
        0 <= v < nv.len(),
    ensures
        forall|i: int, j: int| 0 <= i < j < nv[v].len() ==> nv[v][i] != nv[v][j],
{
    assert forall|i: int, j: int| 0 <= i < j < nv[v].len() implies nv[v][i] != nv[v][j] by {
        assert(nv[v][i] != nv[v][j]);
    }
}

fn start_dart_list(edges: &[(usize, usize)], nbrs: &Vec<Vec<usize>>) -> (r: Vec<(usize, usize)>)
    requires
        adjacency_ok(loops_view(nbrs@)),
        edges_listed(loops_view(nbrs@), edges@),
    ensures
        r@ == start_darts(loops_view(nbrs@), edges@),
        forall|k: int| 0 <= k < r@.len() ==> is_dart(loops_view(nbrs@), #[trigger] r@[k]),
{
    let ghost nv = loops_view(nbrs@);
    let mut out: Vec<(usize, usize)> = Vec::new();
    let mut k: usize = 0;
    while k < edges.len()
        invariant
            nv == loops_view(nbrs@),
            adjacency_ok(nv),
            edges_listed(nv, edges@),
            k <= edges@.len(),
            out@ == start_darts(nv, edges@.take(k as int)),
            forall|q: int| 0 <= q < out@.len() ==> is_dart(nv, #[trigger] out@[q]),
        decreases edges@.len() - k,
    {
        let (a, b) = edges[k];
        proof {
            assert(edges@.take(k as int + 1).drop_last() =~= edges@.take(k as int));
            assert(edges@.take(k as int + 1).last() == edges@[k as int]);
        }
        if a != b {
            proof {
                assert(edges@[k as int].0 != edges@[k as int].1);
                assert(nv[a as int] == nbrs@[a as int]@);
                assert(nv[b as int] == nbrs@[b as int]@);
                assert(nv[a as int].contains(b));
                let i = choose|i: int| 0 <= i < nv[a as int].len() && nv[a as int][i] == b;
                assert(nv[b as int].contains(a));
                lemma_rows_distinct(nv, a as int);
                lemma_rows_distinct(nv, b as int);
            }
            let ia = position_of(&nbrs[a], b);
            let ib = position_of(&nbrs[b], a);
            let ghost ob = out@;
            out.push((a, ia));
            out.push((b, ib));
            proof {
                assert forall|q: int| 0 <= q < out@.len() implies is_dart(nv, #[trigger] out@[q]) by {
                    if q < ob.len() {
                        assert(out@[q] == ob[q]);
                    }
                }
            }
        }
        k = k + 1;
    }
    proof {
        assert(edges@.take(edges@.len() as int) =~= edges@);
    }
    out
}

/// A marks table shaped like `nbrs`, with nothing marked.
fn blank_marks(nbrs: &Vec<Vec<usize>>) -> (m: Vec<Vec<bool>>)
    ensures
        marks_fit(marks_view(m@), loops_view(nbrs@)),
        forall|x: (usize, usize)| is_dart(loops_view(nbrs@), x) ==> !#[trigger] marked(marks_view(m@), x),
{
    let mut m: Vec<Vec<bool>> = Vec::new();
    let mut v: usize = 0;
    while v < nbrs.len()
        invariant
            v <= nbrs@.len(),
            m@.len() == v,
            forall|u: int| 0 <= u < v ==> (#[trigger] m@[u])@.len() == nbrs@[u]@.len(),
            forall|u: int, i: int| 0 <= u < v && 0 <= i < m@[u]@.len() ==> !(#[trigger] m@[u]@[i]),
        decreases nbrs@.len() - v,
    {
        let mut row: Vec<bool> = Vec::new();
        let mut i: usize = 0;
        while i < nbrs[v].len()
            invariant
                v < nbrs@.len(),
                i <= nbrs@[v as int]@.len(),
                row@.len() == i,
                forall|q: int| 0 <= q < i ==> !(#[trigger] row@[q]),
            decreases nbrs@[v as int]@.len() - i,
        {
            row.push(false);
            i = i + 1;
        }
        m.push(row);
        v = v + 1;
    }
    proof {
        assert forall|u: int| 0 <= u < marks_view(m@).len() implies #[trigger] marks_view(m@)[u].len() == loops_view(nbrs@)[u].len() by {}
    }
    m
}

/// The state of tracing after the candidates before `j`: `cyc` are the
/// cycles traced so far (see `traced`), and the marked darts are exactly
/// those on them.
pub open spec fn trace_inv(
    nv: Seq<Seq<usize>>,
    cs: Seq<(usize, usize)>,
    j: int,
    cyc: Seq<Seq<usize>>,
    idx: Seq<int>,
    lens: Seq<nat>,
    m: Seq<Seq<bool>>,
) -> bool {
    &&& marks_fit(m, nv)
    &&& marks_closed(m, nv)
    &&& idx.len() == cyc.len()
    &&& lens.len() == cyc.len()
    &&& forall|c: int| 0 <= c < cyc.len() ==> 0 <= #[trigger] idx[c] < j
    &&& forall|c: int, d: int| 0 <= c < d < cyc.len() ==> #[trigger] idx[c] < #[trigger] idx[d]
    &&& forall|c: int| 0 <= c < cyc.len() ==> closes_after(nv, cs[idx[c]], #[trigger] lens[c])
    &&& forall|c: int| 0 <= c < cyc.len() ==> #[trigger] cyc[c] == walk_vertices(nv, cs[idx[c]], lens[c])
    &&& forall|c: int, q: int| 0 <= c < cyc.len() && 0 <= q < idx[c] ==> !#[trigger] on_walk(nv, cs[idx[c]], lens[c], cs[q])
    &&& forall|q: int| 0 <= q < j ==> #[trigger] covered(nv, cs, idx, lens, q)
    &&& forall|c: int, d: int, x: (usize, usize)|
        0 <= c < d < cyc.len() && #[trigger] on_walk(nv, cs[idx[c]], lens[c], x) ==> !#[trigger] on_walk(nv, cs[idx[d]], lens[d], x)
    &&& forall|x: (usize, usize)|
        is_dart(nv, x) ==> (#[trigger] marked(m, x) <==> exists|c: int| 0 <= c < cyc.len() && #[trigger] on_walk(nv, cs[idx[c]], lens[c], x))
}

proof fn lemma_trace_skip(
    nv: Seq<Seq<usize>>,
    cs: Seq<(usize, usize)>,
    j: int,
    cyc: Seq<Seq<usize>>,
    idx: Seq<int>,
    lens: Seq<nat>,
    m: Seq<Seq<bool>>,
)
    requires
        trace_inv(nv, cs, j, cyc, idx, lens, m),
        0 <= j < cs.len(),
        is_dart(nv, cs[j]),
        marked(m, cs[j]),
    ensures
        trace_inv(nv, cs, j + 1, cyc, idx, lens, m),
{
    assert forall|q: int| 0 <= q < j + 1 implies #[trigger] covered(nv, cs, idx, lens, q) by {
        if q == j {
            assert(marked(m, cs[q]));
        }
    }
}

proof fn lemma_trace_add(
    nv: Seq<Seq<usize>>,
    cs: Seq<(usize, usize)>,
    j: int,
    cyc: Seq<Seq<usize>>,
    idx: Seq<int>,
    lens: Seq<nat>,
    m: Seq<Seq<bool>>,
    m2: Seq<Seq<bool>>,
    len: nat,
)
    requires
        adjacency_ok(nv),
        trace_inv(nv, cs, j, cyc, idx, lens, m),
        0 <= j < cs.len(),
        forall|q: int| 0 <= q < cs.len() ==> is_dart(nv, #[trigger] cs[q]),
        !marked(m, cs[j]),
        closes_after(nv, cs[j], len),
        marks_fit(m2, nv),
        marks_closed(m2, nv),
        forall|x: (usize, usize)| is_dart(nv, x) ==> (#[trigger] marked(m2, x) == (marked(m, x) || on_walk(nv, cs[j], len, x))),
        forall|i: nat| i < len ==> !marked(m, #[trigger] walk(nv, cs[j], i)),
    ensures
        trace_inv(nv, cs, j + 1, cyc.push(walk_vertices(nv, cs[j], len)), idx.push(j), lens.push(len), m2),
{
    let sd = cs[j];
    let n = cyc.len() as int;
    let cyc2 = cyc.push(walk_vertices(nv, sd, len));
    let idx2 = idx.push(j);
    let lens2 = lens.push(len);
    assert(on_walk(nv, sd, len, sd)) by {
        assert(walk(nv, sd, 0) == sd);
    }
    assert forall|c: int, q: int| 0 <= c < cyc2.len() && 0 <= q < idx2[c] implies !#[trigger] on_walk(nv, cs[idx2[c]], lens2[c], cs[q]) by {
        if c == n {
            if on_walk(nv, sd, len, cs[q]) {
                let i = choose|i: nat| i < len && #[trigger] walk(nv, sd, i) == cs[q];
                assert(!marked(m, walk(nv, sd, i)));
                assert(covered(nv, cs, idx, lens, q));
                let c2 = choose|c2: int| 0 <= c2 < n && #[trigger] on_walk(nv, cs[idx[c2]], lens[c2], cs[q]);
                assert(marked(m, cs[q]));
            }
        } else {
            assert(idx2[c] == idx[c] && lens2[c] == lens[c]);
        }
    }
    assert forall|q: int| 0 <= q < j + 1 implies #[trigger] covered(nv, cs, idx2, lens2, q) by {
        if q == j {
            assert(on_walk(nv, cs[idx2[n]], lens2[n], cs[q]));
        } else {
            assert(covered(nv, cs, idx, lens, q));
            let c = choose|c: int| 0 <= c < n && #[trigger] on_walk(nv, cs[idx[c]], lens[c], cs[q]);
            assert(on_walk(nv, cs[idx2[c]], lens2[c], cs[q]));
        }
    }
    assert forall|c: int, d: int, x: (usize, usize)|
        0 <= c < d < cyc2.len() && #[trigger] on_walk(nv, cs[idx2[c]], lens2[c], x) implies !#[trigger] on_walk(
            nv,
            cs[idx2[d]],
            lens2[d],
            x,
        ) by {
        if d == n {
            let i = choose|i: nat| i < lens2[c] && #[trigger] walk(nv, cs[idx2[c]], i) == x;
            lemma_walk_is_dart(nv, cs[idx2[c]], i);
            assert(on_walk(nv, cs[idx[c]], lens[c], x));
            assert(marked(m, x));
            if on_walk(nv, sd, len, x) {
                let i2 = choose|i2: nat| i2 < len && #[trigger] walk(nv, sd, i2) == x;
                assert(!marked(m, walk(nv, sd, i2)));
            }
        } else {
            assert(on_walk(nv, cs[idx[c]], lens[c], x));
        }
    }
    assert forall|x: (usize, usize)|
        is_dart(nv, x) implies (#[trigger] marked(m2, x) <==> exists|c: int|
            0 <= c < cyc2.len() && #[trigger] on_walk(nv, cs[idx2[c]], lens2[c], x)) by {
        if marked(m2, x) {
            if marked(m, x) {
                let c = choose|c: int| 0 <= c < n && #[trigger] on_walk(nv, cs[idx[c]], lens[c], x);
                assert(on_walk(nv, cs[idx2[c]], lens2[c], x));
            } else {
                assert(on_walk(nv, cs[idx2[n]], lens2[n], x));
            }
        }
        if exists|c: int| 0 <= c < cyc2.len() && #[trigger] on_walk(nv, cs[idx2[c]], lens2[c], x) {
            let c = choose|c: int| 0 <= c < cyc2.len() && #[trigger] on_walk(nv, cs[idx2[c]], lens2[c], x);
            if c < n {
                assert(on_walk(nv, cs[idx[c]], lens[c], x));
            }
        }
    }
    assert forall|c: int| 0 <= c < cyc2.len() implies #[trigger] cyc2[c] == walk_vertices(nv, cs[idx2[c]], lens2[c]) by {}
    assert forall|c: int| 0 <= c < cyc2.len() implies closes_after(nv, cs[idx2[c]], #[trigger] lens2[c]) by {}
}

/// Traces every boundary cycle of the planar graph given by `edges`, whose
/// neighbour lists `nbrs` are each sorted clockwise around their vertex:
/// starting from both directions of each edge that is not a loop (in edge
/// order), a dart not yet on a traced cycle is followed with `next_dart`
/// until it comes back, and the vertices passed are one cycle (see
/// `traced`). A cycle of positive area is a region bounded
/// counter-clockwise; the caller keeps those.
pub fn trace_cycles(edges: &[(usize, usize)], nbrs: &Vec<Vec<usize>>) -> (r: Vec<Vec<usize>>)
    requires
        adjacency_ok(loops_view(nbrs@)),
        edges_listed(loops_view(nbrs@), edges@),
    ensures
        exists|idx: Seq<int>, lens: Seq<nat>|
            traced(loops_view(nbrs@), start_darts(loops_view(nbrs@), edges@), loops_view(r@), idx, lens),
{
    let ghost nv = loops_view(nbrs@);
    let cands = start_dart_list(edges, nbrs);
    let ghost cs = cands@;
    let mut vis = blank_marks(nbrs);
    let mut cycles: Vec<Vec<usize>> = Vec::new();
    let ghost mut idx: Seq<int> = Seq::empty();
    let ghost mut lens: Seq<nat> = Seq::empty();
    let mut j: usize = 0;
    proof {
        assert forall|y: (usize, usize)| is_dart(nv, y) && #[trigger] marked(marks_view(vis@), next_dart(nv, y)) implies marked(
            marks_view(vis@),
            y,
        ) by {
            lemma_next_dart_is_dart(nv, y);
        }
        assert(loops_view(cycles@) =~= Seq::<Seq<usize>>::empty());
    }
    while j < cands.len()
        invariant
            nv == loops_view(nbrs@),
            cs == cands@,
            adjacency_ok(nv),
            forall|q: int| 0 <= q < cs.len() ==> is_dart(nv, #[trigger] cs[q]),
            j <= cs.len(),
            trace_inv(nv, cs, j as int, loops_view(cycles@), idx, lens, marks_view(vis@)),
        decreases cs.len() - j,
    {
        let sd = cands[j];
        proof {
            assert(is_dart(nv, cs[j as int]));
            assert(nbrs@[sd.0 as int]@ == nv[sd.0 as int]);
            assert(marks_view(vis@)[sd.0 as int] == vis@[sd.0 as int]@);
        }
        if !vis[sd.0][sd.1] {
            let ghost before = marks_view(vis@);
            let ghost cyc_before = loops_view(cycles@);
            let (cycle, Ghost(len)) = trace_one(nbrs, &mut vis, sd);
            cycles.push(cycle);
            proof {
                lemma_trace_add(nv, cs, j as int, cyc_before, idx, lens, before, marks_view(vis@), len);
                assert(loops_view(cycles@) =~= cyc_before.push(walk_vertices(nv, cs[j as int], len)));
                idx = idx.push(j as int);
                lens = lens.push(len);
            }
        } else {
            proof {
                lemma_trace_skip(nv, cs, j as int, loops_view(cycles@), idx, lens, marks_view(vis@));
            }
        }
        j = j + 1;
    }
    proof {
        assert(traced(nv, cs, loops_view(cycles@), idx, lens));
    }
    cycles
}

/// The other ends of the edges at `v` that are not loops, in edge order.
pub open spec fn others(edges: Seq<(usize, usize)>, v: usize) -> Seq<usize>
    decreases edges.len(),
{
    if edges.len() == 0 {
        Seq::empty()
    } else {
        let rest = others(edges.drop_last(), v);
        let (a, b) = edges.last();
        if a == b {
            rest
        } else if a == v {
            rest.push(b)
        } else if b == v {
            rest.push(a)
        } else {
            rest
        }
    }
}

/// The entries of `s`, each once, in order of first occurrence.
pub open spec fn first_seen(s: Seq<usize>) -> Seq<usize>
    decreases s.len(),
{
    if s.len() == 0 {
        s
    } else {
        let rest = first_seen(s.drop_last());
        if rest.contains(s.last()) {
            rest
        } else {
            rest.push(s.last())
        }
    }
}

/// The neighbour lists of the graph on vertices `0..n` with `edges`: each
/// vertex's neighbours in order of first appearance along the edges, loops
/// left out. The caller sorts each list clockwise before tracing.
pub fn neighbor_lists(n: usize, edges: &[(usize, usize)]) -> (r: Vec<Vec<usize>>)
    requires
        forall|k: int| 0 <= k < edges@.len() && (#[trigger] edges@[k]).0 != edges@[k].1 ==> edges@[k].0 < n && edges@[k].1 < n,
    ensures
        r@.len() == n,
        forall|v: int| 0 <= v < n ==> (#[trigger] r@[v])@ == first_seen(others(edges@, v as usize)),
        adjacency_ok(loops_view(r@)),
        edges_listed(loops_view(r@), edges@),
{
    let mut out: Vec<Vec<usize>> = Vec::new();
    let mut v: usize = 0;
    while v < n
        invariant
            v <= n,
            out@.len() == v,
            forall|u: int| 0 <= u < v ==> (#[trigger] out@[u])@.len() == 0,
        decreases n - v,
    {
        out.push(Vec::new());
        v = v + 1;
    }
    let mut k: usize = 0;
    proof {
        assert forall|u: int| 0 <= u < n implies (#[trigger] out@[u])@ == first_seen(others(edges@.take(0), u as usize)) by {
            assert(out@[u]@ =~= Seq::<usize>::empty());
        }
    }
    while k < edges.len()
        invariant
            k <= edges@.len(),
            out@.len() == n,
            forall|q: int| 0 <= q < edges@.len() && (#[trigger] edges@[q]).0 != edges@[q].1 ==> edges@[q].0 < n && edges@[q].1 < n,
            forall|u: int| 0 <= u < n ==> (#[trigger] out@[u])@ == first_seen(others(edges@.take(k as int), u as usize)),
            forall|u: int, i: int|
                0 <= u < n && 0 <= i < out@[u]@.len() ==> (#[trigger] out@[u]@[i]) < n && out@[u]@[i] != u
                    && out@[out@[u]@[i] as int]@.contains(u as usize),
            forall|u: int, i: int, j: int|
                0 <= u < n && 0 <= i < j < out@[u]@.len() ==> #[trigger] out@[u]@[i] != #[trigger] out@[u]@[j],
            forall|q: int|
                0 <= q < k && (#[trigger] edges@[q]).0 != edges@[q].1 ==> out@[edges@[q].0 as int]@.contains(edges@[q].1),
        decreases edges@.len() - k,
    {
        let (a, b) = edges[k];
        let ghost before = out@;
        proof {
            assert(edges@.take(k as int + 1).drop_last() =~= edges@.take(k as int));
            assert(edges@.take(k as int + 1).last() == edges@[k as int]);
        }
        if a != b {
            proof {
                assert(edges@[k as int].0 != edges@[k as int].1);
            }
            let has_b = list_has(&out[a], b);
            if !has_b {
                let mut row = out[a].clone();
                row.push(b);
                out.set(a, row);
            }
            let ghost mid = out@;
            let has_a = list_has(&out[b], a);
            if !has_a {
                let mut row = out[b].clone();
                row.push(a);
                out.set(b, row);
            }
            proof {
                assert forall|u: int| 0 <= u < n implies (#[trigger] out@[u])@ == first_seen(others(edges@.take(k as int + 1), u as usize)) by {
                    let pr = others(edges@.take(k as int), u as usize);
                    if u == a as int {
                        assert(others(edges@.take(k as int + 1), u as usize) == pr.push(b));
                        assert(pr.push(b).drop_last() =~= pr);
                        assert(out@[u]@ == mid[u]@);
                        if has_b {
                            assert(mid[u]@ == before[u]@);
                        } else {
                            assert(mid[u]@ == before[u]@.push(b));
                        }
                    } else if u == b as int {
                        assert(others(edges@.take(k as int + 1), u as usize) == pr.push(a));
                        assert(pr.push(a).drop_last() =~= pr);
                        assert(mid[u]@ == before[u]@);
                        if has_a {
                            assert(out@[u]@ == mid[u]@);
                        } else {
                            assert(out@[u]@ == mid[u]@.push(a));
                        }
                    } else {
                        assert(others(edges@.take(k as int + 1), u as usize) == pr);
                        assert(out@[u]@ == before[u]@);
                    }
                }
                assert forall|u: int, i: int|
                    0 <= u < n && 0 <= i < out@[u]@.len() implies (#[trigger] out@[u]@[i]) < n && out@[u]@[i] != u
                        && out@[out@[u]@[i] as int]@.contains(u as usize) by {
                    let x = out@[u]@[i];
                    if u == a as int && i == before[u]@.len() && !has_b {
                        assert(x == b);
                        if has_a {
                            assert(mid[b as int]@.contains(a));
                            let w = choose|w: int| 0 <= w < mid[b as int]@.len() && mid[b as int]@[w] == a;
                            assert(out@[b as int]@[w] == a);
                        } else {
                            assert(out@[b as int]@[mid[b as int]@.len() as int] == a);
                        }
                    } else if u == b as int && i == mid[u]@.len() && !has_a {
                        assert(x == a);
                        assert(out@[a as int]@ == mid[a as int]@);
                        if has_b {
                            assert(before[a as int]@.contains(b));
                            let w = choose|w: int| 0 <= w < before[a as int]@.len() && before[a as int]@[w] == b;
                            assert(out@[a as int]@[w] == b);
                        } else {
                            assert(out@[a as int]@[before[a as int]@.len() as int] == b);
                        }
                    } else {
                        assert(before[u]@.len() <= out@[u]@.len());
                        assert(x == before[u]@[i]);
                        assert(before[x as int]@.contains(u as usize));
                        let w = choose|w: int| 0 <= w < before[x as int]@.len() && before[x as int]@[w] == u as usize;
                        assert(out@[x as int]@[w] == u as usize);
                    }
                }
                assert forall|q: int|
                    0 <= q < k + 1 && (#[trigger] edges@[q]).0 != edges@[q].1 implies out@[edges@[q].0 as int]@.contains(edges@[q].1) by {
                    if q < k {
                        let c = edges@[q].0 as int;
                        assert(before[c]@.contains(edges@[q].1));
                        let w = choose|w: int| 0 <= w < before[c]@.len() && before[c]@[w] == edges@[q].1;
                        assert(out@[c]@[w] == edges@[q].1);
                    } else {
                        if has_b {
                            assert(before[a as int]@.contains(b));
                            let w = choose|w: int| 0 <= w < before[a as int]@.len() && before[a as int]@[w] == b;
                            assert(out@[a as int]@[w] == b);
                        } else {
                            assert(out@[a as int]@ == mid[a as int]@);
                            assert(out@[a as int]@[before[a as int]@.len() as int] == b);
                        }
                    }
                }
            }
        } else {
            proof {
                assert forall|u: int| 0 <= u < n implies (#[trigger] out@[u])@ == first_seen(others(edges@.take(k as int + 1), u as usize)) by {
                    assert(others(edges@.take(k as int + 1), u as usize) == others(edges@.take(k as int), u as usize));
                }
            }
        }
        k = k + 1;
    }
    proof {
        assert(edges@.take(edges@.len() as int) =~= edges@);
        let nv = loops_view(out@);
        assert forall|u: int| 0 <= u < nv.len() implies #[trigger] nv[u].len() <= usize::MAX by {
            assert(nv[u].len() == out@[u].len());
        }
        assert forall|u: int, i: int|
            0 <= u < nv.len() && 0 <= i < nv[u].len() implies (#[trigger] nv[u][i]) < nv.len() && nv[u][i] != u
                && nv[nv[u][i] as int].contains(u as usize) by {
            assert(nv[u] == out@[u]@);
            assert(nv[nv[u][i] as int] == out@[out@[u]@[i] as int]@);
        }
        assert forall|u: int, i: int, j: int| 0 <= u < nv.len() && 0 <= i < j < nv[u].len() implies #[trigger] nv[u][i] != #[trigger] nv[u][j] by {
            assert(nv[u] == out@[u]@);
        }
        assert forall|q: int|
            0 <= q < edges@.len() && (#[trigger] edges@[q]).0 != edges@[q].1 implies edges@[q].0 < nv.len() && edges@[q].1 < nv.len()
                && nv[edges@[q].0 as int].contains(edges@[q].1) by {
            assert(nv[edges@[q].0 as int] == out@[edges@[q].0 as int]@);
        }
    }
    out
}

fn list_has(list: &Vec<usize>, x: usize) -> (r: bool)
    ensures
        r == list@.contains(x),
{
    let mut i: usize = 0;
    while i < list.len()
        invariant
            i <= list@.len(),
            forall|k: int| 0 <= k < i ==> list@[k] != x,
        decreases list@.len() - i,
    {
        if list[i] == x {
            return true;
        }
        i = i + 1;
    }
    false
}

/// The chain of edges from `a` through the points `pts`, in order, to `b`.
pub open spec fn chain(a: usize, pts: Seq<usize>, b: usize) -> Seq<(usize, usize)> {
    Seq::new(
        pts.len() + 1,
        |i: int|
            (
                if i == 0 {
                    a
                } else {
                    pts[i - 1]
                },
                if i == pts.len() {
                    b
                } else {
                    pts[i]
                },
            ),
    )
}

/// `edges` with each edge `k` that is not a loop replaced by the chain
/// through the points `interior[k]` lying on it; loops are dropped.
pub open spec fn split_all(edges: Seq<(usize, usize)>, interior: Seq<Seq<usize>>) -> Seq<(usize, usize)>
    decreases edges.len(),
{
    if edges.len() == 0 {
        Seq::empty()
    } else {
        let rest = split_all(edges.drop_last(), interior.take(edges.len() - 1));
        let (a, b) = edges.last();
        if a == b {
            rest
        } else {
            rest + chain(a, interior[edges.len() - 1], b)
        }
    }
}

/// Splits every edge that other points land on partway along (a
/// T-junction) into the chain of edges meeting at those points:
/// `interior[k]` holds the points on the inside of edge `k`, ordered from
/// its start to its end. Loops are dropped.
pub fn split_edges(edges: &[(usize, usize)], interior: &Vec<Vec<usize>>) -> (r: Vec<(usize, usize)>)
    requires
        interior@.len() == edges@.len(),
    ensures
        r@ == split_all(edges@, loops_view(interior@)),
{
    let ghost iv = loops_view(interior@);
    let mut out: Vec<(usize, usize)> = Vec::new();
    let mut k: usize = 0;
    while k < edges.len()
        invariant
            iv == loops_view(interior@),
            interior@.len() == edges@.len(),
            k <= edges@.len(),
            out@ == split_all(edges@.take(k as int), iv.take(k as int)),
        decreases edges@.len() - k,
    {
        let (a, b) = edges[k];
        let ghost before = out@;
        proof {
            assert(edges@.take(k as int + 1).drop_last() =~= edges@.take(k as int));
            assert(iv.take(k as int + 1).take(k as int) =~= iv.take(k as int));
            assert(edges@.take(k as int + 1).last() == edges@[k as int]);
            assert(iv.take(k as int + 1)[k as int] == interior@[k as int]@);
        }
        if a != b {
            let pts = &interior[k];
            let mut prev = a;
            let mut i: usize = 0;
            while i < pts.len()
                invariant
                    i <= pts@.len(),
                    prev == if i == 0 {
                        a
                    } else {
                        pts@[i - 1]
                    },
                    out@ == before + chain(a, pts@, b).take(i as int),
                decreases pts@.len() - i,
            {
                out.push((prev, pts[i]));
                proof {
                    assert(out@ =~= before + chain(a, pts@, b).take(i as int + 1));
                }
                prev = pts[i];
                i = i + 1;
            }
            out.push((prev, b));
            proof {
                assert(out@ =~= before + chain(a, pts@, b));
            }
        }
        k = k + 1;
    }
    proof {
        assert(edges@.take(edges@.len() as int) =~= edges@);
        assert(iv.take(edges@.len() as int) =~= iv);
    }
    out
}

/// A face reconstructed from a coplanar edge graph: an outer boundary plus
/// the loops nested immediately inside it (holes), as point indices.
#[derive(Debug)]
pub struct DetectedFace {
    pub outer: Vec<usize>,
    pub holes: Vec<Vec<usize>>,
}

/// The loops whose parent is loop `i`, among the first `n`, each reversed
/// (a hole winds opposite its face's outer loop), in order.
pub open spec fn child_loops(loops: Seq<Seq<usize>>, parent: Seq<Option<usize>>, i: int, n: int) -> Seq<Seq<usize>>
    decreases n,
{
    if n <= 0 {
        Seq::empty()
    } else {
        let rest = child_loops(loops, parent, i, n - 1);
        if parent[n - 1] == Some(i as usize) {
            rest.push(loops[n - 1].reverse())
        } else {
            rest
        }
    }
}

/// Builds one face per loop: loop `i` is its outer boundary, and the loops
/// whose immediate enclosing loop is `i` (`parent`, found by the caller
/// from areas and containment) become its holes, reversed, with holes that
/// share an edge fused (see `merge_holes_sharing_an_edge`).
pub fn assemble_faces(loops: &Vec<Vec<usize>>, parent: &Vec<Option<usize>>) -> (r: Vec<DetectedFace>)
    requires
        parent@.len() == loops@.len(),
    ensures
        r@.len() == loops@.len(),
        forall|i: int| 0 <= i < r@.len() ==> (#[trigger] r@[i]).outer@ == loops@[i]@,
        forall|i: int|
            0 <= i < r@.len() ==> loops_view((#[trigger] r@[i]).holes@) == merged_holes(
                child_loops(loops_view(loops@), parent@, i, loops@.len() as int),
            ),
{
    let ghost lv = loops_view(loops@);
    let mut out: Vec<DetectedFace> = Vec::new();
    let mut i: usize = 0;
    while i < loops.len()
        invariant
            lv == loops_view(loops@),
            parent@.len() == loops@.len(),
            i <= loops@.len(),
            out@.len() == i,
            forall|q: int| 0 <= q < i ==> (#[trigger] out@[q]).outer@ == loops@[q]@,
            forall|q: int|
                0 <= q < i ==> loops_view((#[trigger] out@[q]).holes@) == merged_holes(child_loops(lv, parent@, q, loops@.len() as int)),
        decreases loops@.len() - i,
    {
        let mut holes: Vec<Vec<usize>> = Vec::new();
        let mut j: usize = 0;
        while j < loops.len()
            invariant
                lv == loops_view(loops@),
                parent@.len() == loops@.len(),
                i < loops@.len(),
                j <= loops@.len(),
                loops_view(holes@) == child_loops(lv, parent@, i as int, j as int),
            decreases loops@.len() - j,
        {
            let is_child = match parent[j] {
                Some(p) => p == i,
                None => false,
            };
            if is_child {
                let ghost hb = holes@;
                let rev = reversed_loop(&loops[j]);
                holes.push(rev);
                proof {
                    assert(lv[j as int] == loops@[j as int]@);
                    assert(loops_view(holes@) =~= loops_view(hb).push(lv[j as int].reverse()));
                }
            }
            j = j + 1;
        }
        let merged = merge_holes_sharing_an_edge(holes);
        let outer = copy_loop(&loops[i]);
        out.push(DetectedFace { outer, holes: merged });
        i = i + 1;
    }
    out
}

fn reversed_loop(l: &Vec<usize>) -> (r: Vec<usize>)
    ensures
        r@ == l@.reverse(),
{
    let mut out: Vec<usize> = Vec::new();
    let n = l.len();
    let mut i: usize = 0;
    while i < n
        invariant
            n == l@.len(),
            i <= n,
            out@.len() == i,
            forall|k: int| 0 <= k < i ==> out@[k] == l@[n - 1 - k],
        decreases n - i,
    {
        out.push(l[n - 1 - i]);
        i = i + 1;
    }
    proof {
        assert(out@ =~= l@.reverse());
    }
    out
}

fn copy_loop(l: &Vec<usize>) -> (r: Vec<usize>)
    ensures
        r@ == l@,
{
    vstd::slice::slice_to_vec(l.as_slice())
}

proof fn lemma_least_mergeable_pair(holes: Seq<Seq<usize>>, x0: int, y0: int)
    requires
        holes_mergeable(holes, x0, y0),
    ensures
        exists|x: int, y: int| first_mergeable_pair(holes, x, y),
    decreases x0, y0,
{
    if exists|x2: int, y2: int| #[trigger] holes_mergeable(holes, x2, y2) && (x2 < x0 || (x2 == x0 && y2 < y0)) {
        let (x2, y2) = choose|x2: int, y2: int| #[trigger] holes_mergeable(holes, x2, y2) && (x2 < x0 || (x2 == x0 && y2 < y0));
        lemma_least_mergeable_pair(holes, x2, y2);
    } else {
        assert(first_mergeable_pair(holes, x0, y0));
    }
}

/// Merging leaves no two holes that share an edge: no pair of the holes it
/// returns can be fused any further.
pub proof fn lemma_merged_holes_share_no_edge(holes: Seq<Seq<usize>>)
    ensures
        forall|x: int, y: int|
            0 <= x < y < merged_holes(holes).len() ==> (#[trigger] merged_loop(merged_holes(holes)[x], merged_holes(holes)[y])) is None,
    decreases holes.len(),
{
    if exists|x: int, y: int| first_mergeable_pair(holes, x, y) {
        let (x, y) = choose|x: int, y: int| first_mergeable_pair(holes, x, y);
        lemma_merged_holes_share_no_edge(holes.remove(y).update(x, merged_loop(holes[x], holes[y]).unwrap()));
    } else {
        assert forall|x: int, y: int| 0 <= x < y < merged_holes(holes).len() implies (#[trigger] merged_loop(
            merged_holes(holes)[x],
            merged_holes(holes)[y],
        )) is None by {
            if merged_loop(holes[x], holes[y]) is Some {
                lemma_least_mergeable_pair(holes, x, y);
            }
        }
    }
}

} // verus!
