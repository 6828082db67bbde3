//! Properties of the rules that relate several steps of the game.

use vstd::prelude::*;
use crate::grid::{Cell, lemma_row_major_unique, row_major};
use crate::logic::{GamePhase, Turn, other, transition};
use crate::reach::{is_walk, lemma_reaches_mono, reach_set, reaches, step};
use crate::territory::{
    all_on_lattice, annihilation, board_cell, cleaned, cluster, fill, go_scan, lemma_sweep_plain,
    on_lattice, plain, sweep, territory,
};

verus! {

/// The state after both watchtower placements, starting from
/// `(PlaceWatchtower, White)`, and `n` complete pairs of a draught move and
/// a stone placement.
pub open spec fn after_pairs(n: nat) -> (GamePhase, Turn)
    decreases n,
{
    if n == 0 {
        let first = transition(GamePhase::PlaceWatchtower, Turn::White);
        transition(first.0, first.1)
    } else {
        let s = after_pairs((n - 1) as nat);
        let mid = transition(s.0, s.1);
        transition(mid.0, mid.1)
    }
}

/// Turn order: after the two watchtower placements, White moves first, the
/// side that moves a draught places the following stone, and the acting side
/// changes with every pair, never acting twice in a row.
pub proof fn lemma_sides_alternate(n: nat)
    ensures
        after_pairs(n).0 == GamePhase::MoveDraught,
        after_pairs(n).1 == (if n % 2 == 0 {
            Turn::White
        } else {
            Turn::Black
        }),
        transition(after_pairs(n).0, after_pairs(n).1) == (GamePhase::PlaceGoPiece, after_pairs(n).1),
        after_pairs(n + 1).1 == other(after_pairs(n).1),
        after_pairs(n + 1).1 != after_pairs(n).1,
    decreases n,
{
    if n > 0 {
        lemma_sides_alternate((n - 1) as nat);
    }
}

/// The state before action `i` of a game that keeps to the turn protocol:
/// from action 2 on, a draught move and a stone placement by one side, then
/// the same by the other side, White first.
pub open spec fn protocol_state(i: int) -> (GamePhase, Turn) {
    (
        if (i - 2) % 2 == 0 {
            GamePhase::MoveDraught
        } else {
            GamePhase::PlaceGoPiece
        },
        if ((i - 2) / 2) % 2 == 0 {
            Turn::White
        } else {
            Turn::Black
        },
    )
}

/// The log starts with White's watchtower placement, and every later entry
/// is the state that `next_state` gave after the entry before it.
pub open spec fn follows_protocol(log: Seq<(GamePhase, Turn)>) -> bool {
    &&& log.len() >= 1
    &&& log[0] == (GamePhase::PlaceWatchtower, Turn::White)
    &&& forall|i: int| 1 <= i < log.len() ==> #[trigger] log[i] == transition(log[i - 1].0, log[i - 1].1)
}

proof fn lemma_protocol_step(i: int)
    requires
        i >= 2,
    ensures
        transition(protocol_state(i).0, protocol_state(i).1) == protocol_state(i + 1),
{
    if (i - 2) % 2 == 0 {
        assert((i - 1) % 2 == 1 && (i - 1) / 2 == (i - 2) / 2);
    } else {
        assert((i - 1) % 2 == 0 && (i - 1) / 2 == (i - 2) / 2 + 1);
    }
}

proof fn lemma_logged_entry(log: Seq<(GamePhase, Turn)>, i: int)
    requires
        follows_protocol(log),
        2 <= i < log.len(),
    ensures
        log[i] == protocol_state(i),
    decreases i,
{
    if i == 2 {
        assert(log[1] == transition(log[0].0, log[0].1));
        assert(log[2] == transition(log[1].0, log[1].1));
    } else {
        lemma_logged_entry(log, i - 1);
        lemma_protocol_step(i - 1);
        assert(log[i] == transition(log[i - 1].0, log[i - 1].1));
    }
}

/// Turn order over a logged game: after the two watchtower placements
/// (White's, then Black's), the log holds pairs of a draught move and a stone
/// placement by one side, the sides taking pairs in turn, White first; and
/// the next state continues that pattern.
pub proof fn lemma_logged_turns(log: Seq<(GamePhase, Turn)>)
    requires
        follows_protocol(log),
    ensures
        log.len() >= 2 ==> log[1] == (GamePhase::PlaceWatchtower, Turn::Black),
        forall|i: int| 2 <= i < log.len() ==> #[trigger] log[i] == protocol_state(i),
        log.len() >= 2 ==> transition(log.last().0, log.last().1) == protocol_state(log.len() as int),
{
    if log.len() >= 2 {
        assert(log[1] == transition(log[0].0, log[0].1));
    }
    assert forall|i: int| 2 <= i < log.len() implies #[trigger] log[i] == protocol_state(i) by {
        lemma_logged_entry(log, i);
    }
    if log.len() >= 3 {
        lemma_logged_entry(log, log.len() - 1);
        lemma_protocol_step(log.len() - 1);
    }
}

/// Two lists of regions that each give the side's territory regions cell
/// for cell, in row-major order within each region, are the same lists: the
/// result of `legal_go_moves` depends only on the set of the side's stones.
pub proof fn lemma_territory_lists_unique(stones: Set<Cell>, a: Seq<Seq<Cell>>, b: Seq<Seq<Cell>>)
    requires
        a.len() == territory(stones).len(),
        b.len() == territory(stones).len(),
        forall|k: int| 0 <= k < a.len() ==> (#[trigger] a[k]).to_set() == territory(stones)[k] && row_major(a[k]),
        forall|k: int| 0 <= k < b.len() ==> (#[trigger] b[k]).to_set() == territory(stones)[k] && row_major(b[k]),
    ensures
        a == b,
{
    assert forall|k: int| 0 <= k < a.len() implies a[k] == b[k] by {
        crate::territory::lemma_region_cells_in_span(stones, k);
        assert forall|m: int| 0 <= m < a[k].len() implies crate::grid::in_span(#[trigger] a[k][m]) by {
            assert(a[k].to_set().contains(a[k][m]));
        }
        assert forall|m: int| 0 <= m < b[k].len() implies crate::grid::in_span(#[trigger] b[k][m]) by {
            assert(b[k].to_set().contains(b[k][m]));
        }
        lemma_row_major_unique(a[k], b[k]);
    }
    assert(a =~= b);
}

/// The enclosure fill keeps every cell of the region it starts from.
pub proof fn lemma_fill_keeps(region: Set<Cell>, fuel: nat)
    requires
        plain(region),
    ensures
        region.subset_of(fill(region, fuel)),
    decreases fuel,
{
    lemma_sweep_plain(region, 361);
    if fuel > 0 && sweep(region, 361) != region {
        lemma_fill_keeps(sweep(region, 361), (fuel - 1) as nat);
    }
}

/// The clusters that the scan from seed `n` on turns into regions, one per
/// region and in the same order.
pub open spec fn go_clusters(stones: Set<Cell>, visited: Set<Cell>, n: int) -> Seq<Set<Cell>>
    decreases 361 - n,
{
    if n >= 361 || n < 0 {
        seq![]
    } else {
        let k = cluster(stones, visited, board_cell(n));
        if k.len() >= 3 {
            seq![k] + go_clusters(stones, visited.union(k), n + 1)
        } else {
            go_clusters(stones, visited, n + 1)
        }
    }
}

/// The clusters of the side's territory regions.
pub open spec fn region_clusters(stones: Set<Cell>) -> Seq<Set<Cell>> {
    go_clusters(stones, Set::empty(), 0)
}

/// `k` is a whole eight-way component of the stones, of at least three
/// stones; the region is `k` filled and cleaned, and the filled `k`, which
/// holds `k`, lies in `union`.
pub open spec fn region_origin(stones: Set<Cell>, k: Set<Cell>, region: Set<Cell>, union: Set<Cell>) -> bool {
    &&& exists|seed: Cell| stones.contains(seed) && k == #[trigger] reach_set(stones, seed, true)
    &&& k.len() >= 3
    &&& k.subset_of(fill(k, 400))
    &&& fill(k, 400).subset_of(union)
    &&& region == cleaned(fill(k, 400), stones)
}

proof fn lemma_cluster_in_open(stones: Set<Cell>, visited: Set<Cell>, s: Cell)
    ensures
        forall|c: Cell| #[trigger] cluster(stones, visited, s).contains(c) ==> stones.contains(c) && !visited.contains(c),
{
    let open = stones.difference(visited);
    assert forall|c: Cell| #[trigger] cluster(stones, visited, s).contains(c) implies stones.contains(c) && !visited.contains(c) by {
        let p = choose|p: Seq<Cell>| #[trigger] is_walk(p, open, true) && p[0] == s && p[p.len() - 1] == c;
        assert(open.contains(p[p.len() - 1]));
    }
}

proof fn lemma_grow_closed(stones: Set<Cell>, visited: Set<Cell>, s: Cell)
    requires
        all_on_lattice(stones),
        closed_under_reach(stones, visited),
        stones.contains(s),
        !visited.contains(s),
    ensures
        closed_under_reach(stones, visited.union(cluster(stones, visited, s))),
{
    let kk = cluster(stones, visited, s);
    let v2 = visited.union(kk);
    lemma_cluster_is_component(stones, visited, s);
    lemma_cluster_in_open(stones, visited, s);
    assert forall|v: Cell, w: Cell| v2.contains(v) && #[trigger] reaches(stones, v, w, true) implies v2.contains(w) by {
        if kk.contains(v) {
            lemma_reaches_chain(stones, s, v, w);
        }
    }
}

proof fn lemma_scan_origin(stones: Set<Cell>, visited: Set<Cell>, n: int, k: int)
    requires
        all_on_lattice(stones),
        closed_under_reach(stones, visited),
        0 <= n,
    ensures
        go_clusters(stones, visited, n).len() == go_scan(stones, visited, n).0.len(),
        0 <= k < go_scan(stones, visited, n).0.len() ==> region_origin(
            stones,
            go_clusters(stones, visited, n)[k],
            go_scan(stones, visited, n).0[k],
            go_scan(stones, visited, n).1,
        ),
        0 <= k < go_scan(stones, visited, n).0.len() ==> go_clusters(stones, visited, n)[k].disjoint(visited),
    decreases 361 - n,
{
    if n < 361 {
        let seed = board_cell(n);
        let kk = cluster(stones, visited, seed);
        let here = go_scan(stones, visited, n);
        let cl = go_clusters(stones, visited, n);
        lemma_cluster_in_open(stones, visited, seed);
        if kk.len() >= 3 {
            assert(stones.contains(seed) && !visited.contains(seed)) by {
                if !(stones.contains(seed) && !visited.contains(seed)) {
                    assert(kk =~= Set::<Cell>::empty());
                }
            }
            lemma_grow_closed(stones, visited, seed);
            let v2 = visited.union(kk);
            let rest = go_scan(stones, v2, n + 1);
            lemma_scan_origin(stones, v2, n + 1, k - 1);
            if 0 < k < here.0.len() {
                assert(here.0[k] == rest.0[k - 1]);
                assert(cl[k] == go_clusters(stones, v2, n + 1)[k - 1]);
                let k2 = cl[k];
                let s2 = choose|s2: Cell| stones.contains(s2) && k2 == #[trigger] reach_set(stones, s2, true);
                assert(fill(k2, 400).subset_of(here.1));
                assert(region_origin(stones, k2, here.0[k], here.1));
            } else if k == 0 {
                lemma_cluster_is_component(stones, visited, seed);
                assert(plain(kk)) by {
                    assert forall|c: Cell| #[trigger] kk.contains(c) implies crate::grid::in_span(c) by {
                        assert(on_lattice(c));
                    }
                }
                lemma_fill_keeps(kk, 400);
                assert(cl[0] == kk);
                assert(here.0[0] == cleaned(fill(kk, 400), stones));
                assert(region_origin(stones, cl[0], here.0[0], here.1));
                assert(kk.disjoint(visited));
            }
        } else {
            lemma_scan_origin(stones, visited, n + 1, k);
        }
    }
}

proof fn lemma_scan_disjoint(stones: Set<Cell>, visited: Set<Cell>, n: int, a: int, b: int)
    requires
        all_on_lattice(stones),
        closed_under_reach(stones, visited),
        0 <= n,
        0 <= a < b < go_scan(stones, visited, n).0.len(),
    ensures
        go_clusters(stones, visited, n)[a].disjoint(go_clusters(stones, visited, n)[b]),
    decreases 361 - n,
{
    lemma_scan_origin(stones, visited, n, a);
    if n < 361 {
        let seed = board_cell(n);
        let kk = cluster(stones, visited, seed);
        if kk.len() >= 3 {
            assert(stones.contains(seed) && !visited.contains(seed)) by {
                if !(stones.contains(seed) && !visited.contains(seed)) {
                    assert(kk =~= Set::<Cell>::empty());
                }
            }
            lemma_grow_closed(stones, visited, seed);
            let v2 = visited.union(kk);
            lemma_scan_origin(stones, v2, n + 1, b - 1);
            if a == 0 {
                assert(go_clusters(stones, v2, n + 1)[b - 1].disjoint(v2));
            } else {
                lemma_scan_disjoint(stones, v2, n + 1, a - 1, b - 1);
            }
        } else {
            lemma_scan_disjoint(stones, visited, n + 1, a, b);
        }
    }
}

/// Every territory region comes from its own whole eight-way component of
/// the side's stones, of at least three stones: the region is that component
/// filled and cleaned, and the filled component, which holds the component,
/// lies in the annihilation union. The components of two regions share no
/// stone.
pub proof fn lemma_regions_come_from_clusters(stones: Set<Cell>, k: int)
    requires
        all_on_lattice(stones),
        0 <= k < territory(stones).len(),
    ensures
        region_clusters(stones).len() == territory(stones).len(),
        region_origin(stones, region_clusters(stones)[k], territory(stones)[k], annihilation(stones)),
        forall|m: int| 0 <= m < territory(stones).len() && m != k ==> region_clusters(stones)[k].disjoint(
            #[trigger] region_clusters(stones)[m],
        ),
{
    lemma_scan_origin(stones, Set::empty(), 0, k);
    assert forall|m: int| 0 <= m < territory(stones).len() && m != k implies region_clusters(stones)[k].disjoint(
        #[trigger] region_clusters(stones)[m],
    ) by {
        if k < m {
            lemma_scan_disjoint(stones, Set::empty(), 0, k, m);
        } else {
            lemma_scan_disjoint(stones, Set::empty(), 0, m, k);
        }
    }
}

/// `visited` holds stones only, and every stone reached from one of them.
pub open spec fn closed_under_reach(stones: Set<Cell>, visited: Set<Cell>) -> bool {
    &&& visited.subset_of(stones)
    &&& forall|v: Cell, w: Cell| visited.contains(v) && #[trigger] reaches(stones, v, w, true) ==> visited.contains(w)
}

proof fn lemma_walk_ends_in(stones: Set<Cell>, p: Seq<Cell>, k: int)
    requires
        is_walk(p, stones, true),
        0 <= k < p.len(),
    ensures
        reaches(stones, p[0], p[k], true),
        reaches(stones, p[k], p[p.len() - 1], true),
{
    let a = p.take(k + 1);
    assert(is_walk(a, stones, true)) by {
        assert forall|m: int| 0 <= m < a.len() - 1 implies #[trigger] step(a[m], a[m + 1], true) by {
            assert(step(p[m], p[m + 1], true));
        }
    }
    assert(a[a.len() - 1] == p[k]);
    let b = p.skip(k);
    assert(is_walk(b, stones, true)) by {
        assert forall|m: int| 0 <= m < b.len() - 1 implies #[trigger] step(b[m], b[m + 1], true) by {
            assert(step(p[k + m], p[k + m + 1], true));
        }
    }
    assert(b[b.len() - 1] == p[p.len() - 1]);
}

proof fn lemma_reaches_back(stones: Set<Cell>, a: Cell, b: Cell)
    requires
        all_on_lattice(stones),
        reaches(stones, a, b, true),
    ensures
        reaches(stones, b, a, true),
{
    let p = choose|p: Seq<Cell>| #[trigger] is_walk(p, stones, true) && p[0] == a && p[p.len() - 1] == b;
    let q = Seq::new(p.len(), |k: int| p[p.len() - 1 - k]);
    assert forall|k: int| 0 <= k < q.len() - 1 implies #[trigger] step(q[k], q[k + 1], true) by {
        let m = p.len() - 2 - k;
        assert(step(p[m], p[m + 1], true));
        assert(stones.contains(p[m]) && stones.contains(p[m + 1]));
        assert(on_lattice(p[m]) && on_lattice(p[m + 1]));
    }
    assert(is_walk(q, stones, true));
}

proof fn lemma_reaches_chain(stones: Set<Cell>, a: Cell, b: Cell, c: Cell)
    requires
        reaches(stones, a, b, true),
        reaches(stones, b, c, true),
    ensures
        reaches(stones, a, c, true),
{
    let p = choose|p: Seq<Cell>| #[trigger] is_walk(p, stones, true) && p[0] == a && p[p.len() - 1] == b;
    let q = choose|q: Seq<Cell>| #[trigger] is_walk(q, stones, true) && q[0] == b && q[q.len() - 1] == c;
    let r = p + q.skip(1);
    assert forall|k: int| 0 <= k < r.len() - 1 implies #[trigger] step(r[k], r[k + 1], true) by {
        if k < p.len() - 1 {
            assert(step(p[k], p[k + 1], true));
        } else {
            let m = k - p.len() + 1;
            assert(step(q[m], q[m + 1], true));
        }
    }
    assert forall|k: int| 0 <= k < r.len() implies stones.contains(#[trigger] r[k]) by {
        if k >= p.len() {
            assert(r[k] == q[k - p.len() + 1]);
        }
    }
    assert(is_walk(r, stones, true));
    assert(r[r.len() - 1] == c) by {
        if q.len() == 1 {
            assert(r[r.len() - 1] == p[p.len() - 1]);
        }
    }
}

/// Seeded outside a closed set of visited stones, the cluster search reaches
/// the seed's whole component.
proof fn lemma_cluster_is_component(stones: Set<Cell>, visited: Set<Cell>, s: Cell)
    requires
        all_on_lattice(stones),
        closed_under_reach(stones, visited),
        stones.contains(s),
        !visited.contains(s),
    ensures
        cluster(stones, visited, s) == reach_set(stones, s, true),
{
    let open = stones.difference(visited);
    assert forall|w: Cell| reach_set(open, s, true).contains(w) <==> reach_set(stones, s, true).contains(w) by {
        if reaches(open, s, w, true) {
            lemma_reaches_mono(open, stones, s, w, true);
        }
        if reaches(stones, s, w, true) {
            let p = choose|p: Seq<Cell>| #[trigger] is_walk(p, stones, true) && p[0] == s && p[p.len() - 1] == w;
            assert forall|k: int| 0 <= k < p.len() implies open.contains(#[trigger] p[k]) by {
                lemma_walk_ends_in(stones, p, k);
                if visited.contains(p[k]) {
                    lemma_reaches_back(stones, s, p[k]);
                }
            }
            assert(is_walk(p, open, true));
        }
    }
    assert(cluster(stones, visited, s) =~= reach_set(stones, s, true));
}

proof fn lemma_cell_index(m: Cell)
    requires
        m.1 < 19,
    ensures
        board_cell(m.0 * 19 + m.1) == m,
{
    let n = m.0 * 19 + m.1;
    assert(n / 19 == m.0 && n % 19 == m.1) by (nonlinear_arith)
        requires
            n == m.0 * 19 + m.1,
            0 <= m.1 < 19,
            m.0 >= 0;
}

proof fn lemma_scan_catches(stones: Set<Cell>, visited: Set<Cell>, n: int, c: Cell, m: Cell)
    requires
        all_on_lattice(stones),
        closed_under_reach(stones, visited),
        stones.contains(c),
        !visited.contains(c),
        reach_set(stones, c, true).len() >= 3,
        0 <= n,
        reaches(stones, c, m, true),
        n <= m.0 * 19 + m.1,
    ensures
        reach_set(stones, c, true).subset_of(go_scan(stones, visited, n).1),
    decreases 361 - n,
{
    let comp = reach_set(stones, c, true);
    let pm = choose|p: Seq<Cell>| #[trigger] is_walk(p, stones, true) && p[0] == c && p[p.len() - 1] == m;
    assert(stones.contains(pm[pm.len() - 1]));
    assert(on_lattice(m));
    assert(n < 361);
    let s = board_cell(n);
    let kk = cluster(stones, visited, s);
    let here = go_scan(stones, visited, n);
    if reaches(stones, c, s, true) {
        let ps = choose|p: Seq<Cell>| #[trigger] is_walk(p, stones, true) && p[0] == c && p[p.len() - 1] == s;
        assert(stones.contains(ps[ps.len() - 1]));
        lemma_reaches_back(stones, c, s);
        if visited.contains(s) {
            assert(visited.contains(c));
        }
        lemma_cluster_is_component(stones, visited, s);
        assert(kk =~= comp) by {
            assert forall|w: Cell| kk.contains(w) <==> comp.contains(w) by {
                if reaches(stones, s, w, true) {
                    lemma_reaches_chain(stones, c, s, w);
                }
                if reaches(stones, c, w, true) {
                    lemma_reaches_chain(stones, s, c, w);
                }
            }
        }
        assert(plain(kk)) by {
            assert forall|w: Cell| #[trigger] kk.contains(w) implies crate::grid::in_span(w) by {
                let p = choose|p: Seq<Cell>| #[trigger] is_walk(p, stones, true) && p[0] == c && p[p.len() - 1] == w;
                assert(stones.contains(p[p.len() - 1]));
                assert(on_lattice(w));
            }
        }
        lemma_fill_keeps(kk, 400);
    } else {
        assert(m != s);
        lemma_cell_index(m);
        assert(n + 1 <= m.0 * 19 + m.1);
        if kk.len() >= 3 {
            if !(stones.contains(s) && !visited.contains(s)) {
                assert(kk =~= Set::<Cell>::empty());
            }
            lemma_cluster_is_component(stones, visited, s);
            let v2 = visited.union(kk);
            assert(closed_under_reach(stones, v2)) by {
                assert forall|v: Cell, w: Cell| v2.contains(v) && #[trigger] reaches(stones, v, w, true) implies v2.contains(w) by {
                    if kk.contains(v) {
                        lemma_reaches_chain(stones, s, v, w);
                    }
                }
                assert forall|w: Cell| kk.contains(w) implies stones.contains(w) by {
                    let p = choose|p: Seq<Cell>| #[trigger] is_walk(p, stones, true) && p[0] == s && p[p.len() - 1] == w;
                    assert(stones.contains(p[p.len() - 1]));
                }
            }
            if kk.contains(c) {
                lemma_reaches_back(stones, s, c);
            }
            lemma_scan_catches(stones, v2, n + 1, c, m);
        } else {
            lemma_scan_catches(stones, visited, n + 1, c, m);
        }
    }
}

/// A stone whose cluster (the stones that eight-way steps through the
/// side's stones reach from it) holds at least three stones lies, with its
/// whole cluster, in the filled territory that the next territory
/// computation returns (the annihilation union). The cleaned region itself
/// may hold fewer cells: the clean-up keeps no cell of a straight line.
pub proof fn lemma_cluster_of_three_is_filled(stones: Set<Cell>, c: Cell)
    requires
        all_on_lattice(stones),
        stones.contains(c),
        reach_set(stones, c, true).len() >= 3,
    ensures
        reach_set(stones, c, true).subset_of(annihilation(stones)),
{
    crate::reach::lemma_reaches_self(stones, c, true);
    lemma_scan_catches(stones, Set::empty(), 0, c, c);
}

} // verus!
