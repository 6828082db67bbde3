//! Reachability between cells, and the depth-first search that computes it.
//!
//! Two step relations are used: the eight-way step of the stone-cluster
//! search, bounded by the board, and the four-way step of the enclosure
//! flood, bounded by the grid of a `CellSet`.

use vstd::prelude::*;
use crate::grid::{Cell, CellSet, in_span, SPAN};

verus! {

/// One step of a search from `a` to `b`.
///
/// With `eight`, a step goes to any of the eight surrounding cells; it may
/// not climb past row or column 18. Without `eight`, a step goes to one of the four
/// side neighbours on the board.
pub open spec fn step(a: Cell, b: Cell, eight: bool) -> bool {
    let di = b.0 as int - a.0 as int;
    let dj = b.1 as int - a.1 as int;
    if eight {
        -1 <= di <= 1 && -1 <= dj <= 1 && (di != 0 || dj != 0) && (di == 1 ==> b.0 < 19) && (
        dj == 1 ==> b.1 < 19)
    } else {
        ((di == 0 && (dj == 1 || dj == -1)) || (dj == 0 && (di == 1 || di == -1))) && b.0 < 19
            && b.1 < 19
    }
}

/// `p` is a walk of steps through cells of `allowed`.
pub open spec fn is_walk(p: Seq<Cell>, allowed: Set<Cell>, eight: bool) -> bool {
    &&& p.len() > 0
    &&& forall|k: int| 0 <= k < p.len() ==> allowed.contains(#[trigger] p[k])
    &&& forall|k: int| 0 <= k < p.len() - 1 ==> #[trigger] step(p[k], p[k + 1], eight)
}

/// Some walk through `allowed` leads from `from` to `to`.
pub open spec fn reaches(allowed: Set<Cell>, from: Cell, to: Cell, eight: bool) -> bool {
    exists|p: Seq<Cell>| #[trigger]
        is_walk(p, allowed, eight) && p[0] == from && p[p.len() - 1] == to
}

/// The cells that walks through `allowed` reach from `from`.
pub open spec fn reach_set(allowed: Set<Cell>, from: Cell, eight: bool) -> Set<Cell> {
    Set::new(|c: Cell| reaches(allowed, from, c, eight))
}

/// Every allowed cell reaches itself.
pub proof fn lemma_reaches_self(allowed: Set<Cell>, c: Cell, eight: bool)
    requires
        allowed.contains(c),
    ensures
        reaches(allowed, c, c, eight),
{
    let p = seq![c];
    assert(is_walk(p, allowed, eight));
}

/// A walk extends by one step into an allowed cell.
pub proof fn lemma_reaches_step(allowed: Set<Cell>, from: Cell, c: Cell, d: Cell, eight: bool)
    requires
        reaches(allowed, from, c, eight),
        allowed.contains(d),
        step(c, d, eight),
    ensures
        reaches(allowed, from, d, eight),
{
    let p = choose|p: Seq<Cell>| #[trigger]
        is_walk(p, allowed, eight) && p[0] == from && p[p.len() - 1] == c;
    let q = p.push(d);
    assert forall|k: int| 0 <= k < q.len() - 1 implies #[trigger] step(q[k], q[k + 1], eight) by {
        if k < p.len() - 1 {
            assert(step(p[k], p[k + 1], eight));
        }
    }
    assert(is_walk(q, allowed, eight));
}

/// A walk that starts in a set closed under steps through `allowed` ends in it.
pub proof fn lemma_closed_walk(allowed: Set<Cell>, closed: Set<Cell>, p: Seq<Cell>, eight: bool)
    requires
        is_walk(p, allowed, eight),
        closed.contains(p[0]),
        forall|c: Cell, d: Cell|
            closed.contains(c) && allowed.contains(d) && #[trigger] step(c, d, eight)
                ==> closed.contains(d),
    ensures
        closed.contains(p[p.len() - 1]),
    decreases p.len(),
{
    if p.len() > 1 {
        let q = p.drop_last();
        assert(is_walk(q, allowed, eight)) by {
            assert forall|k: int| 0 <= k < q.len() - 1 implies #[trigger] step(q[k], q[k + 1], eight) by {
                assert(step(p[k], p[k + 1], eight));
            }
        }
        lemma_closed_walk(allowed, closed, q, eight);
        let k = p.len() - 2;
        assert(step(p[k], p[k + 1], eight));
    }
}

/// Walks through a set are walks through any larger set.
pub proof fn lemma_reaches_mono(small: Set<Cell>, large: Set<Cell>, from: Cell, to: Cell, eight: bool)
    requires
        reaches(small, from, to, eight),
        small.subset_of(large),
    ensures
        reaches(large, from, to, eight),
{
    let p = choose|p: Seq<Cell>| #[trigger]
        is_walk(p, small, eight) && p[0] == from && p[p.len() - 1] == to;
    assert(is_walk(p, large, eight));
}

/// The offset of direction `k` of the eight directions; the first four are
/// the side neighbours.
pub open spec fn dir(k: int) -> (int, int) {
    if k == 0 {
        (0, 1)
    } else if k == 1 {
        (0, -1)
    } else if k == 2 {
        (-1, 0)
    } else if k == 3 {
        (1, 0)
    } else if k == 4 {
        (1, 1)
    } else if k == 5 {
        (-1, 1)
    } else if k == 6 {
        (1, -1)
    } else {
        (-1, -1)
    }
}

/// `d` lies in direction `k` from `c`.
pub open spec fn toward(c: Cell, k: int, d: Cell) -> bool {
    d.0 as int == c.0 as int + dir(k).0 && d.1 as int == c.1 as int + dir(k).1
}

proof fn lemma_step_has_dir(c: Cell, d: Cell, eight: bool)
    requires
        step(c, d, eight),
    ensures
        exists|k: int| 0 <= k < 8 && #[trigger] toward(c, k, d),
{
    let di = d.0 as int - c.0 as int;
    let dj = d.1 as int - c.1 as int;
    if di == 0 && dj == 1 {
        assert(toward(c, 0, d));
    } else if di == 0 && dj == -1 {
        assert(toward(c, 1, d));
    } else if di == -1 && dj == 0 {
        assert(toward(c, 2, d));
    } else if di == 1 && dj == 0 {
        assert(toward(c, 3, d));
    } else if di == 1 && dj == 1 {
        assert(toward(c, 4, d));
    } else if di == -1 && dj == 1 {
        assert(toward(c, 5, d));
    } else if di == 1 && dj == -1 {
        assert(toward(c, 6, d));
    } else {
        assert(toward(c, 7, d));
    }
}

/// The cell one step from `c` in direction `k`, if that step is allowed.
pub fn neighbour(c: Cell, k: usize, eight: bool) -> (r: Option<Cell>)
    requires
        in_span(c),
        k < 8,
    ensures
        match r {
            Some(d) => toward(c, k as int, d) && step(c, d, eight),
            None => forall|d: Cell| toward(c, k as int, d) ==> !step(c, d, eight),
        },
{
    let (i, j) = c;
    let (lo_i, hi_i, lo_j, hi_j) = if k == 0 {
        (false, false, false, true)
    } else if k == 1 {
        (false, false, true, false)
    } else if k == 2 {
        (true, false, false, false)
    } else if k == 3 {
        (false, true, false, false)
    } else if k == 4 {
        (false, true, false, true)
    } else if k == 5 {
        (true, false, false, true)
    } else if k == 6 {
        (false, true, true, false)
    } else {
        (true, false, true, false)
    };
    if !eight && k >= 4 {
        return None;
    }
    let limit: usize = 19;
    if (lo_i && i < 1) || (lo_j && j < 1) || (hi_i && i + 1 >= limit) || (hi_j && j + 1 >= limit) {
        return None;
    }
    let ni = if lo_i { i - 1 } else if hi_i { i + 1 } else { i };
    let nj = if lo_j { j - 1 } else if hi_j { j + 1 } else { j };
    if !eight && (ni >= 19 || nj >= 19) {
        return None;
    }
    Some((ni, nj))
}

/// The cells that walks through `open`, or through `start` itself, reach
/// from `start`.
pub fn explore(start: Cell, open: &CellSet, eight: bool) -> (r: CellSet)
    requires
        open.wf(),
        in_span(start),
    ensures
        r.wf(),
        r@ == reach_set(open@.insert(start), start, eight),
{
    let ghost allowed = open@.insert(start);
    let mut seen = CellSet::new();
    let mut stack: Vec<Cell> = Vec::new();
    stack.push(start);
    proof {
        assert(stack@[0] == start);
        lemma_reaches_self(allowed, start, eight);
        open.lemma_wf();
    }
    while stack.len() > 0
        invariant
            open.wf(),
            seen.wf(),
            in_span(start),
            allowed == open@.insert(start),
            forall|k: int|
                0 <= k < stack@.len() ==> allowed.contains(#[trigger] stack@[k]) && reaches(
                    allowed,
                    start,
                    stack@[k],
                    eight,
                ),
            forall|c: Cell| #[trigger] seen@.contains(c) ==> reaches(allowed, start, c, eight),
            seen@.contains(start) || stack@.contains(start),
            forall|c: Cell, d: Cell|
                seen@.contains(c) && allowed.contains(d) && #[trigger] step(c, d, eight)
                    ==> seen@.contains(d) || stack@.contains(d),
        decreases 400 - seen.count(), stack.len(),
    {
        proof {
            seen.lemma_wf();
        }
        let ghost old_stack = stack@;
        let c = stack.pop().unwrap();
        proof {
            assert(old_stack == stack@.push(c));
            assert(allowed.contains(old_stack[old_stack.len() - 1]));
            assert forall|d: Cell| #[trigger] old_stack.contains(d) && d != c implies stack@.contains(d) by {
                let k = choose|k: int| 0 <= k < old_stack.len() && old_stack[k] == d;
                assert(stack@[k] == d);
            }
        }
        if seen.contains(c.0, c.1) {
            continue;
        }
        proof {
            open.lemma_wf();
        }
        seen.insert(c.0, c.1);
        proof {
            seen.lemma_wf();
        }
        let ghost base = stack@;
        let mut k: usize = 0;
        while k < 8
            invariant
                open.wf(),
                seen.wf(),
                in_span(c),
                in_span(start),
                allowed == open@.insert(start),
                reaches(allowed, start, c, eight),
                k <= 8,
                stack@.len() >= base.len(),
                forall|m: int| 0 <= m < base.len() ==> stack@[m] == base[m],
                forall|m: int|
                    0 <= m < stack@.len() ==> allowed.contains(#[trigger] stack@[m]) && reaches(
                        allowed,
                        start,
                        stack@[m],
                        eight,
                    ),
                forall|m: int, d: Cell|
                    0 <= m < k && #[trigger] toward(c, m, d) && step(c, d, eight) && allowed.contains(d)
                        ==> seen@.contains(d) || stack@.contains(d),
            decreases 8 - k,
        {
            let nb = neighbour(c, k, eight);
            if nb.is_none() {
                k = k + 1;
                continue;
            }
            let d = nb.unwrap();
            if (open.contains(d.0, d.1) || (d.0 == start.0 && d.1 == start.1)) && !seen.contains(
                d.0,
                d.1,
            ) {
                proof {
                    lemma_reaches_step(allowed, start, c, d, eight);
                }
                let ghost prev = stack@;
                stack.push(d);
                proof {
                    assert(stack@[stack@.len() - 1] == d);
                    assert forall|m: int, e: Cell|
                        0 <= m < k + 1 && #[trigger] toward(c, m, e) && step(c, e, eight) && allowed.contains(e)
                            implies seen@.contains(e) || stack@.contains(e) by {
                        if m < k && !seen@.contains(e) {
                            let w = choose|w: int| 0 <= w < prev.len() && prev[w] == e;
                            assert(stack@[w] == e);
                        }
                    }
                }
            }
            k = k + 1;
        }
        proof {
            assert forall|x: Cell| #[trigger] base.contains(x) implies stack@.contains(x) by {
                let w = choose|w: int| 0 <= w < base.len() && base[w] == x;
                assert(stack@[w] == x);
            }
            assert forall|x: Cell, d: Cell|
                seen@.contains(x) && allowed.contains(d) && #[trigger] step(x, d, eight)
                    implies seen@.contains(d) || stack@.contains(d) by {
                if x == c {
                    lemma_step_has_dir(c, d, eight);
                    let m = choose|m: int| 0 <= m < 8 && #[trigger] toward(c, m, d);
                }
            }
        }
    }
    proof {
        assert forall|x: Cell| reaches(allowed, start, x, eight) implies #[trigger] seen@.contains(x) by {
            let p = choose|p: Seq<Cell>| #[trigger]
                is_walk(p, allowed, eight) && p[0] == start && p[p.len() - 1] == x;
            lemma_closed_walk(allowed, seen@, p, eight);
        }
        assert(seen@ =~= reach_set(allowed, start, eight));
    }
    seen
}

} // verus!
