//! The territory engine: stone clusters, the enclosure fill and the
//! clean-up of a filled region.

use vstd::prelude::*;
use crate::grid::{Cell, CellSet, in_span, row_major, SPAN};
use crate::logic::{BOARD_SIZE, GameLogic, GameStats, Turn};
use crate::reach::{explore, reach_set};

verus! {

/// The temporary edge markers of the enclosure flood: the last row and the
/// last column of the board.
pub open spec fn marker(c: Cell) -> bool {
    (c.0 < 19 && c.1 == 18) || (c.0 == 18 && c.1 < 19)
}

/// The cell lies on the board.
pub open spec fn board_cell_ok(c: Cell) -> bool {
    c.0 < 19 && c.1 < 19
}

/// The board cells that the enclosure flood may enter around `region`.
pub open spec fn flood_open(region: Set<Cell>) -> Set<Cell> {
    Set::new(|c: Cell| board_cell_ok(c) && !region.contains(c) && !marker(c))
}

/// The cells that the four-way flood from `start` visits around `region`.
pub open spec fn flood(region: Set<Cell>, start: Cell) -> Set<Cell> {
    reach_set(flood_open(region).insert(start), start, false)
}

/// The flood came next to all four board edges: a visited cell has a side
/// neighbour on row 0, on row 18, on column 0 and on column 18.
pub open spec fn touches_all_edges(f: Set<Cell>) -> bool {
    &&& exists|c: Cell| #[trigger] f.contains(c) && c.0 <= 1
    &&& exists|c: Cell| #[trigger] f.contains(c) && 17 <= c.0 <= 18
    &&& exists|c: Cell| #[trigger] f.contains(c) && c.1 <= 1
    &&& exists|c: Cell| #[trigger] f.contains(c) && 17 <= c.1 <= 18
}

/// One enclosure step: unless the flood from `start` escapes to all four
/// edges, what it visited joins the region, all but the edge markers.
pub open spec fn expand(region: Set<Cell>, start: Cell) -> Set<Cell> {
    let f = flood(region, start);
    if touches_all_edges(f) {
        region
    } else {
        region.union(f.filter(|c: Cell| !marker(c)))
    }
}

/// The region lies on the board.
pub open spec fn plain(region: Set<Cell>) -> bool {
    forall|c: Cell| #[trigger] region.contains(c) ==> board_cell_ok(c)
}

/// An enclosure step keeps every cell of a region on the board, and from a
/// board cell keeps the region on the board.
pub proof fn lemma_expand_grows(region: Set<Cell>, start: Cell)
    requires
        plain(region),
    ensures
        region.subset_of(expand(region, start)),
        plain(expand(region, start)) || !board_cell_ok(start),
{
    let f = flood(region, start);
    if !touches_all_edges(f) {
        assert(region.subset_of(region.union(f.filter(|c: Cell| !marker(c)))));
    }
    if board_cell_ok(start) {
        let a = flood_open(region).insert(start);
        assert forall|c: Cell| #[trigger] f.contains(c) implies board_cell_ok(c) by {
            let p = choose|p: Seq<Cell>| #[trigger]
                crate::reach::is_walk(p, a, false) && p[0] == start && p[p.len() - 1] == c;
            assert(a.contains(p[p.len() - 1]));
        }
    }
}

/// The cells of the grid that are outside `region` and are no markers.
fn open_cells(region: &CellSet) -> (r: CellSet)
    requires
        region.wf(),
    ensures
        r.wf(),
        r@ == flood_open(region@),
{
    let mut r = CellSet::new();
    let mut i: usize = 0;
    while i < SPAN
        invariant
            region.wf(),
            r.wf(),
            i <= 20,
            forall|c: Cell| #[trigger]
                r@.contains(c) <==> (flood_open(region@).contains(c) && c.0 < i),
        decreases 20 - i,
    {
        let mut j: usize = 0;
        while j < SPAN
            invariant
                region.wf(),
                r.wf(),
                i < 20,
                j <= 20,
                forall|c: Cell| #[trigger]
                    r@.contains(c) <==> (flood_open(region@).contains(c) && (c.0 < i || (c.0
                        == i && c.1 < j))),
            decreases 20 - j,
        {
            let is_marker = (i < 19 && j == 18) || (i == 18 && j < 19);
            if i < 19 && j < 19 && !region.contains(i, j) && !is_marker {
                r.insert(i, j);
            }
            j = j + 1;
        }
        i = i + 1;
    }
    proof {
        assert(r@ =~= flood_open(region@));
    }
    r
}

/// The cells of `a`, and those of `b` that are no edge markers.
fn union_unmarked(a: &CellSet, b: &CellSet) -> (r: CellSet)
    requires
        a.wf(),
        b.wf(),
    ensures
        r.wf(),
        r@ == a@.union(b@.filter(|c: Cell| !marker(c))),
{
    let mut r = CellSet::new();
    let mut i: usize = 0;
    proof {
        a.lemma_wf();
        b.lemma_wf();
    }
    while i < SPAN
        invariant
            a.wf(),
            b.wf(),
            r.wf(),
            forall|c: Cell| #[trigger] a@.contains(c) ==> in_span(c),
            forall|c: Cell| #[trigger] b@.contains(c) ==> in_span(c),
            i <= 20,
            forall|c: Cell| #[trigger]
                r@.contains(c) <==> ((a@.contains(c) || (b@.contains(c) && !marker(c))) && c.0 < i),
        decreases 20 - i,
    {
        let mut j: usize = 0;
        while j < SPAN
            invariant
                a.wf(),
                b.wf(),
                r.wf(),
                i < 20,
                j <= 20,
                forall|c: Cell| #[trigger]
                    r@.contains(c) <==> ((a@.contains(c) || (b@.contains(c) && !marker(c))) && (c.0
                        < i || (c.0 == i && c.1 < j))),
            decreases 20 - j,
        {
            let is_marker = (i < 19 && j == 18) || (i == 18 && j < 19);
            if a.contains(i, j) || (b.contains(i, j) && !is_marker) {
                r.insert(i, j);
            }
            j = j + 1;
        }
        i = i + 1;
    }
    proof {
        a.lemma_wf();
        b.lemma_wf();
        assert(r@ =~= a@.union(b@.filter(|c: Cell| !marker(c))));
    }
    r
}

/// One enclosure step on a set of cells, and whether the flood escaped to
/// all four edges.
pub fn expand_cells(start: Cell, region: &CellSet) -> (r: (CellSet, bool))
    requires
        region.wf(),
        in_span(start),
    ensures
        r.0.wf(),
        r.0@ == expand(region@, start),
        r.1 == touches_all_edges(flood(region@, start)),
{
    let open = open_cells(region);
    let f = explore(start, &open, false);
    let all = f.any_in_rows(0, 1) && f.any_in_rows(17, 18) && f.any_in_cols(0, 1)
        && f.any_in_cols(17, 18);
    if all {
        (region.copy(), true)
    } else {
        (union_unmarked(region, &f), false)
    }
}

/// The `n`-th cell of the board in row-major order.
pub open spec fn board_cell(n: int) -> Cell {
    ((n / 19) as usize, (n % 19) as usize)
}

/// The region after one enclosure step from each of the first `n` board
/// cells, in row-major order.
pub open spec fn sweep(region: Set<Cell>, n: int) -> Set<Cell>
    decreases n,
{
    if n <= 0 {
        region
    } else {
        expand(sweep(region, n - 1), board_cell(n - 1))
    }
}

/// The enclosure fill: whole sweeps of the board, repeated until one of them
/// leaves the region as it is, at most `fuel` times.
pub open spec fn fill(region: Set<Cell>, fuel: nat) -> Set<Cell>
    decreases fuel,
{
    let next = sweep(region, 361);
    if fuel == 0 || next == region {
        region
    } else {
        fill(next, (fuel - 1) as nat)
    }
}

/// One sweep of the board.
fn sweep_cells(region: CellSet) -> (r: CellSet)
    requires
        region.wf(),
        plain(region@),
    ensures
        r.wf(),
        plain(r@),
        r@ == sweep(region@, 361),
        region@.subset_of(r@),
{
    let mut f = region;
    let mut n: usize = 0;
    while n < 361
        invariant
            n <= 361,
            f.wf(),
            plain(f@),
            f@ == sweep(region@, n as int),
            region@.subset_of(f@),
        decreases 361 - n,
    {
        let start: Cell = (n / 19, n % 19);
        proof {
            lemma_expand_grows(f@, start);
        }
        f = expand_cells(start, &f).0;
        n = n + 1;
    }
    f
}

/// A sweep that changes nothing took no step that changed anything.
pub proof fn lemma_sweep_stable(region: Set<Cell>, n: int)
    requires
        plain(region),
        0 <= n <= 361,
        sweep(region, 361) == region,
    ensures
        sweep(region, n) == region,
        n < 361 ==> expand(region, board_cell(n)) == region,
{
    lemma_sweep_between(region, n, 361);
    lemma_sweep_between(region, 0, n);
    assert(sweep(region, n) =~= region);
    if n < 361 {
        lemma_sweep_between(region, n + 1, 361);
        lemma_sweep_between(region, 0, n + 1);
        assert(sweep(region, n + 1) =~= region);
    }
}

proof fn lemma_sweep_between(region: Set<Cell>, a: int, b: int)
    requires
        plain(region),
        0 <= a <= b <= 361,
    ensures
        sweep(region, a).subset_of(sweep(region, b)),
        plain(sweep(region, b)),
    decreases b - a,
{
    if a < b {
        lemma_sweep_between(region, a, b - 1);
        lemma_expand_grows(sweep(region, b - 1), board_cell(b - 1));
    } else {
        lemma_sweep_plain(region, b);
    }
}

/// A sweep keeps every cell of a region on the grid, and keeps it on the grid.
pub proof fn lemma_sweep_plain(region: Set<Cell>, n: int)
    requires
        plain(region),
        0 <= n <= 361,
    ensures
        plain(sweep(region, n)),
        region.subset_of(sweep(region, n)),
    decreases n,
{
    if n > 0 {
        lemma_sweep_plain(region, n - 1);
        lemma_expand_grows(sweep(region, n - 1), board_cell(n - 1));
    }
}

/// The enclosure fill on a set of cells.
pub fn fill_cells(region: CellSet) -> (r: CellSet)
    requires
        region.wf(),
        plain(region@),
    ensures
        r.wf(),
        plain(r@),
        r@ == fill(region@, 400),
        region@.subset_of(r@),
        sweep(r@, 361) == r@,
{
    let ghost first = region@;
    let mut f = region;
    let mut passes: usize = 0;
    proof {
        f.lemma_wf();
    }
    loop
        invariant
            f.wf(),
            plain(f@),
            first.subset_of(f@),
            first.finite(),
            first == region@,
            passes as int <= f.count() as int - first.len() as int,
            fill(f@, (400 - passes) as nat) == fill(first, 400),
        decreases 400 - f.count(),
    {
        let next = sweep_cells(f.copy());
        if next.same(&f) {
            proof {
                assert(fill(f@, (400 - passes) as nat) == f@);
            }
            return f;
        }
        proof {
            if next@.subset_of(f@) {
                assert(next@ =~= f@);
            }
            f.lemma_wf();
            next.lemma_wf();
            vstd::set_lib::lemma_len_subset(first, f@);
            let x = choose|x: Cell| next@.contains(x) && !f@.contains(x);
            vstd::set_lib::lemma_len_subset(f@, next@.remove(x));
        }
        f = next;
        passes = passes + 1;
    }
}

/// Whether `src` holds the cell `(i + di, j + dj)`; cells with a negative
/// coordinate are held by no set.
pub open spec fn holds(src: Set<Cell>, i: usize, j: usize, di: int, dj: int) -> bool {
    i as int + di >= 0 && j as int + dj >= 0 && src.contains(
        ((i as int + di) as usize, (j as int + dj) as usize),
    )
}

/// Whether clean-up pass `pass` keeps the board cell `c` of `src`.
///
/// 0: along the rows, a cell stays on the first or last row or beside
/// another cell of the region. 1: the same along the columns. 2: the cell and
/// the cell diagonally below it are both in the region (the floor and the
/// ceiling of the cell's centre, `i + 1/2`, are `i` and `i + 1`). 3 and 4: a
/// cell whose neighbour on the open side (the lower row, then the upper row)
/// is outside the region stays only if the two stones at its corners on that
/// side are there.
pub open spec fn keeps(pass: int, src: Set<Cell>, stones: Set<Cell>, c: Cell) -> bool {
    let (i, j) = c;
    &&& src.contains(c)
    &&& i < 19 && j < 19
    &&& if pass == 0 {
        i == 0 || i == 18 || holds(src, i, j, 1, 0) || holds(src, i, j, -1, 0)
    } else if pass == 1 {
        i == 0 || i == 18 || holds(src, i, j, 0, 1) || holds(src, i, j, 0, -1)
    } else if pass == 2 {
        holds(src, i, j, -1, -1)
    } else if pass == 3 {
        i >= 1 && j >= 1 && (holds(src, i, j, -1, 0) || (holds(stones, i, j, -1, -1) && holds(
            stones,
            i,
            j,
            -1,
            0,
        )))
    } else {
        holds(src, i, j, 1, 0) || (holds(stones, i, j, 0, -1) && holds(stones, i, j, 0, 0))
    }
}

/// The cells that clean-up pass `pass` keeps.
pub open spec fn clean_pass(pass: int, src: Set<Cell>, stones: Set<Cell>) -> Set<Cell> {
    Set::new(|c: Cell| keeps(pass, src, stones, c))
}

/// A filled region after the five clean-up passes.
pub open spec fn cleaned(filled: Set<Cell>, stones: Set<Cell>) -> Set<Cell> {
    let a = clean_pass(0, filled, stones);
    let b = clean_pass(1, a, stones);
    let c = clean_pass(2, b, stones);
    let d = clean_pass(3, c, stones);
    clean_pass(4, d, stones)
}

fn has(src: &CellSet, i: usize, j: usize, di: i8, dj: i8) -> (r: bool)
    requires
        src.wf(),
        i < 20,
        j < 20,
        -1 <= di <= 1,
        -1 <= dj <= 1,
    ensures
        r == holds(src@, i, j, di as int, dj as int),
{
    if (di < 0 && i == 0) || (dj < 0 && j == 0) {
        return false;
    }
    let ni = if di < 0 { i - 1 } else if di > 0 { i + 1 } else { i };
    let nj = if dj < 0 { j - 1 } else if dj > 0 { j + 1 } else { j };
    src.contains(ni, nj)
}

fn keeps_cell(pass: u8, src: &CellSet, stones: &CellSet, i: usize, j: usize) -> (r: bool)
    requires
        src.wf(),
        stones.wf(),
        i < 19,
        j < 19,
    ensures
        r == keeps(pass as int, src@, stones@, (i, j)),
{
    if !src.contains(i, j) {
        return false;
    }
    if pass == 0 {
        i == 0 || i == 18 || has(src, i, j, 1, 0) || has(src, i, j, -1, 0)
    } else if pass == 1 {
        i == 0 || i == 18 || has(src, i, j, 0, 1) || has(src, i, j, 0, -1)
    } else if pass == 2 {
        has(src, i, j, -1, -1)
    } else if pass == 3 {
        i >= 1 && j >= 1 && (has(src, i, j, -1, 0) || (has(stones, i, j, -1, -1) && has(
            stones,
            i,
            j,
            -1,
            0,
        )))
    } else {
        has(src, i, j, 1, 0) || (has(stones, i, j, 0, -1) && has(stones, i, j, 0, 0))
    }
}

/// One clean-up pass over the board.
fn clean_cells(pass: u8, src: &CellSet, stones: &CellSet) -> (r: CellSet)
    requires
        src.wf(),
        stones.wf(),
    ensures
        r.wf(),
        r@ == clean_pass(pass as int, src@, stones@),
{
    let mut r = CellSet::new();
    let mut i: usize = 0;
    while i < BOARD_SIZE
        invariant
            src.wf(),
            stones.wf(),
            r.wf(),
            i <= 19,
            forall|c: Cell| #[trigger]
                r@.contains(c) <==> (keeps(pass as int, src@, stones@, c) && c.0 < i),
        decreases 19 - i,
    {
        let mut j: usize = 0;
        while j < BOARD_SIZE
            invariant
                src.wf(),
                stones.wf(),
                r.wf(),
                i < 19,
                j <= 19,
                forall|c: Cell| #[trigger]
                    r@.contains(c) <==> (keeps(pass as int, src@, stones@, c) && (c.0 < i || (c.0
                        == i && c.1 < j))),
            decreases 19 - j,
        {
            if keeps_cell(pass, src, stones, i, j) {
                r.insert(i, j);
            }
            j = j + 1;
        }
        i = i + 1;
    }
    proof {
        assert(r@ =~= clean_pass(pass as int, src@, stones@));
    }
    r
}

/// The clean-up only removes cells.
pub proof fn lemma_cleaned_within(filled: Set<Cell>, stones: Set<Cell>)
    ensures
        cleaned(filled, stones).subset_of(filled),
{
    let a = clean_pass(0, filled, stones);
    let b = clean_pass(1, a, stones);
    let c = clean_pass(2, b, stones);
    let d = clean_pass(3, c, stones);
    assert(a.subset_of(filled));
    assert(b.subset_of(a));
    assert(c.subset_of(b));
    assert(d.subset_of(c));
    assert(clean_pass(4, d, stones).subset_of(d));
}

/// The five clean-up passes.
pub fn clean_region(filled: &CellSet, stones: &CellSet) -> (r: CellSet)
    requires
        filled.wf(),
        stones.wf(),
    ensures
        r.wf(),
        r@ == cleaned(filled@, stones@),
{
    let a = clean_cells(0, filled, stones);
    let b = clean_cells(1, &a, stones);
    let c = clean_cells(2, &b, stones);
    let d = clean_cells(3, &c, stones);
    clean_cells(4, &d, stones)
}

/// Stones stand on the intersections between the squares of the board.
pub open spec fn on_lattice(c: Cell) -> bool {
    c.0 < 18 && c.1 < 18
}

/// The cells listed in `v` that lie on the grid.
pub open spec fn cells_of(v: Seq<Cell>) -> Set<Cell> {
    v.to_set().filter(|c: Cell| in_span(c))
}

/// The stones that the eight-way search from the stone `start` reaches
/// without entering a cell of `visited`; empty where `start` is no stone or
/// was visited.
pub open spec fn cluster(stones: Set<Cell>, visited: Set<Cell>, start: Cell) -> Set<Cell> {
    if stones.contains(start) && !visited.contains(start) {
        reach_set(stones.difference(visited), start, true)
    } else {
        Set::empty()
    }
}

/// The regions of a side, found by seeds `n..361` in row-major order, and
/// the union of their filled (annihilation) sets. A cluster of three stones
/// or more gives a region; its stones are then visited.
pub open spec fn go_scan(stones: Set<Cell>, visited: Set<Cell>, n: int) -> (
    Seq<Set<Cell>>,
    Set<Cell>,
)
    decreases 361 - n,
{
    if n >= 361 || n < 0 {
        (seq![], Set::empty())
    } else {
        let k = cluster(stones, visited, board_cell(n));
        if k.len() >= 3 {
            let f = fill(k, 400);
            let rest = go_scan(stones, visited.union(k), n + 1);
            (seq![cleaned(f, stones)] + rest.0, f.union(rest.1))
        } else {
            go_scan(stones, visited, n + 1)
        }
    }
}

/// The cleaned territory regions of a side with the given stones.
pub open spec fn territory(stones: Set<Cell>) -> Seq<Set<Cell>> {
    go_scan(stones, Set::empty(), 0).0
}

/// The union of the annihilation sets of a side with the given stones.
pub open spec fn annihilation(stones: Set<Cell>) -> Set<Cell> {
    go_scan(stones, Set::empty(), 0).1
}

/// All stones stand on intersections.
pub open spec fn all_on_lattice(stones: Set<Cell>) -> bool {
    forall|c: Cell| #[trigger] stones.contains(c) ==> on_lattice(c)
}

/// The cluster from `start` with its filled and its cleaned region.
fn region_at(start: Cell, stones: &CellSet, visited: &CellSet) -> (r: (CellSet, CellSet, CellSet))
    requires
        stones.wf(),
        visited.wf(),
        all_on_lattice(stones@),
    ensures
        r.0.wf(),
        r.1.wf(),
        r.2.wf(),
        r.0@ == cluster(stones@, visited@, start),
        r.0@.len() == r.0.count(),
        r.0@.len() >= 3 ==> r.1@ == fill(r.0@, 400) && r.2@ == cleaned(r.1@, stones@),
{
    if !stones.contains(start.0, start.1) || visited.contains(start.0, start.1) {
        let e = CellSet::new();
        return (e, CellSet::new(), CellSet::new());
    }
    let open = stones.minus(visited);
    let k = explore(start, &open, true);
    proof {
        assert(open@.insert(start) =~= open@);
        k.lemma_wf();
    }
    if k.len() < 3 {
        return (k, CellSet::new(), CellSet::new());
    }
    proof {
        assert forall|c: Cell| #[trigger] k@.contains(c) implies in_span(c) by {
            let p = choose|p: Seq<Cell>| #[trigger]
                crate::reach::is_walk(p, open@, true) && p[0] == start && p[p.len() - 1] == c;
            assert(open@.contains(p[p.len() - 1]));
        }
    }
    let f = fill_cells(k.copy());
    let cl = clean_region(&f, stones);
    (k, f, cl)
}

impl GameLogic {
    /// The region seeded at `start` among `our_stones`, skipping the stones
    /// in `visited`: the cleaned region (none where fewer than three stones
    /// were reached), `visited` with the reached stones added, and the
    /// region's annihilation set.
    pub fn find_region(&self, start: Cell, our_stones: Vec<Cell>, visited: Vec<Cell>) -> (r: (
        Option<Vec<Cell>>,
        Vec<Cell>,
        Vec<Cell>,
    ))
        requires
            forall|k: int| 0 <= k < our_stones@.len() ==> on_lattice(#[trigger] our_stones@[k]),
        ensures
            ({
                let k = cluster(cells_of(our_stones@), cells_of(visited@), start);
                &&& r.1@.to_set() == visited@.to_set().union(k)
                &&& k.len() < 3 ==> r.0.is_none() && r.2@.len() == 0
                &&& k.len() >= 3 ==> r.0.is_some() && r.0.unwrap()@.to_set() == cleaned(
                    fill(k, 400),
                    cells_of(our_stones@),
                ) && r.0.unwrap()@.no_duplicates() && r.2@.to_set() == fill(k, 400)
                    && r.2@.no_duplicates() && r.0.unwrap()@.to_set().subset_of(r.2@.to_set())
                    && row_major(r.0.unwrap()@) && row_major(r.2@)
                &&& !(cells_of(our_stones@).contains(start) && !cells_of(visited@).contains(start))
                    ==> r.0.is_none() && r.1@ == visited@ && r.2@.len() == 0
            }),
    {
        let stones = CellSet::from_cells(&our_stones);
        let seen = CellSet::from_cells(&visited);
        proof {
            assert forall|c: Cell| #[trigger] stones@.contains(c) implies on_lattice(c) by {
                let w = choose|w: int| 0 <= w < our_stones@.len() && our_stones@[w] == c;
            }
        }
        if !stones.contains(start.0, start.1) || seen.contains(start.0, start.1) {
            proof {
                assert(cluster(stones@, seen@, start) =~= Set::<Cell>::empty());
                assert(visited@.to_set().union(Set::<Cell>::empty()) =~= visited@.to_set());
            }
            return (None, visited, Vec::new());
        }
        let (k, f, cl) = region_at(start, &stones, &seen);
        let mut out = visited;
        let mut kv = k.to_vec();
        let ghost kept = kv@;
        let ghost before = out@;
        out.append(&mut kv);
        proof {
            let added = out@;
            assert(added =~= before + kept);
            assert forall|c: Cell| #[trigger] added.contains(c) <==> before.contains(c) || kept.contains(c) by {
                if added.contains(c) {
                    let w = choose|w: int| 0 <= w < added.len() && added[w] == c;
                    if w >= before.len() {
                        assert(kept[w - before.len()] == c);
                    }
                }
                if before.contains(c) {
                    let w = choose|w: int| 0 <= w < before.len() && before[w] == c;
                    assert(added[w] == c);
                }
                if kept.contains(c) {
                    let w = choose|w: int| 0 <= w < kept.len() && kept[w] == c;
                    assert(added[before.len() + w] == c);
                }
            }
            assert(out@.to_set() =~= visited@.to_set().union(k@));
        }
        if k.len() < 3 {
            return (None, out, Vec::new());
        }
        proof {
            lemma_cleaned_within(f@, stones@);
        }
        (Some(cl.to_vec()), out, f.to_vec())
    }

    /// One enclosure step from `start` on `region`: unless the four-way
    /// flood from `start` over the board around the region comes next to all
    /// four board edges, the cells that it visited join the region (the
    /// edge markers excepted); otherwise the region comes back as it was.
    pub fn expand_from(&self, start: Cell, region: Vec<Cell>) -> (r: Vec<Cell>)
        requires
            board_cell_ok(start),
            forall|k: int| 0 <= k < region@.len() ==> board_cell_ok(#[trigger] region@[k]),
        ensures
            r@.to_set() == expand(region@.to_set(), start),
            touches_all_edges(flood(region@.to_set(), start)) ==> r@ == region@,
            forall|k: int| 0 <= k < r@.len() ==> board_cell_ok(#[trigger] r@[k]),
    {
        let set = CellSet::from_cells(&region);
        proof {
            assert(set@ =~= region@.to_set()) by {
                assert forall|c: Cell| #[trigger] region@.to_set().contains(c) implies in_span(c) by {
                    let w = choose|w: int| 0 <= w < region@.len() && region@[w] == c;
                }
            }
        }
        let (grown, escaped) = expand_cells(start, &set);
        if escaped {
            return region;
        }
        proof {
            assert(plain(set@)) by {
                assert forall|c: Cell| #[trigger] set@.contains(c) implies board_cell_ok(c) by {
                    let w = choose|w: int| 0 <= w < region@.len() && region@[w] == c;
                }
            }
            lemma_expand_grows(set@, start);
        }
        let out = grown.to_vec();
        proof {
            assert forall|k: int| 0 <= k < out@.len() implies board_cell_ok(#[trigger] out@[k]) by {
                assert(out@.to_set().contains(out@[k]));
            }
        }
        out
    }

    /// The enclosure fill of `region`, and whether it grew the region.
    pub fn fill_region(&self, region: Vec<Cell>) -> (r: (Vec<Cell>, bool))
        requires
            forall|k: int| 0 <= k < region@.len() ==> board_cell_ok(#[trigger] region@[k]),
        ensures
            r.0@.to_set() == fill(region@.to_set(), 400),
            r.0@.no_duplicates(),
            row_major(r.0@),
            forall|k: int| 0 <= k < r.0@.len() ==> board_cell_ok(#[trigger] r.0@[k]),
            r.1 == (fill(region@.to_set(), 400) != region@.to_set()),
            region@.to_set().subset_of(r.0@.to_set()),
            sweep(r.0@.to_set(), 361) == r.0@.to_set(),
            forall|n: int| 0 <= n < 361 ==> #[trigger] expand(r.0@.to_set(), board_cell(n)) == r.0@.to_set(),
    {
        let set = CellSet::from_cells(&region);
        proof {
            assert(set@ =~= region@.to_set()) by {
                assert forall|c: Cell| #[trigger] region@.to_set().contains(c) implies in_span(c) by {
                    let w = choose|w: int| 0 <= w < region@.len() && region@[w] == c;
                }
            }
        }
        proof {
            assert forall|c: Cell| #[trigger] set@.contains(c) implies board_cell_ok(c) by {
                let w = choose|w: int| 0 <= w < region@.len() && region@[w] == c;
            }
        }
        let filled = fill_cells(set.copy());
        proof {
            filled.lemma_wf();
            assert forall|n: int| 0 <= n < 361 implies #[trigger] expand(filled@, board_cell(n)) == filled@ by {
                lemma_sweep_stable(filled@, n);
            }
        }
        let grew = !filled.same(&set);
        let out = filled.to_vec();
        proof {
            assert forall|k: int| 0 <= k < out@.len() implies board_cell_ok(#[trigger] out@[k]) by {
                assert(out@.to_set().contains(out@[k]));
            }
        }
        (out, grew)
    }

    /// The statistics: moves made besides the two watchtower placements,
    /// each side's territory (the sum of its region sizes) and draughts.
    /// The territory is computed from the stones alone, so no watchtower
    /// position is needed.
    pub fn stats(
        &self,
        black_draughts: Vec<Cell>,
        white_draughts: Vec<Cell>,
        white_stones: Vec<Cell>,
        black_stones: Vec<Cell>,
    ) -> (r: GameStats)
        requires
            self@.len() >= 2,
            forall|k: int| 0 <= k < white_stones@.len() ==> on_lattice(#[trigger] white_stones@[k]),
            forall|k: int| 0 <= k < black_stones@.len() ==> on_lattice(#[trigger] black_stones@[k]),
        ensures
            r.n_moves == self@.len() - 2,
            r.white_territory == area(territory(cells_of(white_stones@))),
            r.black_territory == area(territory(cells_of(black_stones@))),
            r.white_draughts == white_draughts@.len(),
            r.black_draughts == black_draughts@.len(),
    {
        let n_moves = self.len() - 2;
        let white_copy = crate::moves::copy_cells(&white_stones);
        let black_copy = crate::moves::copy_cells(&black_stones);
        let (white_regions, _) = self.legal_go_moves(
            Turn::White,
            Vec::new(),
            Vec::new(),
            white_stones,
            black_stones,
            (0, 0),
            (0, 0),
        );
        let (black_regions, _) = self.legal_go_moves(
            Turn::Black,
            Vec::new(),
            Vec::new(),
            white_copy,
            black_copy,
            (0, 0),
            (0, 0),
        );
        let white_territory = region_area(&white_regions, Ghost(territory(cells_of(white_stones@))));
        let black_territory = region_area(&black_regions, Ghost(territory(cells_of(black_stones@))));
        GameStats {
            n_moves,
            white_territory,
            black_territory,
            white_draughts: white_draughts.len(),
            black_draughts: black_draughts.len(),
        }
    }

    /// The cleaned territory regions of the side to move and the union of
    /// their annihilation sets. Only that side's stones take part: the
    /// draughts and the watchtower positions do not change the result.
    pub fn legal_go_moves(
        &self,
        turn: Turn,
        black_draughts: Vec<Cell>,
        white_draughts: Vec<Cell>,
        white_stones: Vec<Cell>,
        black_stones: Vec<Cell>,
        white_tower: Cell,
        black_tower: Cell,
    ) -> (r: (Vec<Vec<Cell>>, Vec<Cell>))
        requires
            turn == Turn::White ==> forall|k: int| 0 <= k < white_stones@.len() ==> on_lattice(#[trigger] white_stones@[k]),
            turn == Turn::Black ==> forall|k: int| 0 <= k < black_stones@.len() ==> on_lattice(#[trigger] black_stones@[k]),
        ensures
            ({
                let ours = match turn {
                    Turn::Black => cells_of(black_stones@),
                    Turn::White => cells_of(white_stones@),
                };
                &&& r.0@.len() == territory(ours).len()
                &&& r.0@.len() <= 361
                &&& forall|k: int| 0 <= k < r.0@.len() ==> (#[trigger] r.0@[k])@.len() <= 400
                &&& forall|k: int| 0 <= k < r.0@.len() ==> (#[trigger] r.0@[k])@.to_set() == territory(ours)[k]
                    && r.0@[k]@.no_duplicates() && row_major(r.0@[k]@)
                &&& r.1@.to_set() == annihilation(ours)
                &&& r.1@.no_duplicates()
                &&& row_major(r.1@)
            }),
    {
        let our = match turn {
            Turn::Black => black_stones,
            Turn::White => white_stones,
        };
        let stones = CellSet::from_cells(&our);
        proof {
            assert forall|c: Cell| #[trigger] stones@.contains(c) implies on_lattice(c) by {
                let w = choose|w: int| 0 <= w < our@.len() && our@[w] == c;
            }
        }
        let (regions, union) = territory_cells(&stones);
        (regions, union.to_vec())
    }
}

/// The number of cells in all of `regions`, counted region by region.
pub open spec fn area(regions: Seq<Set<Cell>>) -> int
    decreases regions.len(),
{
    if regions.len() == 0 {
        0
    } else {
        area(regions.drop_last()) + regions.last().len()
    }
}

fn region_area(regions: &Vec<Vec<Cell>>, sets: Ghost<Seq<Set<Cell>>>) -> (r: usize)
    requires
        regions@.len() == sets@.len(),
        regions@.len() <= 361,
        forall|k: int| 0 <= k < regions@.len() ==> (#[trigger] regions@[k])@.to_set() == sets@[k]
            && regions@[k]@.no_duplicates() && regions@[k]@.len() <= 400,
    ensures
        r == area(sets@),
{
    let mut total: usize = 0;
    let mut k: usize = 0;
    while k < regions.len()
        invariant
            k <= regions@.len(),
            regions@.len() == sets@.len(),
            regions@.len() <= 361,
            forall|m: int| 0 <= m < regions@.len() ==> (#[trigger] regions@[m])@.to_set() == sets@[m]
                && regions@[m]@.no_duplicates() && regions@[m]@.len() <= 400,
            total == area(sets@.take(k as int)),
            total <= 400 * k,
        decreases regions.len() - k,
    {
        proof {
            regions@[k as int]@.unique_seq_to_set();
            assert(sets@.take(k as int + 1).drop_last() =~= sets@.take(k as int));
        }
        total = total + regions[k].len();
        k = k + 1;
    }
    proof {
        assert(sets@.take(k as int) =~= sets@);
    }
    total
}

/// The cells of every region lie on the grid.
pub proof fn lemma_region_cells_in_span(stones: Set<Cell>, k: int)
    requires
        0 <= k < territory(stones).len(),
    ensures
        forall|c: Cell| #[trigger] territory(stones)[k].contains(c) ==> in_span(c),
{
    lemma_scan_in_span(stones, Set::empty(), 0, k);
}

proof fn lemma_scan_in_span(stones: Set<Cell>, visited: Set<Cell>, n: int, k: int)
    requires
        0 <= n,
        0 <= k < go_scan(stones, visited, n).0.len(),
    ensures
        forall|c: Cell| #[trigger] go_scan(stones, visited, n).0[k].contains(c) ==> in_span(c),
    decreases 361 - n,
{
    if n < 361 {
        let kk = cluster(stones, visited, board_cell(n));
        if kk.len() >= 3 {
            if k > 0 {
                lemma_scan_in_span(stones, visited.union(kk), n + 1, k - 1);
                let rest = go_scan(stones, visited.union(kk), n + 1);
                assert(go_scan(stones, visited, n).0[k] == rest.0[k - 1]);
            }
        } else {
            lemma_scan_in_span(stones, visited, n + 1, k);
        }
    }
}

/// The cleaned regions and the union of the annihilation sets of the side
/// with the given stones.
pub fn territory_cells(stones: &CellSet) -> (r: (Vec<Vec<Cell>>, CellSet))
    requires
        stones.wf(),
        all_on_lattice(stones@),
    ensures
        r.1.wf(),
        r.0@.len() == territory(stones@).len(),
        r.0@.len() <= 361,
        forall|k: int| 0 <= k < r.0@.len() ==> (#[trigger] r.0@[k])@.len() <= 400,
        forall|k: int| 0 <= k < r.0@.len() ==> (#[trigger] r.0@[k])@.to_set() == territory(stones@)[k]
            && r.0@[k]@.no_duplicates() && row_major(r.0@[k]@),
        r.1@ == annihilation(stones@),
{
    let mut regions: Vec<Vec<Cell>> = Vec::new();
    let ghost mut found: Seq<Set<Cell>> = seq![];
    let mut union = CellSet::new();
    let mut visited = CellSet::new();
    let mut n: usize = 0;
    proof {
        assert(found + go_scan(stones@, visited@, 0).0 =~= territory(stones@));
        assert(union@.union(go_scan(stones@, visited@, 0).1) =~= annihilation(stones@));
    }
    while n < 361
        invariant
            stones.wf(),
            all_on_lattice(stones@),
            union.wf(),
            visited.wf(),
            n <= 361,
            regions@.len() == found.len(),
            regions@.len() <= n,
            forall|k: int| 0 <= k < regions@.len() ==> (#[trigger] regions@[k])@.len() <= 400,
            forall|k: int| 0 <= k < regions@.len() ==> (#[trigger] regions@[k])@.to_set() == found[k]
                && regions@[k]@.no_duplicates() && row_major(regions@[k]@),
            found + go_scan(stones@, visited@, n as int).0 == territory(stones@),
            union@.union(go_scan(stones@, visited@, n as int).1) == annihilation(stones@),
        decreases 361 - n,
    {
        let start: Cell = (n / 19, n % 19);
        let (k, f, cl) = region_at(start, stones, &visited);
        proof {
            cl.lemma_wf();
        }
        if k.len() >= 3 {
            let ghost rest = go_scan(stones@, visited@.union(k@), n as int + 1);
            let ghost here = go_scan(stones@, visited@, n as int);
            proof {
                assert(here.0 == seq![cleaned(f@, stones@)] + rest.0);
                assert(here.1 == f@.union(rest.1));
            }
            regions.push(cl.to_vec());
            proof {
                assert((found + here.0) =~= (found.push(cleaned(f@, stones@)) + rest.0));
                found = found.push(cleaned(f@, stones@));
                assert(union@.union(here.1) =~= union@.union(f@).union(rest.1));
            }
            union.add_all(&f);
            visited.add_all(&k);
        }
        n = n + 1;
    }
    proof {
        assert(found =~= territory(stones@));
        assert(union@ =~= annihilation(stones@));
    }
    (regions, union)
}

} // verus!
