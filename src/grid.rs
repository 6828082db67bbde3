//! A set of cells kept as a bit grid, with a set view.
//!
//! The grid is 20 cells wide, so that any board cell and its neighbours one
//! step past the last row or column can be asked about.

use vstd::prelude::*;

verus! {

/// A board coordinate pair `(i, j)`.
pub type Cell = (usize, usize);

/// Side length of the grid of a `CellSet`.
pub const SPAN: usize = 20;

/// The cell lies inside the grid of a `CellSet`.
pub open spec fn in_span(c: Cell) -> bool {
    c.0 < 20 && c.1 < 20
}

/// Index of a cell in the row-major bit vector.
pub open spec fn slot(c: Cell) -> int {
    c.0 as int * 20 + c.1 as int
}

/// The cells of `s` stand in strictly increasing row-major order.
pub open spec fn row_major(s: Seq<Cell>) -> bool {
    forall|a: int, b: int| 0 <= a < b < s.len() ==> slot(#[trigger] s[a]) < slot(#[trigger] s[b])
}

/// Two lists of grid cells in row-major order that hold the same cells are
/// the same list.
pub proof fn lemma_row_major_unique(s: Seq<Cell>, t: Seq<Cell>)
    requires
        row_major(s),
        row_major(t),
        s.to_set() == t.to_set(),
        forall|k: int| 0 <= k < s.len() ==> in_span(#[trigger] s[k]),
        forall|k: int| 0 <= k < t.len() ==> in_span(#[trigger] t[k]),
    ensures
        s == t,
    decreases s.len(),
{
    assert(s.no_duplicates());
    assert(t.no_duplicates());
    s.unique_seq_to_set();
    t.unique_seq_to_set();
    if s.len() > 0 {
        assert(s.to_set().contains(s[0]));
        assert(t.contains(s[0]));
        let j = choose|j: int| 0 <= j < t.len() && t[j] == s[0];
        assert(t.to_set().contains(t[0]));
        assert(s.contains(t[0]));
        let i = choose|i: int| 0 <= i < s.len() && s[i] == t[0];
        if i > 0 {
            assert(slot(s[0]) < slot(s[i]));
        }
        if j > 0 {
            assert(slot(t[0]) < slot(t[j]));
        }
        assert(s[0] == t[0]);
        let s1 = s.skip(1);
        let t1 = t.skip(1);
        assert forall|c: Cell| s1.to_set().contains(c) <==> t1.to_set().contains(c) by {
            if s1.contains(c) {
                let w = choose|w: int| 0 <= w < s1.len() && s1[w] == c;
                assert(s[w + 1] == c);
                assert(s.contains(c));
                assert(t.to_set().contains(c));
                let v = choose|v: int| 0 <= v < t.len() && t[v] == c;
                assert(v != 0);
                assert(t1[v - 1] == c);
            }
            if t1.contains(c) {
                let w = choose|w: int| 0 <= w < t1.len() && t1[w] == c;
                assert(t[w + 1] == c);
                assert(t.contains(c));
                assert(s.to_set().contains(c));
                let v = choose|v: int| 0 <= v < s.len() && s[v] == c;
                assert(v != 0);
                assert(s1[v - 1] == c);
            }
        }
        assert(s1.to_set() =~= t1.to_set());
        assert forall|a: int, b: int| 0 <= a < b < s1.len() implies slot(#[trigger] s1[a]) < slot(#[trigger] s1[b]) by {
            assert(s1[a] == s[a + 1] && s1[b] == s[b + 1]);
        }
        assert forall|a: int, b: int| 0 <= a < b < t1.len() implies slot(#[trigger] t1[a]) < slot(#[trigger] t1[b]) by {
            assert(t1[a] == t[a + 1] && t1[b] == t[b + 1]);
        }
        assert forall|k: int| 0 <= k < s1.len() implies in_span(#[trigger] s1[k]) by {
            assert(s1[k] == s[k + 1]);
        }
        assert forall|k: int| 0 <= k < t1.len() implies in_span(#[trigger] t1[k]) by {
            assert(t1[k] == t[k + 1]);
        }
        lemma_row_major_unique(s1, t1);
        assert(s =~= seq![s[0]] + s1);
        assert(t =~= seq![t[0]] + t1);
    } else {
        assert(t.len() == 0);
        assert(s =~= t);
    }
}

/// Number of `true` entries among the first `n` of `bits`.
pub open spec fn count_true(bits: Seq<bool>, n: int) -> int
    decreases n,
{
    if n <= 0 {
        0
    } else {
        count_true(bits, n - 1) + if bits[n - 1] {
            1int
        } else {
            0int
        }
    }
}

proof fn lemma_count_bounds(bits: Seq<bool>, n: int)
    requires
        0 <= n <= bits.len(),
    ensures
        0 <= count_true(bits, n) <= n,
    decreases n,
{
    if n > 0 {
        lemma_count_bounds(bits, n - 1);
    }
}

proof fn lemma_count_set(bits: Seq<bool>, k: int, n: int)
    requires
        0 <= k < bits.len(),
        0 <= n <= bits.len(),
        !bits[k],
    ensures
        count_true(bits.update(k, true), n) == count_true(bits, n) + if k < n {
            1int
        } else {
            0int
        },
    decreases n,
{
    if n > 0 {
        lemma_count_set(bits, k, n - 1);
    }
}

proof fn lemma_count_all_false(bits: Seq<bool>, n: int)
    requires
        0 <= n <= bits.len(),
        forall|k: int| 0 <= k < bits.len() ==> !bits[k],
    ensures
        count_true(bits, n) == 0,
    decreases n,
{
    if n > 0 {
        lemma_count_all_false(bits, n - 1);
    }
}

/// A set of cells of the `SPAN` x `SPAN` grid.
pub struct CellSet {
    bits: Vec<bool>,
    size: usize,
}

impl View for CellSet {
    type V = Set<Cell>;

    closed spec fn view(&self) -> Set<Cell> {
        Set::new(|c: Cell| in_span(c) && self.bits@[slot(c)])
    }
}

impl CellSet {
    /// The representation is consistent: one bit per grid cell, and `size`
    /// counts the cells that are set.
    pub closed spec fn wf(&self) -> bool {
        &&& self.bits@.len() == 400
        &&& self.size as int == count_true(self.bits@, 400)
        &&& self@.finite()
        &&& self@.len() == self.size
    }

    /// How many cells the set holds.
    pub closed spec fn count(&self) -> nat {
        self.size as nat
    }

    /// A consistent set lies on the grid and holds at most 400 cells.
    pub proof fn lemma_wf(&self)
        requires
            self.wf(),
        ensures
            forall|c: Cell| #[trigger] self@.contains(c) ==> in_span(c),
            self.count() <= 400,
            self@.finite(),
            self@.len() == self.count(),
    {
        lemma_count_bounds(self.bits@, 400);
    }

    /// How many cells the set holds.
    pub fn len(&self) -> (r: usize)
        ensures
            r as nat == self.count(),
    {
        self.size
    }

    /// The empty set.
    pub fn new() -> (r: CellSet)
        ensures
            r.wf(),
            r@ == Set::<Cell>::empty(),
            r.count() == 0,
    {
        let mut bits: Vec<bool> = Vec::new();
        let mut k: usize = 0;
        while k < 400
            invariant
                k <= 400,
                bits@.len() == k,
                forall|m: int| 0 <= m < k ==> !bits@[m],
            decreases 400 - k,
        {
            bits.push(false);
            k = k + 1;
        }
        proof {
            lemma_count_all_false(bits@, 400);
        }
        let r = CellSet { bits, size: 0 };
        assert(r@ =~= Set::<Cell>::empty());
        r
    }

    /// Whether `(i, j)` is in the set; cells off the grid never are.
    pub fn contains(&self, i: usize, j: usize) -> (r: bool)
        requires
            self.wf(),
        ensures
            r == self@.contains((i, j)),
    {
        if i < SPAN && j < SPAN {
            self.bits[i * SPAN + j]
        } else {
            false
        }
    }

    /// Adds `(i, j)`; reports whether it was new.
    pub fn insert(&mut self, i: usize, j: usize) -> (added: bool)
        requires
            old(self).wf(),
            i < 20,
            j < 20,
        ensures
            final(self).wf(),
            final(self)@ == old(self)@.insert((i, j)),
            added == !old(self)@.contains((i, j)),
            final(self).count() == old(self).count() + if added {
                1nat
            } else {
                0nat
            },
    {
        let k = i * SPAN + j;
        if self.bits[k] {
            return false;
        }
        proof {
            lemma_count_set(self.bits@, k as int, 400);
            lemma_count_bounds(self.bits@, 400);
        }
        self.bits.set(k, true);
        self.size = self.size + 1;
        proof {
            assert forall|c: Cell| #[trigger] in_span(c) && c != (i, j) implies slot(c) != k as int by {}
            assert(self@ =~= old(self)@.insert((i, j)));
        }
        true
    }

    /// A copy of the set.
    pub fn copy(&self) -> (r: CellSet)
        requires
            self.wf(),
        ensures
            r.wf(),
            r@ == self@,
            r.count() == self.count(),
    {
        CellSet { bits: self.bits.clone(), size: self.size }
    }

    /// The set of the cells listed in `v` that lie on the grid.
    pub fn from_cells(v: &Vec<Cell>) -> (r: CellSet)
        ensures
            r.wf(),
            r@ == v@.to_set().filter(|c: Cell| in_span(c)),
    {
        let mut r = CellSet::new();
        let mut k: usize = 0;
        while k < v.len()
            invariant
                k <= v.len(),
                r.wf(),
                r@ == v@.take(k as int).to_set().filter(|c: Cell| in_span(c)),
            decreases v.len() - k,
        {
            let c = v[k];
            let ghost before = r@;
            if c.0 < SPAN && c.1 < SPAN {
                r.insert(c.0, c.1);
            }
            proof {
                let prev = v@.take(k as int);
                let next = v@.take(k as int + 1);
                assert(next =~= prev.push(c));
                assert forall|d: Cell| next.contains(d) <==> prev.contains(d) || d == c by {
                    if prev.contains(d) {
                        let w = choose|m: int| 0 <= m < prev.len() && prev[m] == d;
                        assert(next[w] == d);
                    }
                    if d == c {
                        assert(next[k as int] == d);
                    }
                    if next.contains(d) {
                        let w = choose|m: int| 0 <= m < next.len() && next[m] == d;
                        if w < k {
                            assert(prev[w] == d);
                        }
                    }
                }
                assert(r@ =~= next.to_set().filter(|c: Cell| in_span(c)));
            }
            k = k + 1;
        }
        proof {
            assert(v@.take(v@.len() as int) =~= v@);
        }
        r
    }

    /// Whether the two sets hold the same cells.
    pub fn same(&self, other: &CellSet) -> (r: bool)
        requires
            self.wf(),
            other.wf(),
        ensures
            r == (self@ == other@),
    {
        let mut k: usize = 0;
        while k < 400
            invariant
                self.wf(),
                other.wf(),
                k <= 400,
                forall|m: int| 0 <= m < k ==> self.bits@[m] == other.bits@[m],
            decreases 400 - k,
        {
            if self.bits[k] != other.bits[k] {
                proof {
                    let c: Cell = ((k / 20) as usize, (k % 20) as usize);
                    assert(slot(c) == k as int);
                    assert(self@.contains(c) != other@.contains(c));
                }
                return false;
            }
            k = k + 1;
        }
        proof {
            assert(self@ =~= other@);
        }
        true
    }

    /// The cells of `self` that are not in `other`.
    pub fn minus(&self, other: &CellSet) -> (r: CellSet)
        requires
            self.wf(),
            other.wf(),
        ensures
            r.wf(),
            r@ == self@.difference(other@),
    {
        let mut r = CellSet::new();
        let mut i: usize = 0;
        proof {
            self.lemma_wf();
        }
        while i < SPAN
            invariant
                self.wf(),
                other.wf(),
                r.wf(),
                i <= 20,
                forall|c: Cell| #[trigger] self@.contains(c) ==> in_span(c),
                forall|c: Cell| #[trigger]
                    r@.contains(c) <==> (self@.contains(c) && !other@.contains(c) && c.0 < i),
            decreases 20 - i,
        {
            let mut j: usize = 0;
            while j < SPAN
                invariant
                    self.wf(),
                    other.wf(),
                    r.wf(),
                    i < 20,
                    j <= 20,
                    forall|c: Cell| #[trigger] self@.contains(c) ==> in_span(c),
                    forall|c: Cell| #[trigger]
                        r@.contains(c) <==> (self@.contains(c) && !other@.contains(c) && (c.0 < i
                            || (c.0 == i && c.1 < j))),
                decreases 20 - j,
            {
                if self.contains(i, j) && !other.contains(i, j) {
                    r.insert(i, j);
                }
                j = j + 1;
            }
            i = i + 1;
        }
        proof {
            assert(r@ =~= self@.difference(other@));
        }
        r
    }

    /// Adds every cell of `other`.
    pub fn add_all(&mut self, other: &CellSet)
        requires
            old(self).wf(),
            other.wf(),
        ensures
            final(self).wf(),
            final(self)@ == old(self)@.union(other@),
    {
        let ghost start = self@;
        let mut i: usize = 0;
        proof {
            other.lemma_wf();
        }
        while i < SPAN
            invariant
                self.wf(),
                other.wf(),
                i <= 20,
                forall|c: Cell| #[trigger] other@.contains(c) ==> in_span(c),
                forall|c: Cell| #[trigger]
                    self@.contains(c) <==> (start.contains(c) || (other@.contains(c) && c.0 < i)),
            decreases 20 - i,
        {
            let mut j: usize = 0;
            while j < SPAN
                invariant
                    self.wf(),
                    other.wf(),
                    i < 20,
                    j <= 20,
                    forall|c: Cell| #[trigger] other@.contains(c) ==> in_span(c),
                    forall|c: Cell| #[trigger]
                        self@.contains(c) <==> (start.contains(c) || (other@.contains(c) && (c.0 < i
                            || (c.0 == i && c.1 < j)))),
                decreases 20 - j,
            {
                if other.contains(i, j) {
                    self.insert(i, j);
                }
                j = j + 1;
            }
            i = i + 1;
        }
        proof {
            assert(self@ =~= start.union(other@));
        }
    }

    /// Whether some cell of the set has its first coordinate in `lo..=hi`.
    pub fn any_in_rows(&self, lo: usize, hi: usize) -> (r: bool)
        requires
            self.wf(),
        ensures
            r == exists|c: Cell| #[trigger] self@.contains(c) && lo <= c.0 <= hi,
    {
        let mut i: usize = 0;
        while i < SPAN
            invariant
                self.wf(),
                i <= 20,
                forall|c: Cell| #[trigger] self@.contains(c) && c.0 < i ==> !(lo <= c.0 <= hi),
            decreases 20 - i,
        {
            let mut j: usize = 0;
            while j < SPAN
                invariant
                    self.wf(),
                    i < 20,
                    j <= 20,
                    forall|c: Cell| #[trigger] self@.contains(c) && (c.0 < i || (c.0 == i && c.1 < j))
                        ==> !(lo <= c.0 <= hi),
                decreases 20 - j,
            {
                if lo <= i && i <= hi && self.contains(i, j) {
                    return true;
                }
                j = j + 1;
            }
            i = i + 1;
        }
        proof {
            self.lemma_wf();
        }
        false
    }

    /// Whether some cell of the set has its second coordinate in `lo..=hi`.
    pub fn any_in_cols(&self, lo: usize, hi: usize) -> (r: bool)
        requires
            self.wf(),
        ensures
            r == exists|c: Cell| #[trigger] self@.contains(c) && lo <= c.1 <= hi,
    {
        let mut i: usize = 0;
        while i < SPAN
            invariant
                self.wf(),
                i <= 20,
                forall|c: Cell| #[trigger] self@.contains(c) && c.0 < i ==> !(lo <= c.1 <= hi),
            decreases 20 - i,
        {
            let mut j: usize = 0;
            while j < SPAN
                invariant
                    self.wf(),
                    i < 20,
                    j <= 20,
                    forall|c: Cell| #[trigger] self@.contains(c) && (c.0 < i || (c.0 == i && c.1 < j))
                        ==> !(lo <= c.1 <= hi),
                decreases 20 - j,
            {
                if lo <= j && j <= hi && self.contains(i, j) {
                    return true;
                }
                j = j + 1;
            }
            i = i + 1;
        }
        proof {
            self.lemma_wf();
        }
        false
    }

    /// The cells of the set in row-major order.
    pub fn to_vec(&self) -> (r: Vec<Cell>)
        requires
            self.wf(),
        ensures
            r@.to_set() == self@,
            r@.no_duplicates(),
            r@.len() == self.count(),
            row_major(r@),
            forall|k: int| 0 <= k < r@.len() ==> in_span(#[trigger] r@[k]),
    {
        let mut r: Vec<Cell> = Vec::new();
        let mut i: usize = 0;
        while i < SPAN
            invariant
                self.wf(),
                i <= 20,
                r@.no_duplicates(),
                row_major(r@),
                forall|k: int| 0 <= k < r@.len() ==> in_span(#[trigger] r@[k]) && slot(r@[k]) < i * 20,
                forall|c: Cell| #[trigger] r@.contains(c) <==> (self@.contains(c) && c.0 < i),
            decreases 20 - i,
        {
            let mut j: usize = 0;
            while j < SPAN
                invariant
                    self.wf(),
                    i < 20,
                    j <= 20,
                    r@.no_duplicates(),
                    row_major(r@),
                    forall|k: int| 0 <= k < r@.len() ==> in_span(#[trigger] r@[k]) && slot(r@[k]) < i * 20 + j,
                    forall|c: Cell| #[trigger]
                        r@.contains(c) <==> (self@.contains(c) && (c.0 < i || (c.0 == i
                            && c.1 < j))),
                decreases 20 - j,
            {
                let ghost before = r@;
                if self.contains(i, j) {
                    r.push((i, j));
                    proof {
                        assert forall|c: Cell| #[trigger] r@.contains(c) <==> before.contains(c) || c == (i, j) by {
                            if before.contains(c) {
                                let w = choose|m: int| 0 <= m < before.len() && before[m] == c;
                                assert(r@[w] == c);
                            }
                            if c == (i, j) {
                                assert(r@[before.len() as int] == c);
                            }
                            if r@.contains(c) {
                                let w = choose|m: int| 0 <= m < r@.len() && r@[m] == c;
                                if w < before.len() {
                                    assert(before[w] == c);
                                }
                            }
                        }
                        assert(!before.contains((i, j)));
                        assert forall|a: int, b: int| 0 <= a < b < r@.len() implies r@[a] != r@[b] by {
                            if b == before.len() {
                                assert(before.contains(r@[a]));
                            }
                        }
                    }
                }
                j = j + 1;
            }
            i = i + 1;
        }
        proof {
            self.lemma_wf();
            assert(r@.to_set() =~= self@);
            r@.unique_seq_to_set();
        }
        r
    }
}

} // verus!
