use vstd::prelude::*;

verus! {

/// A grid position `(x, y)`.
pub type Cell = (i32, i32);

/// `1` for `true`, `0` for `false`.
pub open spec fn bit(b: bool) -> int {
    if b {
        1
    } else {
        0
    }
}

/// The integer position `(x, y)` is a cell of `col`.
pub open spec fn live_at(col: Set<Cell>, x: int, y: int) -> bool {
    i32::MIN <= x <= i32::MAX && i32::MIN <= y <= i32::MAX && col.contains((x as i32, y as i32))
}

/// How many of the eight positions around `c` hold a live cell of `col`.
pub open spec fn live_neighbours(col: Set<Cell>, c: Cell) -> int {
    let x = c.0 as int;
    let y = c.1 as int;
    bit(live_at(col, x - 1, y - 1)) + bit(live_at(col, x, y - 1)) + bit(live_at(col, x + 1, y - 1))
        + bit(live_at(col, x - 1, y)) + bit(live_at(col, x + 1, y))
        + bit(live_at(col, x - 1, y + 1)) + bit(live_at(col, x, y + 1))
        + bit(live_at(col, x + 1, y + 1))
}

/// Rule B3/S23: a cell lives in the next generation when exactly three of its
/// neighbours are live, or when it is live and exactly two of them are.
pub open spec fn alive_next(col: Set<Cell>, c: Cell) -> bool {
    live_neighbours(col, c) == 3 || (live_neighbours(col, c) == 2 && col.contains(c))
}

/// The next generation of `col`.
pub open spec fn next_generation(col: Set<Cell>) -> Set<Cell> {
    Set::new(|c: Cell| alive_next(col, c))
}

/// Every live cell of `col` has all eight neighbours inside the `i32` grid.
pub open spec fn interior(col: Set<Cell>) -> bool {
    forall|c: Cell| #[trigger] col.contains(c) ==> i32::MIN < c.0 < i32::MAX && i32::MIN < c.1 < i32::MAX
}

/// `a` and `b` are distinct and touch by a side or a corner.
pub open spec fn adjacent(a: Cell, b: Cell) -> bool {
    a != b && -1 <= a.0 - b.0 <= 1 && -1 <= a.1 - b.1 <= 1
}

/// How many cells listed in `s` are adjacent to `c`.
pub open spec fn tally(s: Seq<Cell>, c: Cell) -> int
    decreases s.len(),
{
    if s.len() == 0 {
        0
    } else {
        tally(s.drop_last(), c) + bit(adjacent(s.last(), c))
    }
}

proof fn lemma_tally_bound(s: Seq<Cell>, c: Cell)
    ensures
        0 <= tally(s, c) <= s.len(),
    decreases s.len(),
{
    if s.len() > 0 {
        lemma_tally_bound(s.drop_last(), c);
    }
}

/// Counting the cells adjacent to `c` one listed cell at a time gives the
/// number of live neighbours of `c`, whatever order the cells are listed in.
pub proof fn lemma_tally_is_live_neighbours(s: Seq<Cell>, c: Cell)
    requires
        s.no_duplicates(),
    ensures
        tally(s, c) == live_neighbours(s.to_set(), c),
    decreases s.len(),
{
    if s.len() == 0 {
        assert(s.to_set() =~= Set::empty());
    } else {
        let p = s.drop_last();
        let x = s.last();
        assert(p.no_duplicates());
        lemma_tally_is_live_neighbours(p, c);
        assert(s =~= p.push(x));
        p.lemma_push_to_set_commute(x);
        assert(!p.to_set().contains(x)) by {
            if p.contains(x) {
                let j = choose|j: int| 0 <= j < p.len() && p[j] == x;
                assert(s[j] == s[s.len() - 1]);
            }
        }
    }
}

fn copy_cells(v: &Vec<Cell>) -> (r: Vec<Cell>)
    ensures
        r@ == v@,
{
    let mut r: Vec<Cell> = Vec::new();
    let mut i: usize = 0;
    while i < v.len()
        invariant
            i <= v@.len(),
            r@ == v@.subrange(0, i as int),
        decreases v@.len() - i,
    {
        r.push(v[i]);
        assert(r@ =~= v@.subrange(0, i + 1));
        i = i + 1;
    }
    assert(v@.subrange(0, v@.len() as int) =~= v@);
    r
}

/// The cells now live, each listed once.
pub struct Colony {
    cells: Vec<Cell>,
}

impl View for Colony {
    type V = Set<Cell>;

    closed spec fn view(&self) -> Set<Cell> {
        self.cells@.to_set()
    }
}

impl Colony {
    #[verifier::type_invariant]
    spec fn inv(&self) -> bool {
        self.cells@.no_duplicates()
    }

    /// The colony with no live cell.
    pub fn new() -> (r: Colony)
        ensures
            r@ == Set::<Cell>::empty(),
    {
        let r = Colony { cells: Vec::new() };
        assert(r@ =~= Set::<Cell>::empty());
        r
    }

    /// Whether `c` is live.
    pub fn contains(&self, c: Cell) -> (r: bool)
        ensures
            r == self@.contains(c),
    {
        let mut i: usize = 0;
        while i < self.cells.len()
            invariant
                i <= self.cells@.len(),
                forall|j: int| 0 <= j < i ==> self.cells@[j] != c,
            decreases self.cells@.len() - i,
        {
            let d = self.cells[i];
            if d.0 == c.0 && d.1 == c.1 {
                assert(self.cells@[i as int] == c);
                return true;
            }
            i = i + 1;
        }
        false
    }

    /// Makes `c` live.
    pub fn insert(&mut self, c: Cell)
        ensures
            final(self)@ == old(self)@.insert(c),
    {
        if !self.contains(c) {
            proof {
                use_type_invariant(&*self);
            }
            let ghost before = self.cells@;
            let mut cells = copy_cells(&self.cells);
            cells.push(c);
            self.cells = cells;
            assert(self.cells@ =~= before.push(c));
            proof {
                before.lemma_push_to_set_commute(c);
            }
        } else {
            assert(self@.insert(c) =~= self@);
        }
    }

    /// A colony whose live cells are those listed in `v` (repeats count once).
    pub fn from_cells(v: Vec<Cell>) -> (r: Colony)
        ensures
            r@ == v@.to_set(),
    {
        let mut r = Colony::new();
        let mut i: usize = 0;
        while i < v.len()
            invariant
                i <= v@.len(),
                r@ == v@.subrange(0, i as int).to_set(),
            decreases v@.len() - i,
        {
            r.insert(v[i]);
            assert(v@.subrange(0, i + 1) =~= v@.subrange(0, i as int).push(v@[i as int]));
            proof {
                v@.subrange(0, i as int).lemma_push_to_set_commute(v@[i as int]);
            }
            i = i + 1;
        }
        assert(v@.subrange(0, v@.len() as int) =~= v@);
        r
    }

    /// The live cells, each once, in no particular order.
    pub fn to_vec(&self) -> (r: Vec<Cell>)
        ensures
            r@.to_set() == self@,
            r@.no_duplicates(),
    {
        proof {
            use_type_invariant(self);
        }
        copy_cells(&self.cells)
    }

    /// A colony with the same live cells.
    pub fn duplicate(&self) -> (r: Colony)
        ensures
            r@ == self@,
    {
        proof {
            use_type_invariant(self);
        }
        Colony { cells: copy_cells(&self.cells) }
    }

    /// The number of live cells.
    pub fn len(&self) -> (r: usize)
        ensures
            r == self@.len(),
    {
        proof {
            use_type_invariant(self);
            self.cells@.unique_seq_to_set();
        }
        self.cells.len()
    }

    /// Whether every live cell has all its neighbours inside the `i32` grid,
    /// which [`generation`] needs.
    pub fn fits_grid(&self) -> (r: bool)
        ensures
            r == interior(self@),
    {
        let mut i: usize = 0;
        while i < self.cells.len()
            invariant
                i <= self.cells@.len(),
                forall|j: int|
                    0 <= j < i ==> i32::MIN < (#[trigger] self.cells@[j]).0 < i32::MAX && i32::MIN
                        < self.cells@[j].1 < i32::MAX,
            decreases self.cells@.len() - i,
        {
            let d = self.cells[i];
            if d.0 == i32::MIN || d.0 == i32::MAX || d.1 == i32::MIN || d.1 == i32::MAX {
                assert(self@.contains(d));
                return false;
            }
            i = i + 1;
        }
        true
    }
}

/// The eight positions around `c`, row by row.
pub open spec fn ring(c: Cell) -> Seq<Cell> {
    let x = c.0 as int;
    let y = c.1 as int;
    seq![
        ((x - 1) as i32, (y - 1) as i32),
        (x as i32, (y - 1) as i32),
        ((x + 1) as i32, (y - 1) as i32),
        ((x - 1) as i32, y as i32),
        ((x + 1) as i32, y as i32),
        ((x - 1) as i32, (y + 1) as i32),
        (x as i32, (y + 1) as i32),
        ((x + 1) as i32, (y + 1) as i32),
    ]
}

proof fn lemma_ring(c: Cell)
    requires
        i32::MIN < c.0 < i32::MAX,
        i32::MIN < c.1 < i32::MAX,
    ensures
        ring(c).len() == 8,
        ring(c).no_duplicates(),
        forall|d: Cell| ring(c).contains(d) <==> adjacent(d, c),
{
    let r = ring(c);
    assert forall|d: Cell| r.contains(d) <==> adjacent(d, c) by {
        if adjacent(d, c) {
            let k: int = if d.1 < c.1 {
                if d.0 < c.0 { 0 } else if d.0 == c.0 { 1 } else { 2 }
            } else if d.1 == c.1 {
                if d.0 < c.0 { 3 } else { 4 }
            } else {
                if d.0 < c.0 { 5 } else if d.0 == c.0 { 6 } else { 7 }
            };
            assert(r[k] == d);
        }
    }
}

/// The eight positions around `c`.
fn neighbours(c: &Cell) -> (r: Vec<Cell>)
    requires
        i32::MIN < c.0 < i32::MAX,
        i32::MIN < c.1 < i32::MAX,
    ensures
        r@ == ring(*c),
{
    let (x, y) = *c;
    let r = vec![
        (x - 1, y - 1),
        (x, y - 1),
        (x + 1, y - 1),
        (x - 1, y),
        (x + 1, y),
        (x - 1, y + 1),
        (x, y + 1),
        (x + 1, y + 1),
    ];
    assert(r@ =~= ring(*c));
    r
}

/// The count that a list of `(cell, count)` entries holds for `c`; a cell
/// without an entry counts zero.
spec fn count_in(s: Seq<(Cell, usize)>, c: Cell) -> int
    decreases s.len(),
{
    if s.len() == 0 {
        0
    } else {
        count_in(s.drop_last(), c) + if s.last().0 == c {
            s.last().1 as int
        } else {
            0
        }
    }
}

/// Each cell has at most one entry, and no entry holds zero.
spec fn counts_wf(s: Seq<(Cell, usize)>) -> bool {
    &&& forall|i: int, j: int| 0 <= i < j < s.len() ==> s[i].0 != s[j].0
    &&& forall|i: int| 0 <= i < s.len() ==> s[i].1 > 0
}

proof fn lemma_count_absent(s: Seq<(Cell, usize)>, c: Cell)
    requires
        forall|j: int| 0 <= j < s.len() ==> s[j].0 != c,
    ensures
        count_in(s, c) == 0,
    decreases s.len(),
{
    if s.len() > 0 {
        lemma_count_absent(s.drop_last(), c);
    }
}

proof fn lemma_count_at(s: Seq<(Cell, usize)>, i: int)
    requires
        counts_wf(s),
        0 <= i < s.len(),
    ensures
        count_in(s, s[i].0) == s[i].1,
    decreases s.len(),
{
    let p = s.drop_last();
    if i == s.len() - 1 {
        lemma_count_absent(p, s[i].0);
    } else {
        lemma_count_at(p, i);
    }
}

proof fn lemma_count_found(s: Seq<(Cell, usize)>, c: Cell)
    requires
        count_in(s, c) != 0,
    ensures
        exists|j: int| 0 <= j < s.len() && s[j].0 == c,
{
    if forall|j: int| 0 <= j < s.len() ==> s[j].0 != c {
        lemma_count_absent(s, c);
    }
}

proof fn lemma_count_update(s: Seq<(Cell, usize)>, i: int, v: usize, d: Cell)
    requires
        0 <= i < s.len(),
    ensures
        count_in(s.update(i, (s[i].0, v)), d) == count_in(s, d) + if s[i].0 == d {
            v - s[i].1
        } else {
            0
        },
    decreases s.len(),
{
    let t = s.update(i, (s[i].0, v));
    if i == s.len() - 1 {
        assert(t.drop_last() =~= s.drop_last());
    } else {
        assert(t.drop_last() =~= s.drop_last().update(i, (s[i].0, v)));
        lemma_count_update(s.drop_last(), i, v, d);
    }
}

/// Adds one to the count of `c`, entering `c` with a count of one where it
/// has no entry yet.
fn bump(counts: &mut Vec<(Cell, usize)>, c: Cell)
    requires
        counts_wf(old(counts)@),
        count_in(old(counts)@, c) < usize::MAX,
    ensures
        counts_wf(final(counts)@),
        forall|d: Cell| #[trigger]
            count_in(final(counts)@, d) == count_in(old(counts)@, d) + bit(d == c),
{
    let ghost before = counts@;
    let mut i: usize = 0;
    while i < counts.len() && !(counts[i].0.0 == c.0 && counts[i].0.1 == c.1)
        invariant
            counts@ == before,
            i <= before.len(),
            forall|j: int| 0 <= j < i ==> before[j].0 != c,
        decreases before.len() - i,
    {
        i = i + 1;
    }
    if i < counts.len() {
        let e = counts[i];
        assert(e.0 == c);
        proof {
            lemma_count_at(before, i as int);
        }
        counts.set(i, (e.0, e.1 + 1));
        proof {
            assert(counts@ == before.update(i as int, (before[i as int].0, (e.1 + 1) as usize)));
            assert forall|d: Cell|
                #[trigger] count_in(counts@, d) == count_in(before, d) + bit(d == c) by {
                lemma_count_update(before, i as int, (e.1 + 1) as usize, d);
            }
        }
    } else {
    counts.push((c, 1));
    assert(counts@.drop_last() =~= before);
    }
}

/// For each position next to at least one cell of `col`, how many cells of
/// `col` it is next to. Positions next to none get no entry.
fn neighbour_counts(col: &Colony) -> (r: Vec<(Cell, usize)>)
    requires
        interior(col@),
    ensures
        counts_wf(r@),
        forall|c: Cell| #[trigger] count_in(r@, c) == live_neighbours(col@, c),
{
    proof {
        use_type_invariant(col);
    }
    let ghost cells = col.cells@;
    let mut counts: Vec<(Cell, usize)> = Vec::new();
    let mut i: usize = 0;
    while i < col.cells.len()
        invariant
            cells == col.cells@,
            interior(col@),
            i <= cells.len(),
            counts_wf(counts@),
            forall|c: Cell| #[trigger] count_in(counts@, c) == tally(cells.subrange(0, i as int), c),
        decreases cells.len() - i,
    {
        let a = col.cells[i];
        assert(i < usize::MAX);
        let ghost prefix = cells.subrange(0, i as int);
        assert(col@.contains(a));
        proof {
            lemma_ring(a);
        }
        let ns = neighbours(&a);
        let mut k: usize = 0;
        while k < 8
            invariant
                ns@ == ring(a),
                ring(a).len() == 8,
                ring(a).no_duplicates(),
                k <= 8,
                i < cells.len(),
                i < usize::MAX,
                prefix.len() == i,
                counts_wf(counts@),
                forall|c: Cell|
                    #[trigger] count_in(counts@, c) == tally(prefix, c) + bit(
                        ns@.subrange(0, k as int).contains(c),
                    ),
            decreases 8 - k,
        {
            let n = ns[k];
            proof {
                lemma_tally_bound(prefix, n);
                if ns@.subrange(0, k as int).contains(n) {
                    let j = choose|j: int| 0 <= j < k && ns@.subrange(0, k as int)[j] == n;
                    assert(ns@[j] == ns@[k as int]);
                }
                assert(count_in(counts@, n) == tally(prefix, n));
                assert(count_in(counts@, n) < usize::MAX);
            }
            bump(&mut counts, n);
            proof {
                assert forall|c: Cell|
                    ns@.subrange(0, k + 1).contains(c) <==> (ns@.subrange(0, k as int).contains(c)
                        || c == n) by {
                    assert(ns@.subrange(0, k + 1) =~= ns@.subrange(0, k as int).push(n));
                    ns@.subrange(0, k as int).lemma_push_to_set_commute(n);
                    assert(ns@.subrange(0, k + 1).to_set().contains(c) == ns@.subrange(
                        0,
                        k + 1,
                    ).contains(c));
                }
            }
            k = k + 1;
        }
        proof {
            assert(ns@.subrange(0, 8) =~= ns@);
            assert(cells.subrange(0, i + 1).drop_last() =~= prefix);
        }
        i = i + 1;
    }
    proof {
        assert(cells.subrange(0, cells.len() as int) =~= cells);
        assert forall|c: Cell| #[trigger]
            count_in(counts@, c) == live_neighbours(col@, c) by {
            lemma_tally_is_live_neighbours(cells, c);
        }
    }
    counts
}

/// The next generation of `col` under rule B3/S23.
pub fn generation(col: Colony) -> (r: Colony)
    requires
        interior(col@),
    ensures
        r@ == next_generation(col@),
{
    let counts = neighbour_counts(&col);
    let mut out: Vec<Cell> = Vec::new();
    let mut j: usize = 0;
    while j < counts.len()
        invariant
            j <= counts@.len(),
            counts_wf(counts@),
            forall|c: Cell| #[trigger] count_in(counts@, c) == live_neighbours(col@, c),
            out@.no_duplicates(),
            forall|d: Cell|
                #[trigger] out@.contains(d) <==> (exists|k: int| 0 <= k < j && counts@[k].0 == d)
                    && alive_next(col@, d),
        decreases counts@.len() - j,
    {
        let (c, n) = counts[j];
        proof {
            lemma_count_at(counts@, j as int);
        }
        let keep = n == 3 || (n == 2 && col.contains(c));
        let ghost old_out = out@;
        if keep {
            proof {
                if old_out.contains(c) {
                    let k = choose|k: int| 0 <= k < j && counts@[k].0 == c;
                    assert(counts@[k].0 == counts@[j as int].0);
                }
            }
            out.push(c);
        }
        proof {
            assert forall|d: Cell|
                #[trigger] out@.contains(d) <==> (exists|k: int| 0 <= k < j + 1 && counts@[k].0 == d)
                    && alive_next(col@, d) by {
                if keep {
                    assert(out@ =~= old_out.push(c));
                    old_out.lemma_push_to_set_commute(c);
                    assert(out@.to_set().contains(d) == out@.contains(d));
                }
                if (exists|k: int| 0 <= k < j + 1 && counts@[k].0 == d) && !(exists|k: int|
                    0 <= k < j && counts@[k].0 == d) {
                    assert(counts@[j as int].0 == d);
                }
            }
        }
        j = j + 1;
    }
    proof {
        assert forall|d: Cell| #[trigger] out@.contains(d) <==> alive_next(col@, d) by {
            if alive_next(col@, d) {
                lemma_count_found(counts@, d);
            }
        }
    }
    let r = Colony { cells: out };
    assert(r@ =~= next_generation(col@));
    r
}

/// The rule cell by cell: a live cell stays live exactly when two or three of
/// its neighbours are live; a dead cell comes alive exactly when three are.
pub proof fn lemma_rule(col: Set<Cell>, c: Cell)
    ensures
        col.contains(c) ==> (next_generation(col).contains(c) <==> (live_neighbours(col, c) == 2
            || live_neighbours(col, c) == 3)),
        !col.contains(c) ==> (next_generation(col).contains(c) <==> live_neighbours(col, c) == 3),
{
}

/// A cell with no live neighbour dies: a lone live cell leaves no cell alive.
pub proof fn lemma_lone_cell_dies(c: Cell)
    ensures
        next_generation(set![c]) == Set::<Cell>::empty(),
{
    assert forall|d: Cell| !#[trigger] next_generation(set![c]).contains(d) by {
        assert(live_neighbours(set![c], d) <= 1);
    }
    assert(next_generation(set![c]) =~= Set::<Cell>::empty());
}

/// Two listings of the same cells, each without repeats, give every position
/// the same count of live neighbours, whatever order they list the cells in.
pub proof fn lemma_count_order_free(s: Seq<Cell>, t: Seq<Cell>, c: Cell)
    requires
        s.no_duplicates(),
        t.no_duplicates(),
        s.to_set() == t.to_set(),
    ensures
        tally(s, c) == tally(t, c),
{
    lemma_tally_is_live_neighbours(s, c);
    lemma_tally_is_live_neighbours(t, c);
}

/// The 2×2 block with `(x, y)` as its corner of least coordinates.
pub open spec fn block(x: i32, y: i32) -> Set<Cell> {
    set![(x, y), ((x + 1) as i32, y), (x, (y + 1) as i32), ((x + 1) as i32, (y + 1) as i32)]
}

/// A block is a still life: it is its own next generation.
#[verifier::rlimit(50)]
pub proof fn lemma_block_is_still(x: i32, y: i32)
    requires
        i32::MIN < x < i32::MAX - 1,
        i32::MIN < y < i32::MAX - 1,
    ensures
        next_generation(block(x, y)) == block(x, y),
{
    let b = block(x, y);
    assert forall|d: Cell| #[trigger] next_generation(b).contains(d) == b.contains(d) by {
        let n = live_neighbours(b, d);
        if b.contains(d) {
            assert(n == 3);
        } else {
            assert(n != 3);
        }
    }
    assert(next_generation(b) =~= b);
}

/// Three live cells in a row, centred on `(x, y)`, lying across.
pub open spec fn blinker_across(x: i32, y: i32) -> Set<Cell> {
    set![((x - 1) as i32, y), (x, y), ((x + 1) as i32, y)]
}

/// Three live cells in a column, centred on `(x, y)`, standing up.
pub open spec fn blinker_upright(x: i32, y: i32) -> Set<Cell> {
    set![(x, (y - 1) as i32), (x, y), (x, (y + 1) as i32)]
}

/// A blinker turns from lying across to standing up and back, so that it is
/// itself again after two generations.
#[verifier::rlimit(50)]
pub proof fn lemma_blinker_oscillates(x: i32, y: i32)
    requires
        i32::MIN + 1 < x < i32::MAX - 1,
        i32::MIN + 1 < y < i32::MAX - 1,
    ensures
        next_generation(blinker_across(x, y)) == blinker_upright(x, y),
        next_generation(blinker_upright(x, y)) == blinker_across(x, y),
        next_generation(next_generation(blinker_across(x, y))) == blinker_across(x, y),
{
    let h = blinker_across(x, y);
    let v = blinker_upright(x, y);
    assert forall|d: Cell| #[trigger] next_generation(h).contains(d) == v.contains(d) by {
        let n = live_neighbours(h, d);
        if v.contains(d) {
            assert(n == 3 || (n == 2 && h.contains(d)));
        } else {
            assert(!(n == 3 || (n == 2 && h.contains(d))));
        }
    }
    assert(next_generation(h) =~= v);
    assert forall|d: Cell| #[trigger] next_generation(v).contains(d) == h.contains(d) by {
        let n = live_neighbours(v, d);
        if h.contains(d) {
            assert(n == 3 || (n == 2 && v.contains(d)));
        } else {
            assert(!(n == 3 || (n == 2 && v.contains(d))));
        }
    }
    assert(next_generation(v) =~= h);
}

/// `col` after `n` generations.
pub open spec fn generations(col: Set<Cell>, n: nat) -> Set<Cell>
    decreases n,
{
    if n == 0 {
        col
    } else {
        next_generation(generations(col, (n - 1) as nat))
    }
}

/// The cell at offset `(dx, dy)` from `(x, y)`.
pub open spec fn at(x: i32, y: i32, dx: int, dy: int) -> Cell {
    ((x + dx) as i32, (y + dy) as i32)
}

/// A glider with its reference point at `(x, y)`: the cell above it, the cell
/// to its right, and the three cells of the row below.
pub open spec fn glider_shape(x: i32, y: i32) -> Set<Cell> {
    set![at(x, y, 0, -1), at(x, y, 1, 0), at(x, y, -1, 1), at(x, y, 0, 1), at(x, y, 1, 1)]
}

/// The glider of reference point `(x, y)` after `k` generations, `k < 4`.
spec fn glider_phase(x: i32, y: i32, k: int) -> Set<Cell> {
    if k == 0 {
        glider_shape(x, y)
    } else if k == 1 {
        set![at(x, y, -1, 0), at(x, y, 0, 1), at(x, y, 0, 2), at(x, y, 1, 0), at(x, y, 1, 1)]
    } else if k == 2 {
        set![at(x, y, -1, 1), at(x, y, 0, 2), at(x, y, 1, 0), at(x, y, 1, 1), at(x, y, 1, 2)]
    } else {
        set![at(x, y, 0, 0), at(x, y, 0, 2), at(x, y, 1, 1), at(x, y, 1, 2), at(x, y, 2, 1)]
    }
}

/// Keeps a glider phase and the positions around it inside the grid.
spec fn roomy(x: i32, y: i32) -> bool {
    i32::MIN + 2 < x < i32::MAX - 3 && i32::MIN + 2 < y < i32::MAX - 3
}

#[verifier::rlimit(100)]
proof fn lemma_glider_step(x: i32, y: i32, k: int, next: Set<Cell>)
    requires
        roomy(x, y),
        0 <= k < 4,
        next == if k < 3 {
            glider_phase(x, y, k + 1)
        } else {
            glider_shape((x + 1) as i32, (y + 1) as i32)
        },
    ensures
        next_generation(glider_phase(x, y, k)) == next,
{
    let a = glider_phase(x, y, k);
    assert forall|d: Cell| #[trigger] next_generation(a).contains(d) == next.contains(d) by {
        let n = live_neighbours(a, d);
        if next.contains(d) {
            assert(n == 3 || (n == 2 && a.contains(d)));
        } else {
            assert(!(n == 3 || (n == 2 && a.contains(d))));
        }
    }
    assert(next_generation(a) =~= next);
}

/// A glider, after four generations, has the same shape one cell further
/// right and one cell further down.
pub proof fn lemma_glider_moves(x: i32, y: i32)
    requires
        i32::MIN + 2 < x < i32::MAX - 3,
        i32::MIN + 2 < y < i32::MAX - 3,
    ensures
        generations(glider_shape(x, y), 4) == glider_shape((x + 1) as i32, (y + 1) as i32),
{
    let g = glider_shape(x, y);
    assert(generations(g, 0) == glider_phase(x, y, 0));
    lemma_glider_step(x, y, 0, glider_phase(x, y, 1));
    assert(generations(g, 1) == glider_phase(x, y, 1));
    lemma_glider_step(x, y, 1, glider_phase(x, y, 2));
    assert(generations(g, 2) == glider_phase(x, y, 2));
    lemma_glider_step(x, y, 2, glider_phase(x, y, 3));
    assert(generations(g, 3) == glider_phase(x, y, 3));
    lemma_glider_step(x, y, 3, glider_shape((x + 1) as i32, (y + 1) as i32));
}

} // verus!
