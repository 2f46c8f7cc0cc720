//! The broadphase's uniform grid over integer cells: proxies are staged with
//! the cell range they cover, and the first query after staging lays them
//! out as a flat prefix-sum spatial hash — count the cell references per
//! slot, take the exclusive prefix sum, scatter ids and cells into one flat
//! entry array. Unbounded cell coordinates map into a power-of-two slot
//! table through a multiplicative hash; each entry keeps its exact cell, so
//! hash aliasing merges buckets without false candidates.

use vstd::prelude::*;

use crate::assets::atlas::next_power_of_two;

verus! {

/// An inclusive rectangle of grid cells.
#[derive(Debug, Clone, Copy, PartialEq, Eq, Structural)]
pub struct CellRange {
    pub min_x: i32,
    pub min_y: i32,
    pub max_x: i32,
    pub max_y: i32,
}

impl CellRange {
    /// The range holds at least one cell.
    pub open spec fn valid(self) -> bool {
        self.min_x <= self.max_x && self.min_y <= self.max_y
    }

    /// Cell `(x, y)` lies in the range.
    pub open spec fn covers(self, x: int, y: int) -> bool {
        self.min_x <= x <= self.max_x && self.min_y <= y <= self.max_y
    }

    /// The two ranges share a cell.
    pub open spec fn overlaps(self, other: CellRange) -> bool {
        self.min_x <= other.max_x && other.min_x <= self.max_x && self.min_y <= other.max_y
            && other.min_y <= self.max_y
    }

    /// Number of columns.
    pub open spec fn width(self) -> int {
        self.max_x - self.min_x + 1
    }

    /// Number of rows.
    pub open spec fn height(self) -> int {
        self.max_y - self.min_y + 1
    }

    /// Number of cells.
    pub open spec fn cell_count(self) -> int {
        self.width() * self.height()
    }
}

/// A staged proxy: its id and the cells it covers.
#[derive(Debug, Clone, Copy)]
struct Staged {
    id: u32,
    range: CellRange,
}

/// Number of cell references a list of proxies makes.
pub open spec fn total_cells(ranges: Seq<(u32, CellRange)>) -> int
    decreases ranges.len(),
{
    if ranges.len() == 0 {
        0
    } else {
        total_cells(ranges.drop_last()) + ranges.last().1.cell_count()
    }
}

/// Product of two `u32` values, wrapped.
pub open spec fn mul32(x: u32, y: u32) -> u32 {
    ((x as nat * y as nat) % 0x1_0000_0000nat) as u32
}

/// Multiplicative spatial hash of a cell with an xor fold, so the low bits
/// that survive the slot mask carry high-bit entropy.
pub open spec fn spec_hash_cell(x: i32, y: i32) -> u32 {
    let h = mul32(x as u32, 0x8DA6_B343u32) ^ mul32(y as u32, 0xD816_3841u32);
    h ^ (h >> 16u32)
}

fn hash_cell(x: i32, y: i32) -> (r: u32)
    ensures
        r == spec_hash_cell(x, y),
{
    let h = (x as u32).wrapping_mul(0x8DA6_B343u32) ^ (y as u32).wrapping_mul(0xD816_3841u32);
    h ^ (h >> 16u32)
}

/// The slot a cell falls in under a mask.
pub open spec fn slot_of(mask: u32, x: i32, y: i32) -> u32 {
    spec_hash_cell(x, y) & mask
}

proof fn lemma_slot_bound(mask: u32, x: i32, y: i32)
    ensures
        slot_of(mask, x, y) <= mask,
{
    let h = spec_hash_cell(x, y);
    assert(h & mask <= mask) by (bit_vector);
}

/// The ids of the proxies that cover cell `(x, y)`, in staging order.
pub open spec fn cell_hits(ps: Seq<(u32, CellRange)>, x: int, y: int) -> Seq<u32>
    decreases ps.len(),
{
    if ps.len() == 0 {
        Seq::empty()
    } else {
        cell_hits(ps.drop_last(), x, y) + (if ps.last().1.covers(x, y) { seq![ps.last().0] } else { Seq::empty() })
    }
}

/// The ids of the entries in `a..b` whose cell is `(x, y)`, in order.
pub open spec fn ids_in(ids: Seq<u32>, cells: Seq<(i32, i32)>, x: int, y: int, a: int, b: int) -> Seq<u32>
    decreases b - a,
{
    if b <= a {
        Seq::empty()
    } else {
        ids_in(ids, cells, x, y, a, b - 1) + (if cells[b - 1].0 == x && cells[b - 1].1 == y {
            seq![ids[b - 1]]
        } else {
            Seq::empty()
        })
    }
}

/// The ids of a list other than the excluded one, in order.
pub open spec fn without(s: Seq<u32>, exclude: Option<u32>) -> Seq<u32>
    decreases s.len(),
{
    if s.len() == 0 {
        s
    } else {
        without(s.drop_last(), exclude) + (if exclude != Some(s.last()) { seq![s.last()] } else { Seq::empty() })
    }
}

/// `out` followed by the ids of `ids` it does not hold yet, each the first
/// time it comes.
pub open spec fn add_new(out: Seq<u32>, ids: Seq<u32>) -> Seq<u32>
    decreases ids.len(),
{
    if ids.len() == 0 {
        out
    } else {
        let o = add_new(out, ids.drop_last());
        if o.contains(ids.last()) { o } else { o.push(ids.last()) }
    }
}

/// What a query outputs by the time it reaches cell `(x, y)`: the cells of
/// the query are visited row by row, each row left to right, and each cell
/// adds the proxies covering it, in staging order, that are neither excluded
/// nor already output.
pub open spec fn scan_upto(ps: Seq<(u32, CellRange)>, query: CellRange, exclude: Option<u32>, y: int, x: int) -> Seq<u32>
    decreases y - query.min_y, x - query.min_x,
    when query.valid() && y >= query.min_y && x >= query.min_x
{
    if y <= query.min_y && x <= query.min_x {
        Seq::empty()
    } else if x <= query.min_x {
        scan_upto(ps, query, exclude, y - 1, query.max_x + 1)
    } else {
        add_new(scan_upto(ps, query, exclude, y, x - 1), without(cell_hits(ps, x - 1, y), exclude))
    }
}

proof fn lemma_ids_in_agree(
    ids1: Seq<u32>,
    cells1: Seq<(i32, i32)>,
    ids2: Seq<u32>,
    cells2: Seq<(i32, i32)>,
    x: int,
    y: int,
    a: int,
    b: int,
)
    requires
        forall|i: int| a <= i < b ==> #[trigger] ids1[i] == ids2[i] && cells1[i] == cells2[i],
    ensures
        ids_in(ids1, cells1, x, y, a, b) == ids_in(ids2, cells2, x, y, a, b),
    decreases b - a,
{
    if b > a {
        lemma_ids_in_agree(ids1, cells1, ids2, cells2, x, y, a, b - 1);
        assert(ids1[b - 1] == ids2[b - 1] && cells1[b - 1] == cells2[b - 1]);
    }
}

proof fn lemma_without_snoc(t: Seq<u32>, v: u32, exclude: Option<u32>)
    ensures
        without(t + seq![v], exclude) == without(t, exclude) + (if exclude != Some(v) { seq![v] } else { Seq::empty() }),
{
    assert((t + seq![v]).drop_last() =~= t);
}

proof fn lemma_add_new_snoc(out: Seq<u32>, w: Seq<u32>, v: u32)
    ensures
        add_new(out, w + seq![v]) == (if add_new(out, w).contains(v) { add_new(out, w) } else { add_new(out, w).push(v) }),
{
    assert((w + seq![v]).drop_last() =~= w);
}

/// With no proxies, a query outputs nothing.
proof fn lemma_scan_empty(ps: Seq<(u32, CellRange)>, query: CellRange, exclude: Option<u32>, y: int, x: int)
    requires
        ps.len() == 0,
        query.valid(),
        y >= query.min_y,
        x >= query.min_x,
    ensures
        scan_upto(ps, query, exclude, y, x) == Seq::<u32>::empty(),
    decreases y - query.min_y, x - query.min_x,
{
    if y <= query.min_y && x <= query.min_x {
    } else if x <= query.min_x {
        lemma_scan_empty(ps, query, exclude, y - 1, query.max_x + 1);
    } else {
        lemma_scan_empty(ps, query, exclude, y, x - 1);
        assert(cell_hits(ps, x - 1, y) == Seq::<u32>::empty());
        assert(without(Seq::<u32>::empty(), exclude) == Seq::<u32>::empty());
    }
}

/// Number of cells of a list that fall in slot `t`.
pub open spec fn slot_count(cells: Seq<(i32, i32)>, mask: u32, t: int) -> int
    decreases cells.len(),
{
    if cells.len() == 0 {
        0
    } else {
        slot_count(cells.drop_last(), mask, t) + (if slot_of(mask, cells.last().0, cells.last().1) == t {
            1int
        } else {
            0int
        })
    }
}

/// Number of cells of a list in the slots below `t`: where slot `t` starts
/// in the laid-out entries.
pub open spec fn slot_start(cells: Seq<(i32, i32)>, mask: u32, t: int) -> int
    decreases t,
{
    if t <= 0 {
        0
    } else {
        slot_start(cells, mask, t - 1) + slot_count(cells, mask, t - 1)
    }
}

/// Where the scatter puts the cell at position `j`: after the cells of
/// lower slots and after the earlier cells of its own slot.
#[verifier::opaque]
pub open spec fn place(cells: Seq<(i32, i32)>, mask: u32, j: int) -> int {
    let s = slot_of(mask, cells[j].0, cells[j].1) as int;
    slot_start(cells, mask, s) + slot_count(cells.take(j), mask, s)
}

proof fn lemma_count_bounds(cells: Seq<(i32, i32)>, mask: u32, t: int)
    ensures
        0 <= slot_count(cells, mask, t) <= cells.len(),
    decreases cells.len(),
{
    if cells.len() > 0 {
        lemma_count_bounds(cells.drop_last(), mask, t);
    }
}

proof fn lemma_count_step(cells: Seq<(i32, i32)>, mask: u32, t: int, j: int)
    requires
        0 <= j < cells.len(),
    ensures
        slot_count(cells.take(j + 1), mask, t) == slot_count(cells.take(j), mask, t)
            + (if slot_of(mask, cells[j].0, cells[j].1) == t { 1int } else { 0int }),
{
    assert(cells.take(j + 1).drop_last() =~= cells.take(j));
}

proof fn lemma_count_mono(cells: Seq<(i32, i32)>, mask: u32, t: int, a: int, b: int)
    requires
        0 <= a <= b <= cells.len(),
    ensures
        slot_count(cells.take(a), mask, t) <= slot_count(cells.take(b), mask, t),
    decreases b - a,
{
    if a < b {
        lemma_count_step(cells, mask, t, b - 1);
        lemma_count_mono(cells, mask, t, a, b - 1);
    }
}

proof fn lemma_start_mono(cells: Seq<(i32, i32)>, mask: u32, t1: int, t2: int)
    requires
        0 <= t1 <= t2,
    ensures
        slot_start(cells, mask, t1) <= slot_start(cells, mask, t2),
    decreases t2 - t1,
{
    if t1 < t2 {
        lemma_count_bounds(cells, mask, t2 - 1);
        lemma_start_mono(cells, mask, t1, t2 - 1);
    }
}

proof fn lemma_start_push(cells: Seq<(i32, i32)>, e: (i32, i32), mask: u32, t: int)
    requires
        0 <= t,
    ensures
        slot_start(cells.push(e), mask, t) == slot_start(cells, mask, t)
            + (if (slot_of(mask, e.0, e.1) as int) < t { 1int } else { 0int }),
    decreases t,
{
    if t > 0 {
        lemma_start_push(cells, e, mask, t - 1);
        assert(cells.push(e).drop_last() =~= cells);
    }
}

proof fn lemma_start_empty(cells: Seq<(i32, i32)>, mask: u32, t: int)
    requires
        cells.len() == 0,
    ensures
        slot_start(cells, mask, t) == 0,
    decreases t,
{
    if t > 0 {
        lemma_start_empty(cells, mask, t - 1);
    }
}

proof fn lemma_start_total(cells: Seq<(i32, i32)>, mask: u32)
    ensures
        slot_start(cells, mask, mask as int + 1) == cells.len(),
    decreases cells.len(),
{
    if cells.len() > 0 {
        let init = cells.drop_last();
        let e = cells.last();
        lemma_start_total(init, mask);
        lemma_start_push(init, e, mask, mask as int + 1);
        lemma_slot_bound(mask, e.0, e.1);
        assert(init.push(e) =~= cells);
    } else {
        lemma_start_empty(cells, mask, mask as int + 1);
    }
}

proof fn lemma_place_bounds(cells: Seq<(i32, i32)>, mask: u32, j: int)
    requires
        0 <= j < cells.len(),
    ensures
        slot_start(cells, mask, slot_of(mask, cells[j].0, cells[j].1) as int) <= place(cells, mask, j),
        place(cells, mask, j) < slot_start(cells, mask, slot_of(mask, cells[j].0, cells[j].1) as int + 1),
{
    reveal(place);
    let s = slot_of(mask, cells[j].0, cells[j].1) as int;
    lemma_count_step(cells, mask, s, j);
    lemma_count_mono(cells, mask, s, j + 1, cells.len() as int);
    lemma_count_bounds(cells.take(j), mask, s);
    assert(cells.take(cells.len() as int) =~= cells);
}

proof fn lemma_place_distinct(cells: Seq<(i32, i32)>, mask: u32, a: int, b: int)
    requires
        0 <= a < b < cells.len(),
    ensures
        place(cells, mask, a) != place(cells, mask, b),
{
    reveal(place);
    let sa = slot_of(mask, cells[a].0, cells[a].1) as int;
    let sb = slot_of(mask, cells[b].0, cells[b].1) as int;
    lemma_place_bounds(cells, mask, a);
    lemma_place_bounds(cells, mask, b);
    if sa == sb {
        lemma_count_step(cells, mask, sa, a);
        lemma_count_mono(cells, mask, sa, a + 1, b);
    } else if sa < sb {
        lemma_start_mono(cells, mask, sa + 1, sb);
    } else {
        lemma_start_mono(cells, mask, sb + 1, sa);
    }
}

proof fn lemma_cursor_step(cs: Seq<(i32, i32)>, mask: u32, j: int, before: Seq<u32>, after: Seq<u32>)
    requires
        0 <= j < cs.len(),
        before.len() == mask as int + 1,
        forall|t: int| 0 <= t <= mask ==> #[trigger] before[t] == slot_start(cs, mask, t) + slot_count(cs.take(j), mask, t),
        after.len() == before.len(),
        after[slot_of(mask, cs[j].0, cs[j].1) as int] == before[slot_of(mask, cs[j].0, cs[j].1) as int] + 1,
        forall|t: int| 0 <= t <= mask && t != slot_of(mask, cs[j].0, cs[j].1) ==> #[trigger] after[t] == before[t],
    ensures
        forall|t: int| 0 <= t <= mask ==> #[trigger] after[t] == slot_start(cs, mask, t) + slot_count(cs.take(j + 1), mask, t),
{
    assert forall|t: int| 0 <= t <= mask implies #[trigger] after[t] == slot_start(cs, mask, t) + slot_count(cs.take(j + 1), mask, t) by {
        lemma_count_step(cs, mask, t, j);
    }
}

proof fn lemma_entries_step<T>(cs: Seq<(i32, i32)>, vals: Seq<T>, mask: u32, j: int, before: Seq<T>, after: Seq<T>)
    requires
        0 <= j < cs.len(),
        vals.len() == cs.len(),
        before.len() == cs.len(),
        forall|jj: int| 0 <= jj < j ==> before[#[trigger] place(cs, mask, jj)] == vals[jj],
        after == before.update(place(cs, mask, j), vals[j]),
    ensures
        forall|jj: int| 0 <= jj < j + 1 ==> after[#[trigger] place(cs, mask, jj)] == vals[jj],
{
    lemma_place_in_range(cs, mask, j);
    assert forall|jj: int| 0 <= jj < j + 1 implies after[#[trigger] place(cs, mask, jj)] == vals[jj] by {
        lemma_place_in_range(cs, mask, jj);
        if jj < j {
            lemma_place_distinct(cs, mask, jj, j);
        }
    }
}

/// Where each slot starts in the laid-out entries: the count of the cells
/// of lower slots.
fn slot_starts_of(cells: &Vec<(i32, i32)>, mask: u32) -> (starts: Vec<u32>)
    requires
        cells@.len() <= MAX_CELL_REFS,
        mask < 0x8000_0000,
    ensures
        starts@.len() == mask as int + 2,
        forall|t: int| 0 <= t <= mask as int + 1 ==> #[trigger] starts@[t] == slot_start(cells@, mask, t),
{
    let n = cells.len();
    let slots: u32 = mask + 1;
    let ghost cs = cells@;
    proof {
        lemma_start_total(cs, mask);
    }
    let mut starts: Vec<u32> = Vec::new();
    let mut i: usize = 0;
    while i < slots as usize + 1
        invariant
            slots == mask + 1,
            mask < 0x8000_0000,
            i <= slots as usize + 1,
            starts@.len() == i,
            forall|t: int| 0 <= t < i ==> #[trigger] starts@[t] == 0,
        decreases slots as usize + 1 - i,
    {
        starts.push(0);
        i += 1;
    }

    // Count the references per slot, one place to the right.
    let mut j: usize = 0;
    while j < n
        invariant
            n == cs.len(),
            cs == cells@,
            n <= MAX_CELL_REFS,
            slots == mask + 1,
            mask < 0x8000_0000,
            j <= n,
            starts@.len() == slots as int + 1,
            starts@[0] == 0,
            forall|t: int| 0 <= t < slots ==> #[trigger] starts@[t + 1] == slot_count(cs.take(j as int), mask, t),
        decreases n - j,
    {
        let (cx, cy) = cells[j];
        let s = hash_cell(cx, cy) & mask;
        proof {
            lemma_slot_bound(mask, cx, cy);
            lemma_count_bounds(cs.take(j as int), mask, s as int);
            assert forall|t: int| 0 <= t < slots implies slot_count(cs.take(j + 1), mask, t)
                == slot_count(cs.take(j as int), mask, t) + (if s == t { 1int } else { 0int }) by {
                lemma_count_step(cs, mask, t, j as int);
            }
        }
        let bumped = starts[s as usize + 1] + 1;
        starts.set(s as usize + 1, bumped);
        j += 1;
    }
    proof {
        assert(cs.take(n as int) =~= cs);
        assert forall|t: int| 1 <= t <= slots implies #[trigger] starts@[t] == slot_count(cs, mask, t - 1) by {
            let u = t - 1;
            assert(starts@[u + 1] == slot_count(cs.take(n as int), mask, u));
        }
    }

    // Exclusive prefix sum: slot `t` starts after the slots below it.
    let mut i: usize = 1;
    while i <= slots as usize
        invariant
            n == cs.len(),
            n <= MAX_CELL_REFS,
            slots == mask + 1,
            mask < 0x8000_0000,
            1 <= i <= slots as int + 1,
            starts@.len() == slots as int + 1,
            slot_start(cs, mask, mask as int + 1) == cs.len(),
            forall|t: int| 0 <= t < i ==> #[trigger] starts@[t] == slot_start(cs, mask, t),
            forall|t: int| i <= t <= slots ==> #[trigger] starts@[t] == slot_count(cs, mask, t - 1),
        decreases slots as usize + 1 - i,
    {
        proof {
            lemma_start_mono(cs, mask, i as int, mask as int + 1);
        }
        let total = starts[i] + starts[i - 1];
        starts.set(i, total);
        i += 1;
    }
    starts
}

/// Scatter each reference to its slot's next free place.
#[verifier::rlimit(40)]
fn scatter(ids: &Vec<u32>, cells: &Vec<(i32, i32)>, starts: &Vec<u32>, mask: u32) -> (r: (
    Vec<u32>,
    Vec<(i32, i32)>,
    Ghost<Seq<int>>,
))
    requires
        ids@.len() == cells@.len(),
        cells@.len() <= MAX_CELL_REFS,
        mask < 0x8000_0000,
        starts@.len() == mask as int + 2,
        forall|t: int| 0 <= t <= mask as int + 1 ==> #[trigger] starts@[t] == slot_start(cells@, mask, t),
    ensures
        r.0@.len() == cells@.len(),
        r.1@.len() == cells@.len(),
        r.2@.len() == cells@.len(),
        forall|e: int| 0 <= e < cells@.len() ==> 0 <= #[trigger] r.2@[e] < cells@.len()
            && r.0@[e] == ids@[r.2@[e]] && r.1@[e] == cells@[r.2@[e]],
        forall|jj: int| 0 <= jj < cells@.len() ==> r.0@[#[trigger] place(cells@, mask, jj)] == ids@[jj],
        forall|jj: int| 0 <= jj < cells@.len() ==> r.1@[#[trigger] place(cells@, mask, jj)] == cells@[jj],
{
    let n = cells.len();
    let slots: u32 = mask + 1;
    let ghost cs = cells@;
    proof {
        lemma_start_total(cs, mask);
    }
    let mut cursors: Vec<u32> = Vec::new();
    let mut i: usize = 0;
    while i < slots as usize
        invariant
            slots == mask + 1,
            i <= slots,
            starts@.len() == slots as int + 1,
            cursors@.len() == i,
            forall|t: int| 0 <= t < i ==> #[trigger] cursors@[t] == starts@[t],
        decreases slots as usize - i,
    {
        cursors.push(starts[i]);
        i += 1;
    }
    proof {
        assert forall|t: int| 0 <= t < slots implies slot_count(#[trigger] cs.take(0), mask, t) == 0 by {
            assert(cs.take(0).len() == 0);
        }
    }
    let mut entry_ids: Vec<u32> = Vec::new();
    let mut entry_cells: Vec<(i32, i32)> = Vec::new();
    let mut i: usize = 0;
    while i < n
        invariant
            n == cs.len(),
            n == ids@.len(),
            cs == cells@,
            i <= n,
            entry_ids@.len() == i,
            entry_cells@.len() == i,
            forall|e: int| 0 <= e < i ==> #[trigger] entry_ids@[e] == ids@[0],
            forall|e: int| 0 <= e < i ==> #[trigger] entry_cells@[e] == cs[0],
        decreases n - i,
    {
        let first_id = ids[0];
        let first_cell = cells[0];
        entry_ids.push(first_id);
        entry_cells.push(first_cell);
        proof {
            assert(entry_ids@[i as int] == ids@[0]);
            assert(entry_cells@[i as int] == cs[0]);
        }
        i += 1;
    }
    let ghost mut src: Seq<int> = Seq::new(n as nat, |e: int| 0int);
    let mut j: usize = 0;
    while j < n
        invariant
            n == cs.len(),
            n == ids@.len(),
            cs == cells@,
            n <= MAX_CELL_REFS,
            slots == mask + 1,
            mask < 0x8000_0000,
            j <= n,
            slot_start(cs, mask, mask as int + 1) == cs.len(),
            cursors@.len() == slots,
            forall|t: int| 0 <= t <= mask ==> #[trigger] cursors@[t] == slot_start(cs, mask, t) + slot_count(cs.take(j as int), mask, t),
            entry_ids@.len() == n,
            entry_cells@.len() == n,
            src.len() == n,
            forall|e: int| 0 <= e < n ==> 0 <= #[trigger] src[e] < n && entry_ids@[e] == ids@[src[e]] && entry_cells@[e] == cs[src[e]],
            forall|jj: int| 0 <= jj < j ==> entry_ids@[#[trigger] place(cs, mask, jj)] == ids@[jj],
            forall|jj: int| 0 <= jj < j ==> entry_cells@[#[trigger] place(cs, mask, jj)] == cs[jj],
        decreases n - j,
    {
        let (cx, cy) = cells[j];
        let s = hash_cell(cx, cy) & mask;
        let ghost s_int = s as int;
        proof {
            lemma_slot_bound(mask, cx, cy);
            lemma_place_bounds(cs, mask, j as int);
            lemma_start_mono(cs, mask, s as int + 1, mask as int + 1);
            reveal(place);
            assert(cursors@[s_int] == place(cs, mask, j as int));
        }
        let at = cursors[s as usize];
        let ghost c_before = cursors@;
        let ghost ids_before = entry_ids@;
        let ghost cells_before = entry_cells@;
        cursors.set(s as usize, at + 1);
        let id = ids[j];
        let cell = cells[j];
        entry_ids.set(at as usize, id);
        entry_cells.set(at as usize, cell);
        proof {
            lemma_cursor_step(cs, mask, j as int, c_before, cursors@);
            lemma_entries_step(cs, ids@, mask, j as int, ids_before, entry_ids@);
            lemma_entries_step(cs, cs, mask, j as int, cells_before, entry_cells@);
            src = src.update(at as int, j as int);
        }
        j += 1;
    }
    (entry_ids, entry_cells, Ghost(src))
}

/// Some proxy with id `id` covers cell `(x, y)`.
pub open spec fn is_ref(ps: Seq<(u32, CellRange)>, id: u32, x: int, y: int) -> bool {
    exists|k: int| 0 <= k < ps.len() && ps[k].0 == id && #[trigger] ps[k].1.covers(x, y)
}

/// Some entry of slot `s` holds id `id` at cell `(x, y)`.
pub open spec fn has_entry(starts: Seq<u32>, ids: Seq<u32>, cells: Seq<(i32, i32)>, s: int, id: u32, x: i32, y: i32) -> bool {
    exists|i: int| starts[s] <= i < starts[s + 1] && #[trigger] ids[i] == id && cells[i] == (x, y)
}

/// Entries laid out for a list of proxies under a slot mask: every entry
/// is a cell of a proxy with that id, every cell of every proxy has an entry
/// within its slot's bounds, and the bounds lie inside the entry array.
pub open spec fn layout_holds(
    ps: Seq<(u32, CellRange)>,
    mask: u32,
    starts: Seq<u32>,
    ids: Seq<u32>,
    cells: Seq<(i32, i32)>,
) -> bool {
    let slots = mask as int + 1;
    &&& mask < 0x8000_0000
    &&& starts.len() == slots + 1
    &&& cells.len() == ids.len()
    &&& forall|s1: int, s2: int| 0 <= s1 <= s2 <= slots ==> #[trigger] starts[s1] <= #[trigger] starts[s2]
    &&& starts[slots] <= ids.len()
    &&& forall|i: int| 0 <= i < ids.len() ==> #[trigger] is_ref(ps, ids[i], cells[i].0 as int, cells[i].1 as int)
    &&& forall|k: int, x: i32, y: i32| 0 <= k < ps.len() && #[trigger] ps[k].1.covers(x as int, y as int) ==>
        has_entry(starts, ids, cells, slot_of(mask, x, y) as int, ps[k].0, x, y)
    &&& forall|x: int, y: int| i32::MIN <= x <= i32::MAX && i32::MIN <= y <= i32::MAX ==>
        #[trigger] cell_hits(ps, x, y) == ids_in(ids, cells, x, y, starts[slot_of(mask, x as i32, y as i32) as int] as int,
            starts[slot_of(mask, x as i32, y as i32) + 1] as int)
}

proof fn lemma_place_in_range(cs: Seq<(i32, i32)>, mask: u32, j: int)
    requires
        0 <= j < cs.len(),
    ensures
        0 <= place(cs, mask, j) < cs.len(),
{
    let s = slot_of(mask, cs[j].0, cs[j].1) as int;
    lemma_place_bounds(cs, mask, j);
    lemma_slot_bound(mask, cs[j].0, cs[j].1);
    lemma_start_mono(cs, mask, 0, s);
    lemma_start_mono(cs, mask, s + 1, mask as int + 1);
    lemma_start_total(cs, mask);
}

/// The entries of a cell's slot that hold that cell list, in order, the
/// flattened references at that cell, in order: counting sort keeps order.
proof fn lemma_segment_ids(
    cs: Seq<(i32, i32)>,
    ids: Seq<u32>,
    mask: u32,
    eids: Seq<u32>,
    ecells: Seq<(i32, i32)>,
    x: int,
    y: int,
    j: int,
)
    requires
        i32::MIN <= x <= i32::MAX,
        i32::MIN <= y <= i32::MAX,
        0 <= j <= cs.len(),
        ids.len() == cs.len(),
        eids.len() == cs.len(),
        ecells.len() == cs.len(),
        forall|jj: int| 0 <= jj < cs.len() ==> eids[#[trigger] place(cs, mask, jj)] == ids[jj],
        forall|jj: int| 0 <= jj < cs.len() ==> ecells[#[trigger] place(cs, mask, jj)] == cs[jj],
    ensures
        ids_in(eids, ecells, x, y, slot_start(cs, mask, slot_of(mask, x as i32, y as i32) as int),
            slot_start(cs, mask, slot_of(mask, x as i32, y as i32) as int)
                + slot_count(cs.take(j), mask, slot_of(mask, x as i32, y as i32) as int))
            == ids_in(ids, cs, x, y, 0, j),
    decreases j,
{
    let s = slot_of(mask, x as i32, y as i32) as int;
    let a = slot_start(cs, mask, s);
    if j > 0 {
        lemma_segment_ids(cs, ids, mask, eids, ecells, x, y, j - 1);
        lemma_count_step(cs, mask, s, j - 1);
        lemma_count_bounds(cs.take(j - 1), mask, s);
        let b = a + slot_count(cs.take(j - 1), mask, s);
        let sj = slot_of(mask, cs[j - 1].0, cs[j - 1].1) as int;
        if sj == s {
            reveal(place);
            assert(place(cs, mask, j - 1) == b);
            assert(eids[b] == ids[j - 1]);
            assert(ecells[b] == cs[j - 1]);
        } else {
            if cs[j - 1].0 == x && cs[j - 1].1 == y {
                assert(cs[j - 1].0 == x as i32 && cs[j - 1].1 == y as i32);
                assert(false);
            }
        }
    } else {
        assert(cs.take(0).len() == 0);
    }
}

/// The flattened references, counted and scattered, give a layout.
proof fn lemma_layout(
    ps: Seq<(u32, CellRange)>,
    ids: Seq<u32>,
    cs: Seq<(i32, i32)>,
    owner: Seq<int>,
    pos: Map<(int, int, int), int>,
    mask: u32,
    starts: Seq<u32>,
    eids: Seq<u32>,
    ecells: Seq<(i32, i32)>,
    src: Seq<int>,
)
    requires
        ids.len() == cs.len(),
        owner.len() == cs.len(),
        forall|j: int| 0 <= j < cs.len() ==> 0 <= #[trigger] owner[j] < ps.len()
            && ps[owner[j]].0 == ids[j]
            && ps[owner[j]].1.covers(cs[j].0 as int, cs[j].1 as int),
        forall|k: int, x: int, y: int| 0 <= k < ps.len() && #[trigger] ps[k].1.covers(x, y) ==> {
            let j = pos[(k, x, y)];
            &&& pos.contains_key((k, x, y))
            &&& 0 <= j < cs.len()
            &&& ids[j] == ps[k].0
            &&& cs[j] == (x as i32, y as i32)
        },
        mask < 0x8000_0000,
        starts.len() == mask as int + 2,
        forall|t: int| 0 <= t <= mask as int + 1 ==> #[trigger] starts[t] == slot_start(cs, mask, t),
        eids.len() == cs.len(),
        ecells.len() == cs.len(),
        src.len() == cs.len(),
        forall|e: int| 0 <= e < cs.len() ==> 0 <= #[trigger] src[e] < cs.len()
            && eids[e] == ids[src[e]] && ecells[e] == cs[src[e]],
        forall|jj: int| 0 <= jj < cs.len() ==> eids[#[trigger] place(cs, mask, jj)] == ids[jj],
        forall|jj: int| 0 <= jj < cs.len() ==> ecells[#[trigger] place(cs, mask, jj)] == cs[jj],
        forall|x: int, y: int| #[trigger] ids_in(ids, cs, x, y, 0, cs.len() as int) == cell_hits(ps, x, y),
    ensures
        layout_holds(ps, mask, starts, eids, ecells),
{
    let slots = mask as int + 1;
    lemma_start_total(cs, mask);
    assert forall|s1: int, s2: int| 0 <= s1 <= s2 <= slots implies #[trigger] starts[s1] <= #[trigger] starts[s2] by {
        lemma_start_mono(cs, mask, s1, s2);
    }
    assert forall|e: int| 0 <= e < eids.len() implies #[trigger] is_ref(ps, eids[e], ecells[e].0 as int, ecells[e].1 as int) by {
        let k = owner[src[e]];
        assert(ps[k].0 == ids[src[e]]);
        assert(ps[k].1.covers(ecells[e].0 as int, ecells[e].1 as int));
    }
    assert forall|k: int, x: i32, y: i32| 0 <= k < ps.len() && #[trigger] ps[k].1.covers(x as int, y as int) implies
        has_entry(starts, eids, ecells, slot_of(mask, x, y) as int, ps[k].0, x, y) by {
        let jf = pos[(k, x as int, y as int)];
        assert(cs[jf] == (x, y));
        lemma_place_bounds(cs, mask, jf);
        lemma_slot_bound(mask, x, y);
        let e = place(cs, mask, jf);
        assert(eids[e] == ps[k].0);
        assert(ecells[e] == (x, y));
    }
    assert(starts[slots] == slot_start(cs, mask, slots));
    assert forall|x: int, y: int| i32::MIN <= x <= i32::MAX && i32::MIN <= y <= i32::MAX implies
        #[trigger] cell_hits(ps, x, y) == ids_in(eids, ecells, x, y, starts[slot_of(mask, x as i32, y as i32) as int] as int,
            starts[slot_of(mask, x as i32, y as i32) + 1] as int) by {
        let s = slot_of(mask, x as i32, y as i32) as int;
        lemma_slot_bound(mask, x as i32, y as i32);
        lemma_segment_ids(cs, ids, mask, eids, ecells, x, y, cs.len() as int);
        assert(cs.take(cs.len() as int) =~= cs);
        assert(ids_in(ids, cs, x, y, 0, cs.len() as int) == cell_hits(ps, x, y));
    }
}

/// A query meets proxy `id`: it is not the excluded one, and some proxy
/// with that id shares a cell with the query.
pub open spec fn hits(ps: Seq<(u32, CellRange)>, query: CellRange, exclude: Option<u32>, id: u32) -> bool {
    &&& exclude != Some(id)
    &&& exists|k: int| 0 <= k < ps.len() && #[trigger] ps[k].0 == id && ps[k].1.overlaps(query)
}

/// The query marks agree with the output: an id is marked with the current
/// generation exactly when it was output, every output id has a mark, and
/// no id is output twice.
pub open spec fn marks_match(marks: Seq<u32>, generation: u32, out: Seq<u32>) -> bool {
    &&& marks.len() <= 0x1_0000_0000
    &&& forall|i: int| 0 <= i < marks.len() ==> #[trigger] marks[i] <= generation
    &&& forall|i: int| 0 <= i < marks.len() ==> (#[trigger] marks[i] == generation <==> out.contains(i as u32))
    &&& forall|j: int| 0 <= j < out.len() ==> (#[trigger] out[j] as int) < marks.len()
    &&& out.no_duplicates()
}

/// Two ranges that overlap share the cell at the larger of their lower
/// corners.
proof fn lemma_overlap_cell(a: CellRange, b: CellRange)
    requires
        a.valid(),
        b.valid(),
        a.overlaps(b),
    ensures
        a.covers(
            if a.min_x < b.min_x { b.min_x as int } else { a.min_x as int },
            if a.min_y < b.min_y { b.min_y as int } else { a.min_y as int },
        ),
        b.covers(
            if a.min_x < b.min_x { b.min_x as int } else { a.min_x as int },
            if a.min_y < b.min_y { b.min_y as int } else { a.min_y as int },
        ),
{
}

/// The broadphase grid over integer cells.
#[derive(Debug, Clone)]
pub struct CellGrid {
    staged: Vec<Staged>,
    /// Total (proxy, cell) references staged; sizes the slot table.
    cell_refs: usize,
    dirty: bool,
    slot_mask: u32,
    /// `slot_starts[s]..slot_starts[s + 1]` bounds slot `s` in the entries.
    slot_starts: Vec<u32>,
    entry_ids: Vec<u32>,
    entry_cells: Vec<(i32, i32)>,
    query_marks: Vec<u32>,
    query_generation: u32,
}

/// Most cell references a grid holds at once.
pub const MAX_CELL_REFS: usize = 0x8000_0000;

impl CellGrid {
    /// The staged proxies in staging order, with the cells they cover.
    pub closed spec fn proxies(&self) -> Seq<(u32, CellRange)> {
        self.staged@.map_values(|s: Staged| (s.id, s.range))
    }

    /// The laid-out entries are those of the staged proxies: every entry is
    /// a cell of a proxy with that id, every cell of every proxy has an
    /// entry within its slot's bounds, and the bounds lie inside the entry
    /// array.
    pub closed spec fn laid_out(&self) -> bool {
        layout_holds(self.proxies(), self.slot_mask, self.slot_starts@, self.entry_ids@, self.entry_cells@)
    }

    /// The grid's invariant.
    pub closed spec fn wf(&self) -> bool {
        &&& forall|k: int| 0 <= k < self.staged@.len() ==> (#[trigger] self.staged@[k]).range.valid()
        &&& self.cell_refs == total_cells(self.proxies())
        &&& self.cell_refs <= MAX_CELL_REFS
        &&& 1 <= self.query_generation
        &&& self.query_marks@.len() <= 0x1_0000_0000
        &&& forall|i: int| 0 <= i < self.query_marks@.len() ==> #[trigger] self.query_marks@[i] < self.query_generation
        &&& !self.dirty ==> self.laid_out()
    }

    /// Number of cell references staged.
    pub closed spec fn staged_cells(&self) -> int {
        total_cells(self.proxies())
    }

    /// An empty grid.
    pub fn new() -> (r: Self)
        ensures
            r.wf(),
            r.proxies() == Seq::<(u32, CellRange)>::empty(),
    {
        let r = CellGrid {
            staged: Vec::new(),
            cell_refs: 0,
            dirty: true,
            slot_mask: 0,
            slot_starts: Vec::new(),
            entry_ids: Vec::new(),
            entry_cells: Vec::new(),
            query_marks: Vec::new(),
            query_generation: 1,
        };
        assert(r.proxies() =~= Seq::<(u32, CellRange)>::empty());
        r
    }

    /// The cell references of the staged proxies: proxy by proxy, row by
    /// row, column by column. Alongside, which proxy each reference belongs
    /// to, and where the reference of each proxy cell stands.
    fn flatten(&self) -> (r: (Vec<u32>, Vec<(i32, i32)>, Ghost<Seq<int>>, Ghost<Map<(int, int, int), int>>))
        requires
            self.wf(),
        ensures
            r.0@.len() == r.1@.len(),
            r.1@.len() == self.staged_cells(),
            r.2@.len() == r.1@.len(),
            forall|j: int| 0 <= j < r.1@.len() ==> 0 <= #[trigger] r.2@[j] < self.proxies().len()
                && self.proxies()[r.2@[j]].0 == r.0@[j]
                && self.proxies()[r.2@[j]].1.covers(r.1@[j].0 as int, r.1@[j].1 as int),
            forall|k: int, x: int, y: int| 0 <= k < self.proxies().len() && #[trigger] self.proxies()[k].1.covers(x, y) ==> {
                let j = r.3@[(k, x, y)];
                &&& r.3@.contains_key((k, x, y))
                &&& 0 <= j < r.1@.len()
                &&& r.0@[j] == self.proxies()[k].0
                &&& r.1@[j] == (x as i32, y as i32)
            },
            forall|x: int, y: int| #[trigger] ids_in(r.0@, r.1@, x, y, 0, r.1@.len() as int) == cell_hits(self.proxies(), x, y),
    {
        let ghost ps = self.proxies();
        let mut ids: Vec<u32> = Vec::new();
        let mut cells: Vec<(i32, i32)> = Vec::new();
        let ghost mut owner: Seq<int> = Seq::empty();
        let ghost mut pos: Map<(int, int, int), int> = Map::empty();
        let mut k: usize = 0;
        while k < self.staged.len()
            invariant
                self.wf(),
                ps == self.proxies(),
                k <= ps.len(),
                ids@.len() == cells@.len(),
                owner.len() == cells@.len(),
                cells@.len() == total_cells(ps.take(k as int)),
                forall|j: int| 0 <= j < cells@.len() ==> 0 <= #[trigger] owner[j] < ps.len()
                    && ps[owner[j]].0 == ids@[j] && ps[owner[j]].1.covers(cells@[j].0 as int, cells@[j].1 as int),
                forall|kk: int, x: int, y: int| 0 <= kk < k && #[trigger] ps[kk].1.covers(x, y) ==> {
                    let j = pos[(kk, x, y)];
                    &&& pos.contains_key((kk, x, y))
                    &&& 0 <= j < cells@.len()
                    &&& ids@[j] == ps[kk].0
                    &&& cells@[j] == (x as i32, y as i32)
                },
                forall|x: int, y: int| #[trigger] ids_in(ids@, cells@, x, y, 0, cells@.len() as int) == cell_hits(ps.take(k as int), x, y),
            decreases ps.len() - k,
        {
            let st = self.staged[k];
            let ghost kk = k as int;
            let ghost base = cells@.len() as int;
            proof {
                assert(ps[kk] == (st.id, st.range));
                assert(st.range.valid());
            }
            let mut y: i64 = st.range.min_y as i64;
            while y <= st.range.max_y as i64
                invariant
                    self.wf(),
                    ps == self.proxies(),
                    k < ps.len(),
                    kk == k,
                    ps[kk] == (st.id, st.range),
                    st.range.valid(),
                    st.range.min_y <= y <= st.range.max_y + 1,
                    ids@.len() == cells@.len(),
                    owner.len() == cells@.len(),
                    base == total_cells(ps.take(kk)),
                    cells@.len() == base + (y - st.range.min_y) * st.range.width(),
                    forall|j: int| 0 <= j < cells@.len() ==> 0 <= #[trigger] owner[j] < ps.len()
                        && ps[owner[j]].0 == ids@[j] && ps[owner[j]].1.covers(cells@[j].0 as int, cells@[j].1 as int),
                    forall|k2: int, x: int, y2: int| (0 <= k2 < kk || (k2 == kk && y2 < y)) && #[trigger] ps[k2].1.covers(x, y2) ==> {
                        let j = pos[(k2, x, y2)];
                        &&& pos.contains_key((k2, x, y2))
                        &&& 0 <= j < cells@.len()
                        &&& ids@[j] == ps[k2].0
                        &&& cells@[j] == (x as i32, y2 as i32)
                    },
                    forall|x: int, y2: int| #[trigger] ids_in(ids@, cells@, x, y2, 0, cells@.len() as int) == cell_hits(ps.take(kk), x, y2)
                        + (if ps[kk].1.covers(x, y2) && y2 < y { seq![ps[kk].0] } else { Seq::empty() }),
                decreases st.range.max_y - y + 1,
            {
                let mut x: i64 = st.range.min_x as i64;
                while x <= st.range.max_x as i64
                    invariant
                        self.wf(),
                        ps == self.proxies(),
                        k < ps.len(),
                        kk == k,
                        ps[kk] == (st.id, st.range),
                        st.range.valid(),
                        st.range.min_y <= y <= st.range.max_y,
                        st.range.min_x <= x <= st.range.max_x + 1,
                        ids@.len() == cells@.len(),
                        owner.len() == cells@.len(),
                        cells@.len() == base + (y - st.range.min_y) * st.range.width() + (x - st.range.min_x),
                        forall|j: int| 0 <= j < cells@.len() ==> 0 <= #[trigger] owner[j] < ps.len()
                            && ps[owner[j]].0 == ids@[j] && ps[owner[j]].1.covers(cells@[j].0 as int, cells@[j].1 as int),
                        forall|k2: int, x2: int, y2: int| (0 <= k2 < kk || (k2 == kk && (y2 < y || (y2 == y && x2 < x))))
                            && #[trigger] ps[k2].1.covers(x2, y2) ==> {
                            let j = pos[(k2, x2, y2)];
                            &&& pos.contains_key((k2, x2, y2))
                            &&& 0 <= j < cells@.len()
                            &&& ids@[j] == ps[k2].0
                            &&& cells@[j] == (x2 as i32, y2 as i32)
                        },
                        forall|x2: int, y2: int| #[trigger] ids_in(ids@, cells@, x2, y2, 0, cells@.len() as int) == cell_hits(ps.take(kk), x2, y2)
                            + (if ps[kk].1.covers(x2, y2) && (y2 < y || (y2 == y && x2 < x)) { seq![ps[kk].0] } else { Seq::empty() }),
                    decreases st.range.max_x - x + 1,
                {
                    let ghost j = cells@.len() as int;
                    let ghost ids_before = ids@;
                    let ghost cells_before = cells@;
                    ids.push(st.id);
                    cells.push((x as i32, y as i32));
                    proof {
                        owner = owner.push(kk);
                        pos = pos.insert((kk, x as int, y as int), j);
                        assert forall|x2: int, y2: int| #[trigger] ids_in(ids@, cells@, x2, y2, 0, cells@.len() as int)
                            == cell_hits(ps.take(kk), x2, y2) + (if ps[kk].1.covers(x2, y2) && (y2 < y || (y2 == y && x2 < x + 1)) {
                                seq![ps[kk].0]
                            } else {
                                Seq::empty()
                            }) by {
                            lemma_ids_in_agree(ids@, cells@, ids_before, cells_before, x2, y2, 0, j);
                            assert(ids_in(ids_before, cells_before, x2, y2, 0, j) == cell_hits(ps.take(kk), x2, y2)
                                + (if ps[kk].1.covers(x2, y2) && (y2 < y || (y2 == y && x2 < x)) { seq![ps[kk].0] } else { Seq::empty() }));
                            if x2 == x && y2 == y {
                                assert(ps[kk].1.covers(x2, y2));
                            }
                        }
                    }
                    x = x + 1;
                }
                proof {
                    let w = st.range.width();
                    let d = y - st.range.min_y;
                    assert((d + 1) * w == d * w + w) by (nonlinear_arith);
                }
                y = y + 1;
            }
            proof {
                let w = st.range.width();
                let h = st.range.height();
                assert(h * w == w * h) by (nonlinear_arith);
                assert(ps.take(kk + 1).drop_last() =~= ps.take(kk));
                assert(ps.take(kk + 1).last() == ps[kk]);
                assert forall|x: int, y2: int| #[trigger] ids_in(ids@, cells@, x, y2, 0, cells@.len() as int)
                    == cell_hits(ps.take(kk + 1), x, y2) by {
                    assert(ids_in(ids@, cells@, x, y2, 0, cells@.len() as int) == cell_hits(ps.take(kk), x, y2)
                        + (if ps[kk].1.covers(x, y2) && y2 < y { seq![ps[kk].0] } else { Seq::empty() }));
                }
            }
            k += 1;
        }
        proof {
            assert(ps.take(ps.len() as int) =~= ps);
        }
        (ids, cells, Ghost(owner), Ghost(pos))
    }

    /// Lay the staged proxies out: count the references per slot, take the
    /// exclusive prefix sum, scatter ids and cells into the entry arrays.
    fn build(&mut self)
        requires
            old(self).wf(),
        ensures
            final(self).wf(),
            !final(self).dirty,
            final(self).proxies() == old(self).proxies(),
            final(self).query_marks == old(self).query_marks,
            final(self).query_generation == old(self).query_generation,
    {
        let ghost ps = self.proxies();
        let (ids, cells, Ghost(owner), Ghost(pos)) = self.flatten();
        let p = next_power_of_two(self.cell_refs as u32);
        let slots: u32 = if p < 64 { 64 } else { p };
        let mask: u32 = slots - 1;
        let ghost cs = cells@;
        let starts = slot_starts_of(&cells, mask);
        let (entry_ids, entry_cells, Ghost(src)) = scatter(&ids, &cells, &starts, mask);
        self.slot_mask = mask;
        self.slot_starts = starts;
        self.entry_ids = entry_ids;
        self.entry_cells = entry_cells;
        self.dirty = false;
        proof {
            lemma_layout(ps, ids@, cs, owner, pos, mask, self.slot_starts@, self.entry_ids@, self.entry_cells@, src);
            assert(self.laid_out());
        }
    }

    /// Start a query: the next generation, with every mark below it.
    fn begin_query(&mut self) -> (generation: u32)
        requires
            old(self).wf(),
        ensures
            final(self).wf(),
            1 <= generation < u32::MAX,
            final(self).query_generation == generation + 1,
            forall|i: int| 0 <= i < final(self).query_marks@.len() ==> #[trigger] final(self).query_marks@[i] < generation,
            final(self).query_marks@.len() == old(self).query_marks@.len(),
            final(self).staged == old(self).staged,
            final(self).cell_refs == old(self).cell_refs,
            final(self).dirty == old(self).dirty,
            final(self).slot_mask == old(self).slot_mask,
            final(self).slot_starts == old(self).slot_starts,
            final(self).entry_ids == old(self).entry_ids,
            final(self).entry_cells == old(self).entry_cells,
    {
        if self.query_generation == u32::MAX {
            let mut i: usize = 0;
            while i < self.query_marks.len()
                invariant
                    i <= self.query_marks@.len(),
                    self.query_marks@.len() == old(self).query_marks@.len(),
                    forall|t: int| 0 <= t < i ==> #[trigger] self.query_marks@[t] == 0,
                    self.staged == old(self).staged,
                    self.cell_refs == old(self).cell_refs,
                    self.dirty == old(self).dirty,
                    self.slot_mask == old(self).slot_mask,
                    self.slot_starts == old(self).slot_starts,
                    self.entry_ids == old(self).entry_ids,
                    self.entry_cells == old(self).entry_cells,
                decreases self.query_marks@.len() - i,
            {
                self.query_marks.set(i, 0);
                i += 1;
            }
            self.query_generation = 1;
        }
        let generation = self.query_generation;
        self.query_generation = generation + 1;
        generation
    }

    /// Scan the slot of cell `(cx, cy)`: output each proxy found at that
    /// exact cell, unless it is excluded or already output.
    fn scan_cell(&mut self, cx: i32, cy: i32, exclude: Option<u32>, generation: u32, out: &mut Vec<u32>)
        requires
            old(self).laid_out(),
            1 <= generation,
            marks_match(old(self).query_marks@, generation, old(out)@),
        ensures
            final(self).laid_out(),
            final(self).staged == old(self).staged,
            final(self).cell_refs == old(self).cell_refs,
            final(self).dirty == old(self).dirty,
            final(self).slot_mask == old(self).slot_mask,
            final(self).slot_starts == old(self).slot_starts,
            final(self).entry_ids == old(self).entry_ids,
            final(self).entry_cells == old(self).entry_cells,
            final(self).query_generation == old(self).query_generation,
            marks_match(final(self).query_marks@, generation, final(out)@),
            old(out)@.len() <= final(out)@.len(),
            forall|j: int| 0 <= j < old(out)@.len() ==> #[trigger] final(out)@[j] == old(out)@[j],
            forall|j: int| old(out)@.len() <= j < final(out)@.len() ==> exclude != Some(#[trigger] final(out)@[j])
                && is_ref(old(self).proxies(), final(out)@[j], cx as int, cy as int),
            forall|k: int| 0 <= k < old(self).proxies().len() && #[trigger] old(self).proxies()[k].1.covers(cx as int, cy as int)
                && exclude != Some(old(self).proxies()[k].0) ==> final(out)@.contains(old(self).proxies()[k].0),
            final(out)@ == add_new(old(out)@, without(cell_hits(old(self).proxies(), cx as int, cy as int), exclude)),
    {
        let ghost ps = self.proxies();
        let ghost out0 = out@;
        let slot = hash_cell(cx, cy) & self.slot_mask;
        proof {
            lemma_slot_bound(self.slot_mask, cx, cy);
        }
        let start = self.slot_starts[slot as usize];
        let end = self.slot_starts[slot as usize + 1];
        let mut i: usize = start as usize;
        while i < end as usize
            invariant
                self.laid_out(),
                ps == self.proxies(),
                self.staged == old(self).staged,
                self.cell_refs == old(self).cell_refs,
                self.dirty == old(self).dirty,
                self.slot_mask == old(self).slot_mask,
                self.slot_starts == old(self).slot_starts,
                self.entry_ids == old(self).entry_ids,
                self.entry_cells == old(self).entry_cells,
                self.query_generation == old(self).query_generation,
                slot == slot_of(self.slot_mask, cx, cy),
                start == self.slot_starts@[slot as int],
                end == self.slot_starts@[slot + 1],
                start <= end <= self.entry_ids@.len(),
                start <= i <= end,
                1 <= generation,
                marks_match(self.query_marks@, generation, out@),
                out0.len() <= out@.len(),
                forall|j: int| 0 <= j < out0.len() ==> #[trigger] out@[j] == out0[j],
                forall|j: int| out0.len() <= j < out@.len() ==> exclude != Some(#[trigger] out@[j])
                    && is_ref(ps, out@[j], cx as int, cy as int),
                forall|e: int| start <= e < i && self.entry_cells@[e] == (cx, cy) && exclude != Some(self.entry_ids@[e])
                    ==> out@.contains(#[trigger] self.entry_ids@[e]),
                out@ == add_new(out0, without(ids_in(self.entry_ids@, self.entry_cells@, cx as int, cy as int, start as int, i as int), exclude)),
            decreases end - i,
        {
            let ghost out_prev = out@;
            let ghost t = ids_in(self.entry_ids@, self.entry_cells@, cx as int, cy as int, start as int, i as int);
            let (ex, ey) = self.entry_cells[i];
            if ex == cx && ey == cy {
                let id = self.entry_ids[i];
                let excluded = match exclude {
                    Some(e) => e == id,
                    None => false,
                };
                if !excluded {
                    proof {
                        assert(is_ref(ps, self.entry_ids@[i as int], ex as int, ey as int));
                    }
                    let index = id as usize;
                    while self.query_marks.len() <= index
                        invariant
                            self.laid_out(),
                            ps == self.proxies(),
                            self.staged == old(self).staged,
                            self.cell_refs == old(self).cell_refs,
                            self.dirty == old(self).dirty,
                            self.slot_mask == old(self).slot_mask,
                            self.slot_starts == old(self).slot_starts,
                            self.entry_ids == old(self).entry_ids,
                            self.entry_cells == old(self).entry_cells,
                            self.query_generation == old(self).query_generation,
                            index == id,
                            marks_match(self.query_marks@, generation, out@),
                            1 <= generation,
                        decreases index + 1 - self.query_marks@.len(),
                    {
                        let ghost before = self.query_marks@;
                        self.query_marks.push(0);
                        proof {
                            assert forall|t: int| 0 <= t < self.query_marks@.len() implies (#[trigger] self.query_marks@[t] == generation
                                <==> out@.contains(t as u32)) by {
                                if t == before.len() {
                                    if out@.contains(t as u32) {
                                        let j = choose|j: int| 0 <= j < out@.len() && out@[j] == t as u32;
                                        assert((out@[j] as int) < before.len());
                                    }
                                }
                            }
                        }
                    }
                    if self.query_marks[index] != generation {
                        let ghost before = self.query_marks@;
                        let ghost out_before = out@;
                        self.query_marks.set(index, generation);
                        out.push(id);
                        proof {
                            assert(!out_before.contains(id));
                            assert forall|t: int| 0 <= t < self.query_marks@.len() implies (#[trigger] self.query_marks@[t] == generation
                                <==> out@.contains(t as u32)) by {
                                if t != index {
                                    assert(before[t] == self.query_marks@[t]);
                                    if out@.contains(t as u32) {
                                        let j = choose|j: int| 0 <= j < out@.len() && out@[j] == t as u32;
                                        if j < out_before.len() {
                                            assert(out_before.contains(t as u32));
                                        }
                                    }
                                    if out_before.contains(t as u32) {
                                        let j = choose|j: int| 0 <= j < out_before.len() && out_before[j] == t as u32;
                                        assert(out@[j] == t as u32);
                                    }
                                } else {
                                    assert(out@[out_before.len() as int] == id);
                                }
                            }
                            assert forall|a: int, b: int| 0 <= a < b < out@.len() implies out@[a] != out@[b] by {
                                if b == out_before.len() {
                                    assert(out_before[a] == out@[a]);
                                }
                            }
                        }
                    }
                    proof {
                        assert(out@.contains(id)) by {
                            assert(self.query_marks@[index as int] == generation);
                        }
                        if out@ == out_prev {
                            assert(out_prev.contains(id));
                        } else {
                            assert(out@ == out_prev.push(id));
                            assert(!out_prev.contains(id));
                        }
                        assert(out@ == (if out_prev.contains(id) { out_prev } else { out_prev.push(id) }));
                    }
                }
            }
            proof {
                let v = self.entry_ids@[i as int];
                assert(ids_in(self.entry_ids@, self.entry_cells@, cx as int, cy as int, start as int, i + 1)
                    == t + (if self.entry_cells@[i as int].0 == cx && self.entry_cells@[i as int].1 == cy { seq![v] } else { Seq::empty() }));
                if self.entry_cells@[i as int].0 == cx && self.entry_cells@[i as int].1 == cy {
                    lemma_without_snoc(t, v, exclude);
                    lemma_add_new_snoc(out0, without(t, exclude), v);
                    if exclude == Some(v) {
                        assert(without(t, exclude) + Seq::<u32>::empty() =~= without(t, exclude));
                    }
                } else {
                    assert(t + Seq::<u32>::empty() =~= t);
                }
                assert(out_prev.len() <= out@.len());
                assert(forall|j: int| 0 <= j < out_prev.len() ==> #[trigger] out@[j] == out_prev[j]);
                assert forall|e: int| start <= e < i + 1 && self.entry_cells@[e] == (cx, cy) && exclude != Some(self.entry_ids@[e])
                    implies out@.contains(#[trigger] self.entry_ids@[e]) by {
                    if e < i {
                        assert(out_prev.contains(self.entry_ids@[e]));
                        let j = choose|j: int| 0 <= j < out_prev.len() && out_prev[j] == self.entry_ids@[e];
                        assert(out@[j] == self.entry_ids@[e]);
                    }
                }
            }
            i += 1;
        }
        proof {
            assert forall|k: int| 0 <= k < ps.len() && #[trigger] ps[k].1.covers(cx as int, cy as int)
                && exclude != Some(ps[k].0) implies out@.contains(ps[k].0) by {
                assert(has_entry(self.slot_starts@, self.entry_ids@, self.entry_cells@, slot as int, ps[k].0, cx, cy));
                let e = choose|e: int| self.slot_starts@[slot as int] <= e < self.slot_starts@[slot + 1]
                    && #[trigger] self.entry_ids@[e] == ps[k].0 && self.entry_cells@[e] == (cx, cy);
                assert(self.entry_ids@[e] == ps[k].0);
            }
        }
    }

    /// Collect the unique proxies that share a cell with `query`, other than
    /// `exclude`; `out` is cleared first. They come in the order the query's
    /// cells are visited, row by row and each row left to right, and within
    /// a cell in staging order. The first query after staging lays the
    /// entries out.
    pub fn query(&mut self, query: CellRange, exclude: Option<u32>, out: &mut Vec<u32>)
        requires
            old(self).wf(),
            query.valid(),
        ensures
            final(self).wf(),
            final(self).proxies() == old(self).proxies(),
            final(out)@.no_duplicates(),
            forall|id: u32| final(out)@.contains(id) <==> #[trigger] hits(old(self).proxies(), query, exclude, id),
            final(out)@ == scan_upto(old(self).proxies(), query, exclude, query.max_y + 1, query.min_x as int),
    {
        out.clear();
        if self.dirty {
            self.build();
        }
        let ghost ps = self.proxies();
        if self.entry_ids.len() == 0 {
            proof {
                if ps.len() > 0 {
                    let r = ps[0].1;
                    assert(self.staged@[0].range.valid());
                    assert(ps[0].1.covers(r.min_x as int, r.min_y as int));
                    let sl = slot_of(self.slot_mask, r.min_x, r.min_y) as int;
                    lemma_slot_bound(self.slot_mask, r.min_x, r.min_y);
                    assert(has_entry(self.slot_starts@, self.entry_ids@, self.entry_cells@, sl, ps[0].0, r.min_x, r.min_y));
                    let i = choose|i: int| self.slot_starts@[sl] <= i < self.slot_starts@[sl + 1]
                        && #[trigger] self.entry_ids@[i] == ps[0].0 && self.entry_cells@[i] == (r.min_x, r.min_y);
                    assert(self.slot_starts@[sl + 1] <= self.slot_starts@[self.slot_mask as int + 1]);
                }
                assert forall|id: u32| out@.contains(id) <==> #[trigger] hits(ps, query, exclude, id) by {
                    assert(ps.len() == 0);
                }
                lemma_scan_empty(ps, query, exclude, query.max_y + 1, query.min_x as int);
                assert(out@ =~= Seq::<u32>::empty());
            }
            return;
        }
        let generation = self.begin_query();
        proof {
            assert(out@ =~= Seq::<u32>::empty());
        }
        let mut y: i64 = query.min_y as i64;
        while y <= query.max_y as i64
            invariant
                self.wf(),
                !self.dirty,
                ps == self.proxies(),
                query.valid(),
                self.query_generation == generation + 1,
                1 <= generation,
                marks_match(self.query_marks@, generation, out@),
                query.min_y <= y <= query.max_y + 1,
                forall|j: int| 0 <= j < out@.len() ==> #[trigger] hits(ps, query, exclude, out@[j]),
                forall|k: int, cx: int, cy: int| 0 <= k < ps.len() && #[trigger] ps[k].1.covers(cx, cy) && query.covers(cx, cy)
                    && cy < y && exclude != Some(ps[k].0) ==> out@.contains(ps[k].0),
                out@ == scan_upto(ps, query, exclude, y as int, query.min_x as int),
            decreases query.max_y - y + 1,
        {
            let mut x: i64 = query.min_x as i64;
            while x <= query.max_x as i64
                invariant
                    self.wf(),
                    !self.dirty,
                    ps == self.proxies(),
                    query.valid(),
                    self.query_generation == generation + 1,
                    1 <= generation,
                    marks_match(self.query_marks@, generation, out@),
                    query.min_y <= y <= query.max_y,
                    query.min_x <= x <= query.max_x + 1,
                    forall|j: int| 0 <= j < out@.len() ==> #[trigger] hits(ps, query, exclude, out@[j]),
                    forall|k: int, cx: int, cy: int| 0 <= k < ps.len() && #[trigger] ps[k].1.covers(cx, cy) && query.covers(cx, cy)
                        && (cy < y || (cy == y && cx < x)) && exclude != Some(ps[k].0) ==> out@.contains(ps[k].0),
                    out@ == scan_upto(ps, query, exclude, y as int, x as int),
                decreases query.max_x - x + 1,
            {
                let ghost out_prev = out@;
                let cx = x as i32;
                let cy = y as i32;
                self.scan_cell(cx, cy, exclude, generation, out);
                proof {
                    assert forall|j: int| 0 <= j < out@.len() implies #[trigger] hits(ps, query, exclude, out@[j]) by {
                        if j < out_prev.len() {
                            assert(out@[j] == out_prev[j]);
                        } else {
                            assert(is_ref(ps, out@[j], cx as int, cy as int));
                            let k = choose|k: int| 0 <= k < ps.len() && ps[k].0 == out@[j] && #[trigger] ps[k].1.covers(cx as int, cy as int);
                            assert(ps[k].1.overlaps(query));
                        }
                    }
                    assert forall|k: int, cx2: int, cy2: int| 0 <= k < ps.len() && #[trigger] ps[k].1.covers(cx2, cy2) && query.covers(cx2, cy2)
                        && (cy2 < y || (cy2 == y && cx2 < x + 1)) && exclude != Some(ps[k].0) implies out@.contains(ps[k].0) by {
                        if cy2 < y || (cy2 == y && cx2 < x) {
                            assert(out_prev.contains(ps[k].0));
                            let j = choose|j: int| 0 <= j < out_prev.len() && out_prev[j] == ps[k].0;
                            assert(out@[j] == out_prev[j]);
                        } else {
                            assert(cx2 == cx && cy2 == cy);
                        }
                    }
                    assert(scan_upto(ps, query, exclude, y as int, x + 1) == add_new(scan_upto(ps, query, exclude, y as int, x as int),
                        without(cell_hits(ps, x as int, y as int), exclude)));
                }
                x = x + 1;
            }
            proof {
                assert(scan_upto(ps, query, exclude, y + 1, query.min_x as int) == scan_upto(ps, query, exclude, y as int, query.max_x + 1));
            }
            y = y + 1;
        }
        proof {
            assert forall|id: u32| out@.contains(id) <==> #[trigger] hits(ps, query, exclude, id) by {
                if out@.contains(id) {
                    let j = choose|j: int| 0 <= j < out@.len() && out@[j] == id;
                    assert(hits(ps, query, exclude, out@[j]));
                }
                if hits(ps, query, exclude, id) {
                    let k = choose|k: int| 0 <= k < ps.len() && #[trigger] ps[k].0 == id && ps[k].1.overlaps(query);
                    assert(self.staged@[k].range.valid());
                    lemma_overlap_cell(ps[k].1, query);
                    let cx = if ps[k].1.min_x < query.min_x { query.min_x as int } else { ps[k].1.min_x as int };
                    let cy = if ps[k].1.min_y < query.min_y { query.min_y as int } else { ps[k].1.min_y as int };
                    assert(ps[k].1.covers(cx, cy));
                }
            }
        }
    }

    /// Number of cell references staged; staging needs the total to stay
    /// within `MAX_CELL_REFS`.
    pub fn cell_refs(&self) -> (r: usize)
        requires
            self.wf(),
        ensures
            r == self.staged_cells(),
    {
        self.cell_refs
    }

    /// Discard every staged proxy and the laid-out entries.
    pub fn clear(&mut self)
        requires
            old(self).wf(),
        ensures
            final(self).wf(),
            final(self).proxies() == Seq::<(u32, CellRange)>::empty(),
    {
        self.staged.clear();
        self.cell_refs = 0;
        self.entry_ids.clear();
        self.entry_cells.clear();
        self.dirty = true;
        assert(self.proxies() =~= Seq::<(u32, CellRange)>::empty());
    }

    /// Stage `id` for every cell of `range`; the layout is rebuilt on the
    /// next query.
    pub fn insert(&mut self, id: u32, range: CellRange)
        requires
            old(self).wf(),
            range.valid(),
            id < u32::MAX,
            old(self).staged_cells() + range.cell_count() <= MAX_CELL_REFS,
        ensures
            final(self).wf(),
            final(self).proxies() == old(self).proxies().push((id, range)),
    {
        let w = (range.max_x as i64 - range.min_x as i64 + 1) as u64;
        let h = (range.max_y as i64 - range.min_y as i64 + 1) as u64;
        proof {
            assert(w * h == range.cell_count());
            assert(range.cell_count() <= MAX_CELL_REFS);
        }
        let span = (w * h) as usize;
        self.cell_refs = self.cell_refs + span;
        self.staged.push(Staged { id, range });
        self.dirty = true;
        proof {
            assert(self.proxies() =~= old(self).proxies().push((id, range)));
            assert(self.proxies().drop_last() =~= old(self).proxies());
        }
    }
}

} // verus!
