//! The grid: a flat store of countdown cells with a border of walls.

use rand::seq::IteratorRandom;
use vstd::prelude::*;

verus! {

/// Side length of the playable area.
pub const N: usize = 10;

/// Side length of the grid, border included.
pub const N2: usize = 12;

/// Number of cells of the grid.
pub const N_POINTS: usize = 144;

/// `p` is a cell of the one-cell border around the playable area.
pub open spec fn is_border(p: int) -> bool {
    0 <= p < 144 && (p / 12 == 0 || p / 12 == 11 || p % 12 == 0 || p % 12 == 11)
}

/// `p` is a cell of the playable area.
pub open spec fn is_interior(p: int) -> bool {
    0 <= p < 144 && 1 <= p / 12 <= 10 && 1 <= p % 12 <= 10
}

/// One step of decay on a single cell: one less, but never below the item
/// marker.
pub open spec fn decayed(v: i32) -> i32 {
    if v == i32::MIN {
        v
    } else {
        (v - 1) as i32
    }
}

/// One step of decay on every cell.
pub open spec fn decay_all(cells: Seq<i32>) -> Seq<i32> {
    Seq::new(cells.len(), |i: int| decayed(cells[i]))
}

/// `k` steps of decay on every cell.
pub open spec fn decay_times(cells: Seq<i32>, k: nat) -> Seq<i32>
    decreases k,
{
    if k == 0 {
        cells
    } else {
        decay_all(decay_times(cells, (k - 1) as nat))
    }
}

/// The cells of a grid that was just built: walls on the border, empty inside.
pub open spec fn fresh_cells() -> Seq<i32> {
    Seq::new(
        144,
        |p: int|
            if is_border(p) {
                i32::MAX
            } else {
                0i32
            },
    )
}

/// The head may enter a cell with this value.
pub open spec fn traversable(v: i32) -> bool {
    v <= 0
}

/// The positions of `cells` that hold a positive value.
pub open spec fn blocked_cells(cells: Seq<i32>) -> Set<int> {
    Set::new(|p: int| 0 <= p < cells.len() && cells[p] > 0)
}

/// The positions of `cells` that hold exactly the wall marker.
pub open spec fn wall_cells(cells: Seq<i32>) -> Set<int> {
    Set::new(|p: int| 0 <= p < cells.len() && cells[p] == i32::MAX)
}

/// The positions of `cells` that hold the item marker.
pub open spec fn item_cells(cells: Seq<i32>) -> Set<int> {
    Set::new(|p: int| 0 <= p < cells.len() && cells[p] == i32::MIN)
}

/// The border cells below position `n`.
pub open spec fn border_below(n: int) -> Set<int> {
    Set::new(|p: int| 0 <= p < n && is_border(p))
}

/// How many border cells lie below position `n`: the whole top row, two per
/// row of the playable area, the whole bottom row.
pub open spec fn border_count(n: int) -> int {
    if n <= 12 {
        n
    } else if n <= 132 {
        12 + 2 * ((n - 12) / 12) + if (n - 12) % 12 > 0 {
            1int
        } else {
            0int
        }
    } else {
        n - 100
    }
}

/// The border cells below `n` are finitely many, and `border_count` counts
/// them.
pub proof fn lemma_border_below(n: int)
    requires
        0 <= n <= 144,
    ensures
        border_below(n).finite(),
        border_below(n).len() == border_count(n),
    decreases n,
{
    if n == 0 {
        assert(border_below(0) =~= Set::<int>::empty());
    } else {
        lemma_border_below(n - 1);
        if is_border(n - 1) {
            assert(border_below(n) =~= border_below(n - 1).insert(n - 1));
        } else {
            assert(border_below(n) =~= border_below(n - 1));
        }
    }
}

/// After `k` turns of decay a cell holds `k` less than before, or the item
/// marker where that would go below it.
pub proof fn lemma_decay_times(cells: Seq<i32>, k: nat, p: int)
    requires
        0 <= p < cells.len(),
    ensures
        decay_times(cells, k).len() == cells.len(),
        decay_times(cells, k)[p] == if cells[p] - k >= i32::MIN {
            cells[p] - k
        } else {
            i32::MIN as int
        },
    decreases k,
{
    if k > 0 {
        lemma_decay_times(cells, (k - 1) as nat, p);
    }
}

/// Decay saturates: a cell at the item marker stays there, however often the
/// grid ages.
pub proof fn lemma_decay_saturates(cells: Seq<i32>, k: nat, p: int)
    requires
        0 <= p < cells.len(),
        cells[p] == i32::MIN,
    ensures
        decay_times(cells, k)[p] == i32::MIN,
{
    lemma_decay_times(cells, k, p);
}

/// A segment written with a countdown vacates its cell after exactly that
/// many turns of decay, and not before.
pub proof fn lemma_segment_vacates(cells: Seq<i32>, k: nat, p: int)
    requires
        0 <= p < cells.len(),
        cells[p] > 0,
    ensures
        traversable(decay_times(cells, k)[p]) <==> k >= cells[p],
{
    lemma_decay_times(cells, k, p);
}

/// A grid that was just built has 44 wall cells, four times eleven: its
/// border and nothing else.
pub proof fn lemma_fresh_walls()
    ensures
        wall_cells(fresh_cells()) == border_below(144),
        wall_cells(fresh_cells()).finite(),
        wall_cells(fresh_cells()).len() == 4 * (N + 1),
{
    lemma_border_below(144);
    assert(wall_cells(fresh_cells()) =~= border_below(144));
}

/// The walls of a grid that was just built stay walls while it ages: after
/// `k` turns of decay, for any `k` below the wall marker, the border cells
/// are still the blocked cells, all 44 of them, and none is the item. (At
/// `k` equal to the wall marker they have decayed to zero.)
pub proof fn lemma_walls_stand(k: nat)
    requires
        k < i32::MAX,
    ensures
        blocked_cells(decay_times(fresh_cells(), k)) == border_below(144),
        blocked_cells(decay_times(fresh_cells(), k)).len() == 4 * (N + 1),
        forall|p: int| is_border(p) ==> #[trigger] decay_times(fresh_cells(), k)[p] == i32::MAX - k,
        item_cells(decay_times(fresh_cells(), k)) == Set::<int>::empty(),
{
    let aged = decay_times(fresh_cells(), k);
    lemma_border_below(144);
    assert forall|p: int| 0 <= p < 144 implies #[trigger] aged[p] == (if is_border(p) {
        i32::MAX - k
    } else {
        -k
    }) && aged.len() == 144 by {
        lemma_decay_times(fresh_cells(), k, p);
    }
    lemma_decay_times(fresh_cells(), k, 0);
    assert(blocked_cells(aged) =~= border_below(144));
    assert(item_cells(aged) =~= Set::<int>::empty());
}

/// Picks one of `candidates` at random: `rand::seq::IteratorRandom::choose`
/// on the items of the list, fed by the generator of `rand::thread_rng`.
/// Believed of it, and not proved: nothing comes back exactly when the list is
/// empty, and what comes back is an item of the list. Which item is left
/// open, since it depends on chance. The generator itself panics only where
/// the system has no seed to give it, on first use or at a later reseed.
#[verifier::external_body]
fn choose_candidate(candidates: &Vec<usize>) -> (r: Option<usize>)
    ensures
        r is None <==> candidates@.len() == 0,
        r matches Some(p) ==> candidates@.contains(p),
{
    let mut rng = rand::thread_rng();
    candidates.iter().copied().choose(&mut rng)
}

/// The grid, row by row. A positive cell is blocked, by a wall or by a body
/// segment that leaves when its countdown runs out; the lowest value marks
/// the item; any other cell is empty.
pub struct Field {
    field: [i32; N_POINTS],
}

impl View for Field {
    type V = Seq<i32>;

    closed spec fn view(&self) -> Seq<i32> {
        self.field@
    }
}

impl Default for Field {
    fn default() -> (r: Self)
        ensures
            r@ == fresh_cells(),
    {
        Self::new()
    }
}

impl Field {
    /// Every grid has the same number of cells.
    pub broadcast proof fn lemma_len(&self)
        ensures
            #[trigger] self@.len() == 144,
    {
    }

    /// A grid with walls on its border and nothing inside.
    pub fn new() -> (r: Self)
        ensures
            r@ == fresh_cells(),
    {
        let mut field: [i32; N_POINTS] = [0i32; N_POINTS];
        let mut p: usize = 0;
        while p < N_POINTS
            invariant
                p <= 144,
                forall|q: int| 0 <= q < p ==> field@[q] == fresh_cells()[q],
                forall|q: int| p <= q < 144 ==> field@[q] == 0i32,
            decreases N_POINTS - p,
        {
            let row: usize = p / N2;
            let col: usize = p % N2;
            if row == 0 || row == N2 - 1 || col == 0 || col == N2 - 1 {
                field[p] = i32::MAX;
            }
            p += 1;
        }
        assert(field@ =~= fresh_cells());
        Field { field }
    }

    /// Ages every cell by one turn.
    pub fn make_turn(&mut self)
        ensures
            final(self)@ == decay_all(old(self)@),
    {
        let mut p: usize = 0;
        while p < N_POINTS
            invariant
                p <= 144,
                forall|q: int| 0 <= q < p ==> self.field@[q] == decayed(old(self).field@[q]),
                forall|q: int| p <= q < 144 ==> self.field@[q] == old(self).field@[q],
            decreases N_POINTS - p,
        {
            let v: i32 = self.field[p];
            if v > i32::MIN {
                self.field[p] = v - 1;
            }
            p += 1;
        }
        assert(self.field@ =~= decay_all(old(self).field@));
    }

    /// Writes `value` into the cell at `position`.
    pub fn set_point(&mut self, position: usize, value: i32)
        requires
            position < N_POINTS,
        ensures
            final(self)@ == old(self)@.update(position as int, value),
    {
        self.field[position] = value;
    }

    /// The value of the cell at `position`.
    pub fn get_point(&self, position: usize) -> (r: i32)
        requires
            position < N_POINTS,
        ensures
            r == self@[position as int],
    {
        self.field[position]
    }

    /// Whether the head may enter the cell at `position`.
    pub fn is_valid(&self, position: usize) -> (r: bool)
        requires
            position < N_POINTS,
        ensures
            r == traversable(self@[position as int]),
    {
        !(self.field[position] > 0)
    }

    /// Whether the cell at `position` holds the item.
    pub fn is_fruit(&self, position: usize) -> (r: bool)
        requires
            position < N_POINTS,
        ensures
            r == (self@[position as int] == i32::MIN),
    {
        self.field[position] == i32::MIN
    }

    /// The positions that the head may enter, in rising order.
    pub fn free_cells(&self) -> (r: Vec<usize>)
        ensures
            forall|i: int| 0 <= i < r@.len() ==> (#[trigger] r@[i]) < 144 && traversable(self@[r@[i] as int]),
            forall|p: int| 0 <= p < 144 && traversable(#[trigger] self@[p]) ==> r@.contains(p as usize),
            forall|i: int, j: int| 0 <= i < j < r@.len() ==> r@[i] < r@[j],
    {
        let mut free: Vec<usize> = Vec::new();
        let mut p: usize = 0;
        while p < N_POINTS
            invariant
                p <= 144,
                forall|i: int| 0 <= i < free@.len() ==> (#[trigger] free@[i]) < p && traversable(self@[free@[i] as int]),
                forall|q: int| 0 <= q < p && traversable(#[trigger] self@[q]) ==> free@.contains(q as usize),
                forall|i: int, j: int| 0 <= i < j < free@.len() ==> free@[i] < free@[j],
            decreases N_POINTS - p,
        {
            if self.field[p] <= 0 {
                let ghost before = free@;
                free.push(p);
                assert(free@[before.len() as int] == p);
                assert forall|q: int| 0 <= q < p + 1 && traversable(#[trigger] self@[q]) implies free@.contains(q as usize) by {
                    if q < p {
                        let i = choose|i: int| 0 <= i < before.len() && before[i] == q as usize;
                        assert(free@[i] == q as usize);
                    }
                }
            }
            p += 1;
        }
        free
    }

    /// Puts the item where `pick` says. Without a pick nothing changes and the
    /// grid is reported as full.
    pub fn place_fruit(&mut self, pick: Option<usize>) -> (full: bool)
        requires
            pick matches Some(p) ==> p < N_POINTS,
        ensures
            full == (pick is None),
            pick is None ==> final(self)@ == old(self)@,
            pick matches Some(p) ==> final(self)@ == old(self)@.update(p as int, i32::MIN),
    {
        match pick {
            Some(p) => {
                self.field[p] = i32::MIN;
                false
            },
            None => true,
        }
    }

    /// Puts the item on a cell picked at random among those that the head may
    /// enter. Where there is none the grid is full: nothing changes and `true`
    /// comes back.
    pub fn spawn_fruit(&mut self) -> (full: bool)
        ensures
            full <==> (forall|p: int| 0 <= p < 144 ==> !traversable(#[trigger] old(self)@[p])),
            full ==> final(self)@ == old(self)@,
            !full ==> exists|p: int|
                0 <= p < 144 && traversable(#[trigger] old(self)@[p]) && final(self)@ == old(self)@.update(
                    p,
                    i32::MIN,
                ),
    {
        let free = self.free_cells();
        let pick = choose_candidate(&free);
        proof {
            match pick {
                Some(p) => {
                    let i = choose|i: int| 0 <= i < free@.len() && free@[i] == p;
                    assert(traversable(self@[free@[i] as int]));
                },
                None => {
                    assert forall|p: int| 0 <= p < 144 implies !traversable(#[trigger] self@[p]) by {
                        if traversable(self@[p]) {
                            assert(free@.contains(p as usize));
                        }
                    }
                },
            }
        }
        let full = self.place_fruit(pick);
        proof {
            if let Some(p) = pick {
                assert(traversable(old(self)@[p as int]));
            }
        }
        full
    }
}

} // verus!
