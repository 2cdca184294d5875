//! The engine: one grid, one snake, the score, and the turn that moves them.

use vstd::prelude::*;
use crate::field::{
    blocked_cells, border_below, decay_all, fresh_cells, is_border, is_interior, item_cells,
    traversable, Field, N2, N_POINTS,
};
use crate::snake::{step_from, turned, Direction, Snake, START};

verus! {

/// How a turn ended.
#[derive(Copy, Clone, Debug, PartialEq, Eq, Structural)]
pub enum Outcome {
    /// The head ran into a wall or into the body: the game is lost.
    Collision,
    /// The item was eaten and no cell is left for the next one: the game is
    /// won.
    Won,
    /// The game goes on; the flag says whether the item was eaten this turn.
    Ongoing(bool),
}

/// What a game is, as plain values.
pub struct GameState {
    pub cells: Seq<i32>,
    pub direction: Direction,
    pub length: int,
    pub position: int,
    pub score: int,
    pub highscore: int,
}

/// The cells of the playable area that a body segment occupies.
pub open spec fn body_cells(cells: Seq<i32>) -> Set<int> {
    Set::new(|p: int| is_interior(p) && cells[p] > 0)
}

/// Some cell of the playable area holds the countdown `v`.
pub open spec fn holds(cells: Seq<i32>, v: int) -> bool {
    exists|p: int| is_interior(p) && #[trigger] cells[p] == v
}

/// The item lies at `p` and nowhere else.
pub open spec fn fruit_at(cells: Seq<i32>, p: int) -> bool {
    &&& 0 <= p < 144
    &&& cells[p] == i32::MIN
    &&& forall|q: int| 0 <= q < 144 && #[trigger] cells[q] == i32::MIN ==> q == p
}

impl GameState {
    /// The cell that the head enters on the next turn.
    pub open spec fn target(self) -> int {
        step_from(self.position, self.direction)
    }

    /// The head is about to eat the item.
    pub open spec fn eats(self) -> bool {
        self.cells[self.target()] == i32::MIN
    }

    /// The grid as the head finds it on the next turn: aged by one step,
    /// unless the head eats, which freezes the tail for that turn.
    pub open spec fn aged(self) -> Seq<i32> {
        if self.eats() {
            self.cells
        } else {
            decay_all(self.cells)
        }
    }

    /// The next turn stays within what the machine can hold: the head stays
    /// on the grid, and the length and the score have room to grow if the
    /// head eats.
    pub open spec fn can_tick(self) -> bool {
        &&& 0 <= self.target() < 144
        &&& self.eats() ==> self.length < i32::MAX && self.score + 10 <= u32::MAX
    }

    /// The walls have more than one turn of decay left in them.
    pub open spec fn walls_last(self) -> bool {
        self.cells[0] > 1
    }

    /// The tail has reached its full length: the body has left a cell at
    /// least once.
    pub open spec fn settled(self) -> bool {
        holds(self.cells, 1)
    }

    /// A game that has just begun: a snake of length two beside the centre
    /// of the grid, heading down, written into an otherwise empty grid with
    /// one item on some other cell of the playable area, and no score.
    pub open spec fn is_fresh(self, highscore: int) -> bool {
        &&& self.direction == Direction::Down
        &&& self.length == 2
        &&& self.position == START
        &&& self.score == 0
        &&& self.highscore == highscore
        &&& exists|p: int|
            is_interior(p) && p != START && #[trigger] self.cells[p] == i32::MIN && self.cells
                == fresh_cells().update(START as int, 2i32).update(p, i32::MIN)
    }

    /// The invariant of a game that goes on.
    pub open spec fn wf(self) -> bool {
        &&& self.cells.len() == 144
        &&& is_interior(self.position)
        &&& self.length >= 2
        &&& self.score == 10 * (self.length - 2)
        &&& self.cells[self.position] == self.length
        // the walls stand, all of one height
        &&& self.cells[0] >= 1
        &&& forall|p: int| is_border(p) ==> #[trigger] self.cells[p] == self.cells[0]
        // inside, no countdown is above the length, and decay has not yet
        // taken an empty cell down to the item marker
        &&& forall|p: int|
            is_interior(p) ==> (#[trigger] self.cells[p]) <= self.length && (self.cells[p]
                == i32::MIN || self.cells[p] >= self.cells[0] - i32::MAX)
        // the body's countdowns differ from each other, and none is missing
        // from 2 up to the length
        &&& forall|p: int, q: int|
            is_interior(p) && is_interior(q) && (#[trigger] self.cells[p]) > 0 && self.cells[p] == (
            #[trigger] self.cells[q]) ==> p == q
        &&& forall|v: int| 2 <= v <= self.length ==> #[trigger] holds(self.cells, v)
        // there is one item
        &&& exists|p: int| #[trigger] fruit_at(self.cells, p)
        // the body has as many cells as the snake is long, less one until
        // the tail has settled
        &&& body_cells(self.cells).finite()
        &&& body_cells(self.cells).len() == if self.settled() {
            self.length
        } else {
            self.length - 1
        }
    }
}

/// A game: the grid, the snake on it, the score of this game and the high
/// score carried in from the games before.
pub struct Game {
    field: Field,
    snake: Snake,
    score: u32,
    highscore: u32,
}

impl View for Game {
    type V = GameState;

    closed spec fn view(&self) -> GameState {
        GameState {
            cells: self.field@,
            direction: self.snake.direction(),
            length: self.snake.length(),
            position: self.snake.position(),
            score: self.score as int,
            highscore: self.highscore as int,
        }
    }
}

/// The body fits into the playable area, which has a hundred cells.
proof fn lemma_body_bound(cells: Seq<i32>)
    ensures
        body_cells(cells).finite(),
        body_cells(cells).len() <= 100,
{
    let range = vstd::set_lib::set_int_range(0, 144);
    let border = crate::field::border_below(144);
    let inside = range.difference(border);
    vstd::set_lib::lemma_int_range(0, 144);
    crate::field::lemma_fresh_walls();
    vstd::set_lib::lemma_set_difference_len(range, border);
    assert(range.intersect(border) =~= border);
    assert forall|p: int| body_cells(cells).contains(p) implies inside.contains(p) by {}
    vstd::set_lib::lemma_len_subset(body_cells(cells), inside);
}

/// A turn without the item, onto a free cell, keeps the invariant and leaves
/// the body as long as the snake.
pub proof fn lemma_advance(s: GameState, t: GameState)
    requires
        s.wf(),
        s.walls_last(),
        0 <= s.target() < 144,
        !s.eats(),
        traversable(s.aged()[s.target()]),
        t == (GameState { cells: s.aged().update(s.target(), s.length as i32), position: s.target(), ..s }),
    ensures
        t.wf(),
        t.settled(),
{
    let c = s.cells;
    let d = t.cells;
    let n = s.target();
    let len = s.length;
    assert(is_border(0));
    assert(is_border(n) || is_interior(n));
    assert(is_interior(n)) by {
        if is_border(n) {
            assert(c[n] == c[0]);
        }
    }
    assert forall|p: int| 0 <= p < 144 && p != n implies #[trigger] d[p] == c[p] - 1 || (c[p] == i32::MIN && d[p]
        == i32::MIN) by {
        assert(d[p] == crate::field::decayed(c[p]));
    }
    assert forall|p: int| is_border(p) implies #[trigger] d[p] == d[0] by {
        assert(c[p] == c[0]);
    }
    assert forall|p: int| is_interior(p) implies (#[trigger] d[p]) <= len && (d[p] == i32::MIN || d[p] >= d[0]
        - i32::MAX) by {
        assert(c[p] <= len);
    }
    assert forall|p: int, q: int|
        is_interior(p) && is_interior(q) && (#[trigger] d[p]) > 0 && d[p] == (#[trigger] d[q]) implies p == q by {
        assert(c[p] <= len && c[q] <= len);
        if p != n && q != n {
            assert(c[p] == c[q]);
        }
    }
    assert forall|v: int| 2 <= v <= len implies #[trigger] holds(d, v) by {
        if v == len {
            assert(d[n] == v);
        } else {
            assert(holds(c, v + 1));
            let p = choose|p: int| is_interior(p) && #[trigger] c[p] == v + 1;
            assert(d[p] == v);
        }
    }
    let f = choose|f: int| #[trigger] fruit_at(c, f);
    assert(fruit_at(d, f)) by {
        assert(d[f] == i32::MIN);
        assert forall|q: int| 0 <= q < 144 && #[trigger] d[q] == i32::MIN implies q == f by {
            assert(is_border(q) || is_interior(q));
            assert(c[q] == i32::MIN);
        }
    }
    assert(holds(c, 2));
    let two = choose|p: int| is_interior(p) && #[trigger] c[p] == 2;
    assert(d[two] == 1);
    assert(holds(d, 1));
    if s.settled() {
        let one = choose|p: int| is_interior(p) && #[trigger] c[p] == 1;
        assert(c[one] == 1);
        assert forall|p: int| body_cells(d).contains(p) <==> body_cells(c).remove(one).insert(n).contains(p) by {
            if is_interior(p) && p != n {
                assert(d[p] == c[p] - 1 || d[p] == i32::MIN);
                if c[p] == 1 {
                    assert(c[p] == c[one]);
                }
            }
        }
        assert(body_cells(d) =~= body_cells(c).remove(one).insert(n));
        assert(!body_cells(c).remove(one).contains(n)) by {
            if c[n] > 0 {
                assert(c[n] == c[one]);
            }
        }
    } else {
        assert forall|p: int| body_cells(d).contains(p) <==> body_cells(c).insert(n).contains(p) by {
            if is_interior(p) && p != n {
                assert(d[p] == c[p] - 1 || d[p] == i32::MIN);
                if c[p] == 1 {
                    assert(holds(c, 1));
                }
            }
        }
        assert(body_cells(d) =~= body_cells(c).insert(n));
        assert(!body_cells(c).contains(n)) by {
            if c[n] > 0 {
                assert(c[n] == 1);
                assert(holds(c, 1));
            }
        }
    }
}

/// A turn that eats the item and finds a cell for the next one keeps the
/// invariant, and a settled tail stays settled.
pub proof fn lemma_feed(s: GameState, t: GameState, spot: int)
    requires
        s.wf(),
        0 <= s.target() < 144,
        s.eats(),
        0 <= spot < 144,
        traversable(s.cells.update(s.target(), (s.length + 1) as i32)[spot]),
        s.length < i32::MAX,
        t == (GameState {
            cells: s.cells.update(s.target(), (s.length + 1) as i32).update(spot, i32::MIN),
            position: s.target(),
            length: s.length + 1,
            score: s.score + 10,
            ..s
        }),
    ensures
        t.wf(),
        t.settled() == s.settled(),
{
    let c = s.cells;
    let d = t.cells;
    let n = s.target();
    let len = s.length;
    assert(is_border(0));
    assert(is_border(n) || is_interior(n));
    assert(is_border(spot) || is_interior(spot));
    assert(is_interior(n)) by {
        if is_border(n) {
            assert(c[n] == c[0]);
        }
    }
    assert(spot != n);
    assert(is_interior(spot)) by {
        if is_border(spot) {
            assert(c[spot] == c[0]);
        }
    }
    assert(c[spot] <= 0);
    assert forall|p: int| is_border(p) implies #[trigger] d[p] == d[0] by {
        assert(c[p] == c[0]);
    }
    assert forall|p: int| is_interior(p) implies (#[trigger] d[p]) <= len + 1 && (d[p] == i32::MIN || d[p] >= d[0]
        - i32::MAX) by {
        assert(c[p] <= len);
    }
    assert forall|p: int, q: int|
        is_interior(p) && is_interior(q) && (#[trigger] d[p]) > 0 && d[p] == (#[trigger] d[q]) implies p == q by {
        assert(c[p] <= len && c[q] <= len);
        if p != n && q != n {
            assert(c[p] == c[q]);
        }
    }
    assert forall|v: int| 2 <= v <= len + 1 implies #[trigger] holds(d, v) by {
        if v == len + 1 {
            assert(d[n] == v);
        } else {
            assert(holds(c, v));
            let p = choose|p: int| is_interior(p) && #[trigger] c[p] == v;
            assert(d[p] == v);
        }
    }
    let f = choose|f: int| #[trigger] fruit_at(c, f);
    assert(f == n);
    assert(fruit_at(d, spot)) by {
        assert forall|q: int| 0 <= q < 144 && #[trigger] d[q] == i32::MIN implies q == spot by {
            if q != spot {
                assert(c[q] == i32::MIN);
            }
        }
    }
    assert(holds(d, 1) == holds(c, 1)) by {
        if holds(c, 1) {
            let p = choose|p: int| is_interior(p) && #[trigger] c[p] == 1;
            assert(d[p] == 1);
        }
        if holds(d, 1) {
            let p = choose|p: int| is_interior(p) && #[trigger] d[p] == 1;
            assert(c[p] == 1);
        }
    }
    assert(body_cells(d) =~= body_cells(c).insert(n));
    assert(!body_cells(c).contains(n));
}

/// A game that has just begun goes on: its walls stand at full height, its
/// tail has not settled yet, and the invariant holds.
pub proof fn lemma_fresh_is_running(s: GameState, highscore: int)
    requires
        s.is_fresh(highscore),
    ensures
        s.wf(),
        s.walls_last(),
        !s.settled(),
        body_cells(s.cells) == Set::<int>::empty().insert(START as int),
{
    let c = s.cells;
    let p = choose|p: int|
        is_interior(p) && p != START && #[trigger] c[p] == i32::MIN && c == fresh_cells().update(
            START as int,
            2i32,
        ).update(p, i32::MIN);
    assert(fruit_at(c, p));
    assert(is_border(0));
    assert(c[START as int] == 2);
    assert(holds(c, 2));
    assert(body_cells(c) =~= Set::<int>::empty().insert(START as int));
    assert(!holds(c, 1));
}

/// A game that goes on can take its next turn: the border keeps the head on
/// the grid, and the snake is never longer than the playable area has cells,
/// but for one.
pub proof fn lemma_running_can_tick(s: GameState)
    requires
        s.wf(),
    ensures
        s.can_tick(),
        s.length <= 101,
        s.score <= 990,
{
    lemma_body_bound(s.cells);
}

/// In a game that goes on the walls stand: every border cell is blocked and
/// none is the item, so that the blocked cells are the 44 of the border and
/// the body.
pub proof fn lemma_running_walls(s: GameState)
    requires
        s.wf(),
    ensures
        forall|p: int| is_border(p) ==> !traversable(#[trigger] s.cells[p]) && s.cells[p] != i32::MIN,
        blocked_cells(s.cells) == border_below(144).union(body_cells(s.cells)),
        border_below(144).disjoint(body_cells(s.cells)),
        border_below(144).len() == 44,
{
    crate::field::lemma_fresh_walls();
    assert(is_border(0));
    assert forall|p: int| 0 <= p < 144 implies is_border(p) || is_interior(p) by {}
    assert(blocked_cells(s.cells) =~= border_below(144).union(body_cells(s.cells)));
}

/// A game that goes on has exactly one item on its grid.
pub proof fn lemma_one_item(s: GameState)
    requires
        s.wf(),
    ensures
        item_cells(s.cells).finite(),
        item_cells(s.cells).len() == 1,
{
    let f = choose|f: int| #[trigger] fruit_at(s.cells, f);
    assert(item_cells(s.cells) =~= Set::<int>::empty().insert(f));
}

/// Once the tail has settled, the body of a game that goes on has exactly as
/// many cells as the snake is long; before that, one less.
pub proof fn lemma_body_length(s: GameState)
    requires
        s.wf(),
    ensures
        s.settled() ==> body_cells(s.cells).len() == s.length,
        !s.settled() ==> body_cells(s.cells).len() == s.length - 1,
{
}

impl Default for Game {
    fn default() -> (r: Self)
        ensures
            r@.is_fresh(0),
            r@.wf(),
            r@.walls_last(),
            !r@.settled(),
    {
        Self::new()
    }
}

impl Game {
    /// A fresh game: a snake of length two beside the centre, heading down, one
    /// item somewhere on the empty cells, no score.
    pub fn new() -> (r: Self)
        ensures
            r@.is_fresh(0),
            r@.wf(),
            r@.walls_last(),
            !r@.settled(),
    {
        let snake = Snake::new();
        let mut field = Field::new();
        field.set_point(snake.get_position(), snake.get_length());
        let ghost start = field@;
        assert(traversable(start[14]));
        let mut game = Game { field, snake, score: 0, highscore: 0 };
        game.spawn_fruit();
        proof {
            let c = game.field@;
            let p = choose|p: int|
                0 <= p < 144 && traversable(#[trigger] start[p]) && c == start.update(p, i32::MIN);
            assert(is_border(p) || is_interior(p));
            assert(c[p] == i32::MIN);
            lemma_fresh_is_running(game@, 0);
        }
        game
    }

    /// A fresh game that carries the high score of the games before it.
    pub fn with_highscore(highscore: u32) -> (r: Self)
        ensures
            r@.is_fresh(highscore as int),
            r@.wf(),
            r@.walls_last(),
            !r@.settled(),
    {
        let mut game = Game::new();
        let ghost begun = game@;
        game.highscore = highscore;
        proof {
            let p = choose|p: int|
                is_interior(p) && p != START && #[trigger] begun.cells[p] == i32::MIN && begun.cells
                    == fresh_cells().update(START as int, 2i32).update(p, i32::MIN);
            assert(game@.cells == begun.cells);
            assert(game@.cells[p] == i32::MIN);
            assert(game@.wf());
        }
        game
    }

    /// Whether `tick` may be called. It always may on a game that goes on.
    pub fn can_tick(&self) -> (r: bool)
        ensures
            r == self@.can_tick(),
    {
        let position = self.snake.get_position();
        let on_grid = match self.snake.get_direction() {
            Direction::Up => N2 <= position && position - N2 < N_POINTS,
            Direction::Down => position < N_POINTS - N2,
            Direction::Left => 1 <= position && position - 1 < N_POINTS,
            Direction::Right => position < N_POINTS - 1,
        };
        if !on_grid {
            return false;
        }
        let target = match self.snake.get_direction() {
            Direction::Up => position - N2,
            Direction::Down => position + N2,
            Direction::Left => position - 1,
            Direction::Right => position + 1,
        };
        !self.field.is_fruit(target) || (self.snake.get_length() < i32::MAX && self.score <= u32::MAX - 10)
    }

    /// One turn: the head moves, the grid ages unless the head eats, and the
    /// cell that the head entered decides how the turn ends.
    pub fn tick(&mut self) -> (r: Outcome)
        requires
            old(self)@.can_tick(),
        ensures
            final(self)@.position == old(self)@.target(),
            final(self)@.direction == old(self)@.direction,
            final(self)@.highscore == old(self)@.highscore,
            // collision: the grid has aged, nothing was written
            r == Outcome::Collision <==> !traversable(old(self)@.aged()[old(self)@.target()]),
            r == Outcome::Collision ==> final(self)@ == (GameState {
                cells: old(self)@.aged(),
                position: old(self)@.target(),
                ..old(self)@
            }),
            // a free cell without the item: the head is written with the full
            // countdown
            r == Outcome::Ongoing(false) <==> !old(self)@.eats() && traversable(
                old(self)@.aged()[old(self)@.target()],
            ),
            r == Outcome::Ongoing(false) ==> final(self)@ == (GameState {
                cells: old(self)@.aged().update(old(self)@.target(), old(self)@.length as i32),
                position: old(self)@.target(),
                ..old(self)@
            }),
            // the item: the snake grows, and the next item is put on a free
            // cell if there is one
            (r == Outcome::Won || r == Outcome::Ongoing(true)) <==> old(self)@.eats(),
            old(self)@.eats() ==> {
                let fed = old(self)@.cells.update(old(self)@.target(), (old(self)@.length + 1) as i32);
                &&& final(self)@.length == old(self)@.length + 1
                &&& final(self)@.score == old(self)@.score + 10
                &&& r == Outcome::Won <==> (forall|p: int| 0 <= p < 144 ==> !traversable(#[trigger] fed[p]))
                &&& r == Outcome::Won ==> final(self)@.cells == fed
                &&& r == Outcome::Ongoing(true) ==> exists|p: int|
                    0 <= p < 144 && traversable(#[trigger] fed[p]) && final(self)@.cells == fed.update(
                        p,
                        i32::MIN,
                    )
            },
            // a game that goes on keeps its invariant while the walls last,
            // and its body is as long as the snake once a turn has passed
            // without the item
            old(self)@.wf() && old(self)@.walls_last() && r is Ongoing ==> {
                &&& final(self)@.wf()
                &&& r == Outcome::Ongoing(false) ==> final(self)@.settled()
                &&& r == Outcome::Ongoing(true) ==> final(self)@.settled() == old(self)@.settled()
                &&& old(self)@.settled() || r == Outcome::Ongoing(false) ==> body_cells(
                    final(self)@.cells,
                ).len() == final(self)@.length
            },
    {
        proof {
            self.field.lemma_len();
        }
        self.snake.make_move();
        let pos = self.snake.get_position();
        let was_fruit = self.field.is_fruit(pos);
        if !was_fruit {
            self.field.make_turn();
        }
        if self.field.is_valid(pos) {
            if was_fruit {
                self.snake.increase_length();
                self.field.set_point(pos, self.snake.get_length());
                self.score += 10;
                let ghost fed = self.field@;
                assert(fed == old(self)@.cells.update(old(self)@.target(), (old(self)@.length + 1) as i32));
                let full = self.spawn_fruit();
                if full {
                    assert(self@.cells == fed);
                    Outcome::Won
                } else {
                    proof {
                        let p = choose|p: int|
                            0 <= p < 144 && traversable(#[trigger] fed[p]) && self.field@ == fed.update(
                                p,
                                i32::MIN,
                            );
                        assert(traversable(fed[p]) && self@.cells == fed.update(p, i32::MIN));
                        if old(self)@.wf() {
                            lemma_feed(old(self)@, self@, p);
                        }
                    }
                    Outcome::Ongoing(true)
                }
            } else {
                self.field.set_point(pos, self.snake.get_length());
                proof {
                    if old(self)@.wf() && old(self)@.walls_last() {
                        lemma_advance(old(self)@, self@);
                    }
                }
                Outcome::Ongoing(false)
            }
        } else {
            Outcome::Collision
        }
    }

    /// Turns the snake to `direction`, unless that would reverse it.
    pub fn change_direction(&mut self, direction: Direction)
        ensures
            final(self)@ == (GameState {
                direction: turned(old(self)@.direction, direction),
                ..old(self)@
            }),
    {
        self.snake.change_direction(direction);
    }

    /// The direction in which the snake is heading.
    pub fn get_direction(&self) -> (r: Direction)
        ensures
            r == self@.direction,
    {
        self.snake.get_direction()
    }

    /// The cell of the head.
    pub fn get_position(&self) -> (r: usize)
        ensures
            r == self@.position,
    {
        self.snake.get_position()
    }

    /// The length of the snake.
    pub fn get_length(&self) -> (r: i32)
        ensures
            r == self@.length,
    {
        self.snake.get_length()
    }

    /// The score of this game.
    pub fn get_score(&self) -> (r: u32)
        ensures
            r == self@.score,
    {
        self.score
    }

    /// The best score so far: the one carried in, or this game's if it is
    /// higher.
    pub fn get_highscore(&self) -> (r: u32)
        ensures
            r == if self@.highscore >= self@.score {
                self@.highscore
            } else {
                self@.score
            },
    {
        if self.highscore >= self.score {
            self.highscore
        } else {
            self.score
        }
    }

    /// The grid, for whoever paints it.
    pub fn field(&self) -> (r: &Field)
        ensures
            r@ == self@.cells,
    {
        &self.field
    }

    /// Puts the next item on the grid; `true` says that no cell was left for
    /// it.
    fn spawn_fruit(&mut self) -> (full: bool)
        ensures
            final(self)@.direction == old(self)@.direction,
            final(self)@.length == old(self)@.length,
            final(self)@.position == old(self)@.position,
            final(self)@.score == old(self)@.score,
            final(self)@.highscore == old(self)@.highscore,
            full <==> (forall|p: int| 0 <= p < 144 ==> !traversable(#[trigger] old(self)@.cells[p])),
            full ==> final(self)@.cells == old(self)@.cells,
            !full ==> exists|p: int|
                0 <= p < 144 && traversable(#[trigger] old(self)@.cells[p]) && final(self)@.cells == old(
                    self,
                )@.cells.update(p, i32::MIN),
    {
        let full = self.field.spawn_fruit();
        proof {
            self.field.lemma_len();
            assert(self@.cells == self.field@);
            assert(old(self)@.cells == old(self).field@);
        }
        full
    }
}

} // verus!
