use vstd::prelude::*;

use crate::table::{opponent_of, Cell, Figure, Table, TableView};

verus! {

/// What a participant does on their turn.
#[derive(PartialEq, Eq, Structural, Debug, Copy, Clone)]
pub enum Action {
    /// Place the participant's marker on the cell.
    Put(Cell),
    /// Give up; the opponent wins.
    Quit,
}

/// The action stays inside the board: a placement names a cell of it.
pub open spec fn fits(a: Action, t: TableView) -> bool {
    match a {
        Action::Put(c) => t.contains(c),
        Action::Quit => true,
    }
}

/// A source of decisions for one marker: a person at a screen, a program,
/// a test double.
pub trait Player {
    /// The source may answer `action` when asked for `current` on `table`.
    spec fn decides(&self, table: TableView, current: Figure, action: Action) -> bool;

    /// The action for `current` on the given board. A placement must name a
    /// cell of the board: a source is to check `Cell::is_valid` first.
    fn step(&self, table: &Table, current: Figure) -> (action: Action)
        ensures
            fits(action, table@),
            self.decides(table@, current, action),
    ;
}

/// The failures of a turn that leave the game as it was.
#[derive(PartialEq, Eq, Structural, Debug, Copy, Clone)]
pub enum Error {
    /// The game has already ended.
    GameIsOver,
    /// The chosen cell is already occupied; the same marker is still to move.
    InvalidStep,
}

/// How a game ended.
#[derive(PartialEq, Eq, Structural, Debug, Copy, Clone)]
pub enum GameResult {
    Drawn,
    Winner(Figure),
}

/// The record of one completed turn: who moved, what they did, and how the
/// game stands afterwards (`None` while it goes on).
#[derive(PartialEq, Eq, Debug, Copy, Clone)]
pub struct TurnEvent {
    pub figure: Figure,
    pub action: Action,
    pub result: Option<GameResult>,
}

/// What a game holds, as mathematics.
pub ghost struct GameView {
    pub table: TableView,
    pub current: Figure,
    pub result: Option<GameResult>,
}

/// The answer of a turn in which `a` is decided on game `g`.
pub open spec fn turn_result(g: GameView, a: Action) -> Result<TurnEvent, Error> {
    if g.result is Some {
        Err(Error::GameIsOver)
    } else {
        match a {
            Action::Quit => Ok(
                TurnEvent {
                    figure: g.current,
                    action: a,
                    result: Some(GameResult::Winner(opponent_of(g.current))),
                },
            ),
            Action::Put(c) => if g.table.at(c) is Some {
                Err(Error::InvalidStep)
            } else {
                Ok(TurnEvent { figure: g.current, action: a, result: None })
            },
        }
    }
}

/// The game after a turn in which `a` is decided on game `g`; a failed turn
/// leaves it as it was.
pub open spec fn next_state(g: GameView, a: Action) -> GameView {
    if g.result is Some {
        g
    } else {
        match a {
            Action::Quit => GameView {
                result: Some(GameResult::Winner(opponent_of(g.current))),
                ..g
            },
            Action::Put(c) => if g.table.at(c) is Some {
                g
            } else {
                GameView {
                    table: g.table.with(c, Some(g.current)),
                    current: opponent_of(g.current),
                    ..g
                }
            },
        }
    }
}

/// The game after the actions are decided one after another, failed turns
/// included.
pub open spec fn replay(g: GameView, actions: Seq<Action>) -> GameView
    decreases actions.len(),
{
    if actions.len() == 0 {
        g
    } else {
        replay(next_state(g, actions[0]), actions.drop_first())
    }
}

/// Every action stays inside a board of the same size as `t`.
pub open spec fn all_fit(actions: Seq<Action>, t: TableView) -> bool {
    forall|i: int| 0 <= i < actions.len() ==> fits(#[trigger] actions[i], t)
}

/// A turn keeps the board's dimensions and well-formedness.
pub proof fn lemma_next_state_keeps_shape(g: GameView, a: Action)
    requires
        g.table.wf(),
        fits(a, g.table),
    ensures
        next_state(g, a).table.wf(),
        next_state(g, a).table.row_count == g.table.row_count,
        next_state(g, a).table.col_count == g.table.col_count,
{
    if let Action::Put(c) = a {
        crate::table::lemma_set_then_get(g.table, c, Some(g.current));
    }
}

/// In a game that goes on, a successful placement hands the move to the
/// opponent of the marker that moved, a successful concession ends the game,
/// and a failed turn changes nothing.
pub proof fn lemma_turn_alternation(g: GameView, a: Action)
    requires
        g.table.wf(),
        fits(a, g.table),
        g.result is None,
    ensures
        turn_result(g, a) is Ok ==> (turn_result(g, a)->Ok_0).figure == g.current,
        turn_result(g, a) is Ok && a is Put ==> next_state(g, a).current == opponent_of(g.current)
            && next_state(g, a).result is None,
        turn_result(g, a) is Ok && a is Quit ==> next_state(g, a).result is Some,
        turn_result(g, a) is Err ==> next_state(g, a) == g,
{
}

/// A cell that holds a marker keeps it whatever is decided afterwards.
pub proof fn lemma_replay_keeps_cell(g: GameView, c: Cell, actions: Seq<Action>)
    requires
        g.table.wf(),
        g.table.contains(c),
        g.table.at(c) is Some,
        all_fit(actions, g.table),
    ensures
        replay(g, actions).table.wf(),
        replay(g, actions).table.row_count == g.table.row_count,
        replay(g, actions).table.col_count == g.table.col_count,
        replay(g, actions).table.at(c) == g.table.at(c),
    decreases actions.len(),
{
    if actions.len() > 0 {
        let a = actions[0];
        assert(fits(a, g.table));
        lemma_next_state_keeps_shape(g, a);
        if let Action::Put(d) = a {
            crate::table::lemma_set_then_get(g.table, d, Some(g.current));
        }
        let rest = actions.drop_first();
        assert forall|i: int| 0 <= i < rest.len() implies fits(#[trigger] rest[i], next_state(g, a).table) by {
            assert(rest[i] == actions[i + 1]);
        }
        lemma_replay_keeps_cell(next_state(g, a), c, rest);
    }
}

/// Once a placement on `c` has succeeded, the marker stays there whatever
/// is decided afterwards, and every later placement on `c` in a game that
/// goes on fails with `InvalidStep` and changes nothing.
pub proof fn lemma_at_most_once(g: GameView, c: Cell, actions: Seq<Action>)
    requires
        g.table.wf(),
        g.table.contains(c),
        turn_result(g, Action::Put(c)) is Ok,
        all_fit(actions, g.table),
    ensures
        replay(next_state(g, Action::Put(c)), actions).table.at(c) == Some(g.current),
        replay(next_state(g, Action::Put(c)), actions).result is None ==> {
            let h = replay(next_state(g, Action::Put(c)), actions);
            &&& turn_result(h, Action::Put(c)) == Err::<TurnEvent, Error>(Error::InvalidStep)
            &&& next_state(h, Action::Put(c)) == h
        },
{
    let a = Action::Put(c);
    crate::table::lemma_set_then_get(g.table, c, Some(g.current));
    lemma_next_state_keeps_shape(g, a);
    let g1 = next_state(g, a);
    assert forall|i: int| 0 <= i < actions.len() implies fits(#[trigger] actions[i], g1.table) by {
        assert(fits(actions[i], g.table));
    }
    lemma_replay_keeps_cell(g1, c, actions);
}

/// An ended game stays as it is: every later turn fails with `GameIsOver`
/// and changes nothing.
pub proof fn lemma_over_is_final(g: GameView, actions: Seq<Action>, a: Action)
    requires
        g.result is Some,
    ensures
        replay(g, actions) == g,
        turn_result(replay(g, actions), a) == Err::<TurnEvent, Error>(Error::GameIsOver),
    decreases actions.len(),
{
    if actions.len() > 0 {
        lemma_over_is_final(next_state(g, actions[0]), actions.drop_first(), a);
    }
}

/// A game in progress has ended after a sequence of turns exactly when one
/// of them was a concession: no other turn ends a game. The winner is then
/// the opponent of the marker that conceded.
pub proof fn lemma_over_iff_conceded(g: GameView, actions: Seq<Action>)
    requires
        g.result is None,
    ensures
        replay(g, actions).result is Some <==> exists|i: int|
            0 <= i < actions.len() && #[trigger] actions[i] is Quit,
        replay(g, actions).result matches Some(res) ==> res is Winner,
    decreases actions.len(),
{
    if actions.len() > 0 {
        let a = actions[0];
        let rest = actions.drop_first();
        let g1 = next_state(g, a);
        if a is Quit {
            lemma_over_is_final(g1, rest, a);
            assert(actions[0] is Quit);
        } else {
            lemma_over_iff_conceded(g1, rest);
            if exists|i: int| 0 <= i < actions.len() && #[trigger] actions[i] is Quit {
                let i = choose|i: int| 0 <= i < actions.len() && #[trigger] actions[i] is Quit;
                assert(rest[i - 1] is Quit);
            }
            if exists|i: int| 0 <= i < rest.len() && #[trigger] rest[i] is Quit {
                let i = choose|i: int| 0 <= i < rest.len() && #[trigger] rest[i] is Quit;
                assert(actions[i + 1] is Quit);
            }
        }
    }
}

/// A game: the board, the marker to move, and the result once it has ended.
pub struct Game {
    table: Table,
    current: Figure,
    result: Option<GameResult>,
}

impl View for Game {
    type V = GameView;

    closed spec fn view(&self) -> GameView {
        GameView { table: self.table@, current: self.current, result: self.result }
    }
}

impl Game {
    /// The board is well formed.
    pub open spec fn wf(&self) -> bool {
        self@.table.wf()
    }

    /// A game on `table` in which `first_figure` moves first.
    pub fn new(table: Table, first_figure: Figure) -> (r: Game)
        requires
            table.wf(),
        ensures
            r.wf(),
            r@ == (GameView { table: table@, current: first_figure, result: None }),
    {
        Game { table, current: first_figure, result: None }
    }

    /// Plays one turn: asks the source of the marker to move
    /// (`players[0]` for X, `players[1]` for O), with the board as it stands,
    /// and applies the decision it returns.
    /// An ended game fails at once, without asking anyone.
    pub fn turn(&mut self, players: [&dyn Player; 2]) -> (r: Result<TurnEvent, Error>)
        requires
            old(self).wf(),
        ensures
            final(self).wf(),
            old(self)@.result is Some ==> r == Err::<TurnEvent, Error>(Error::GameIsOver)
                && final(self)@ == old(self)@,
            old(self)@.result is None ==> exists|a: Action|
                {
                    &&& fits(a, old(self)@.table)
                    &&& (if old(self)@.current == Figure::X {
                        players[0]
                    } else {
                        players[1]
                    }).decides(
                        old(self)@.table,
                        old(self)@.current,
                        a,
                    )
                    &&& #[trigger] turn_result(old(self)@, a) == r
                    &&& final(self)@ == next_state(old(self)@, a)
                },
    {
        if self.result.is_some() {
            return Err(Error::GameIsOver);
        }
        let player = match self.current {
            Figure::X => players[0],
            Figure::O => players[1],
        };
        let action = player.step(&self.table, self.current);
        self.apply(action)
    }

    /// Plays one turn in which the marker to move has decided on `action`.
    pub fn apply(&mut self, action: Action) -> (r: Result<TurnEvent, Error>)
        requires
            old(self).wf(),
            fits(action, old(self)@.table),
        ensures
            final(self).wf(),
            r == turn_result(old(self)@, action),
            final(self)@ == next_state(old(self)@, action),
    {
        if self.result.is_some() {
            return Err(Error::GameIsOver);
        }
        match action {
            Action::Quit => {
                self.result = Some(GameResult::Winner(self.current.opponent()));
            },
            Action::Put(cell) => {
                if self.table.get(cell).is_some() {
                    return Err(Error::InvalidStep);
                }
                self.table.set(cell, Some(self.current));
            },
        };
        Ok(self.turn_over(action))
    }

    /// Records the turn just played and, while the game goes on, hands the
    /// move to the opponent.
    fn turn_over(&mut self, action: Action) -> (r: TurnEvent)
        ensures
            r == (TurnEvent { figure: old(self).current, action, result: old(self).result }),
            final(self).table == old(self).table,
            final(self).result == old(self).result,
            final(self).current == if old(self).result is None {
                opponent_of(old(self).current)
            } else {
                old(self).current
            },
    {
        let turn_event = TurnEvent { action, figure: self.current, result: self.result };
        if self.result.is_none() {
            self.current = self.current.opponent();
        }
        turn_event
    }

    /// The marker to move.
    pub fn figure_on_turn(&self) -> (r: Figure)
        ensures
            r == self@.current,
    {
        self.current
    }

    /// The game has ended.
    pub fn is_over(&self) -> (r: bool)
        ensures
            r == self@.result is Some,
    {
        self.result.is_some()
    }

    /// The board, to read.
    pub fn table(&self) -> (r: &Table)
        ensures
            r@ == self@.table,
    {
        &self.table
    }
}

} // verus!
