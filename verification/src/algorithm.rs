//! The three generators behind one interface, and the loop that runs one of
//! them to its end.

use crate::backtracker::{
    lemma_backtracker_finished, lemma_backtracker_rooted, lemma_backtracker_sealed,
    lemma_sealed_again, Backtracker, BacktrackerView,
};
use crate::dice::Draws;
use crate::kruskal::{Kruskal, KruskalView};
use crate::kruskal_proof::lemma_kruskal_finished;
use crate::maze::{Maze, MazeView, Scale};
use crate::prim::{Prim, PrimView};
use crate::prim_proof::{lemma_prim_finished, lemma_prim_rooted, lemma_prim_sealed};
use crate::walks::{all_rooms_open, generated, peaked, tree_shaped};
use vstd::prelude::*;

verus! {

/// The algorithms that can generate a maze.
#[derive(Debug, Clone, Copy, PartialEq, Eq, Structural)]
pub enum AlgorithmKind {
    Prim,
    Kruskal,
    Backtracker,
}

/// A generator that advances one step at a time.
pub trait Algorithm {
    /// The invariant of the generator.
    spec fn ready(&self) -> bool;

    /// What bounds the number of steps still to come.
    spec fn fuel(&self) -> nat;

    /// The maze as it stands.
    spec fn grid(&self) -> MazeView;

    /// Whether the generator has made its last step, and what it has left.
    spec fn complete(&self) -> bool;

    /// Advances generation by one step and says whether there was a step to
    /// make; when there was none, the last step has been made.
    fn next(&mut self) -> (more: bool)
        requires
            old(self).ready(),
        ensures
            final(self).ready(),
            more ==> final(self).fuel() < old(self).fuel(),
            !more ==> final(self).complete(),
            final(self).grid().width == old(self).grid().width,
            final(self).grid().height == old(self).grid().height,
            final(self).grid().origin == old(self).grid().origin,
            final(self).grid().bias == old(self).grid().bias,
    ;

    /// The maze as it stands.
    fn maze(&self) -> (m: &Maze)
        requires
            self.ready(),
        ensures
            m.wf(),
            m@ == self.grid(),
    ;

    /// Gives the maze back.
    fn into_maze(self) -> (m: Maze) where Self: Sized
        requires
            self.ready(),
        ensures
            m.wf(),
            m@ == self.grid(),
    ;
}

/// What Prim's algorithm leaves: a generated maze with every room open, its
/// end at the greatest count of steps, and, on a grid of odd width and height,
/// the shape of a tree.
pub open spec fn prim_complete(m: MazeView) -> bool {
    &&& generated(m)
    &&& all_rooms_open(m)
    &&& peaked(m)
    &&& m.width % 2 == 1 && m.height % 2 == 1 ==> tree_shaped(m)
}

/// What Kruskal's algorithm leaves: a generated maze with every room open and
/// its end at the greatest count of steps.
pub open spec fn kruskal_complete(m: MazeView) -> bool {
    &&& generated(m)
    &&& all_rooms_open(m)
    &&& peaked(m)
}

/// What the backtracker leaves: a generated maze in the shape of a tree, with
/// its end at the greatest count of steps unless the grid is too small for a
/// single move.
pub open spec fn backtracker_complete(m: MazeView) -> bool {
    &&& generated(m)
    &&& tree_shaped(m)
    &&& m.width >= 3 || m.height >= 3 || (m.width == 1 && m.height == 1) ==> peaked(m)
}

impl Algorithm for Prim {
    open spec fn ready(&self) -> bool {
        self.wf()
    }

    open spec fn fuel(&self) -> nat {
        self@.fuel()
    }

    open spec fn grid(&self) -> MazeView {
        self@.maze
    }

    open spec fn complete(&self) -> bool {
        prim_complete(self@.maze)
    }

    fn next(&mut self) -> (more: bool) {
        proof {
            if self@.done() {
                lemma_prim_finished(self@);
                lemma_prim_sealed(self@);
                lemma_prim_rooted(self@.finished());
            }
        }
        Prim::next(self)
    }

    fn maze(&self) -> (m: &Maze) {
        Prim::maze(self)
    }

    fn into_maze(self) -> (m: Maze) {
        Prim::into_maze(self)
    }
}

impl Algorithm for Backtracker {
    open spec fn ready(&self) -> bool {
        self.wf() && (self@.closing && self@.maze.scale != Scale::Steps
            ==> backtracker_complete(self@.maze))
    }

    open spec fn fuel(&self) -> nat {
        self@.fuel()
    }

    open spec fn grid(&self) -> MazeView {
        self@.maze
    }

    open spec fn complete(&self) -> bool {
        backtracker_complete(self@.maze)
    }

    fn next(&mut self) -> (more: bool) {
        proof {
            if self@.closing {
                lemma_backtracker_sealed(self@);
                lemma_backtracker_rooted(self@.finished());
                if self@.maze.scale == Scale::Steps {
                    lemma_backtracker_finished(self@);
                } else {
                    lemma_sealed_again(self@.maze);
                }
            }
        }
        Backtracker::next(self)
    }

    fn maze(&self) -> (m: &Maze) {
        Backtracker::maze(self)
    }

    fn into_maze(self) -> (m: Maze) {
        Backtracker::into_maze(self)
    }
}

impl Algorithm for Kruskal {
    open spec fn ready(&self) -> bool {
        self.wf() && (self.closed() ==> kruskal_complete(self@.maze))
    }

    open spec fn fuel(&self) -> nat {
        self@.fuel()
    }

    open spec fn grid(&self) -> MazeView {
        self@.maze
    }

    open spec fn complete(&self) -> bool {
        kruskal_complete(self@.maze)
    }

    fn next(&mut self) -> (more: bool) {
        proof {
            if !self.closed() && self@.done() {
                lemma_kruskal_finished(self@);
            }
        }
        Kruskal::next(self)
    }

    fn maze(&self) -> (m: &Maze) {
        Kruskal::maze(self)
    }

    fn into_maze(self) -> (m: Maze) {
        Kruskal::into_maze(self)
    }
}

/// One of the three generators.
pub enum Generator {
    Prim(Prim),
    Kruskal(Kruskal),
    Backtracker(Backtracker),
}

impl Algorithm for Generator {
    open spec fn ready(&self) -> bool {
        match self {
            Generator::Prim(a) => a.ready(),
            Generator::Kruskal(a) => a.ready(),
            Generator::Backtracker(a) => a.ready(),
        }
    }

    open spec fn fuel(&self) -> nat {
        match self {
            Generator::Prim(a) => a.fuel(),
            Generator::Kruskal(a) => a.fuel(),
            Generator::Backtracker(a) => a.fuel(),
        }
    }

    open spec fn grid(&self) -> MazeView {
        match self {
            Generator::Prim(a) => a.grid(),
            Generator::Kruskal(a) => a.grid(),
            Generator::Backtracker(a) => a.grid(),
        }
    }

    open spec fn complete(&self) -> bool {
        match self {
            Generator::Prim(a) => a.complete(),
            Generator::Kruskal(a) => a.complete(),
            Generator::Backtracker(a) => a.complete(),
        }
    }

    fn next(&mut self) -> (more: bool) {
        match self {
            Generator::Prim(a) => Algorithm::next(a),
            Generator::Kruskal(a) => Algorithm::next(a),
            Generator::Backtracker(a) => Algorithm::next(a),
        }
    }

    fn maze(&self) -> (m: &Maze) {
        match self {
            Generator::Prim(a) => Algorithm::maze(a),
            Generator::Kruskal(a) => Algorithm::maze(a),
            Generator::Backtracker(a) => Algorithm::maze(a),
        }
    }

    fn into_maze(self) -> (m: Maze) {
        match self {
            Generator::Prim(a) => Algorithm::into_maze(a),
            Generator::Kruskal(a) => Algorithm::into_maze(a),
            Generator::Backtracker(a) => Algorithm::into_maze(a),
        }
    }
}

impl Generator {
    /// Which algorithm this generator runs.
    pub open spec fn kind(&self) -> AlgorithmKind {
        match self {
            Generator::Prim(_) => AlgorithmKind::Prim,
            Generator::Kruskal(_) => AlgorithmKind::Kruskal,
            Generator::Backtracker(_) => AlgorithmKind::Backtracker,
        }
    }
}

/// What the algorithm `kind` leaves when it has come to its end.
pub open spec fn complete_for(kind: AlgorithmKind, m: MazeView) -> bool {
    match kind {
        AlgorithmKind::Prim => prim_complete(m),
        AlgorithmKind::Kruskal => kruskal_complete(m),
        AlgorithmKind::Backtracker => backtracker_complete(m),
    }
}

/// A generator for `algorithm`, started on a maze to which nothing has
/// happened yet.
pub fn generate_algorithm(maze: Maze, algorithm: AlgorithmKind) -> (g: Generator)
    requires
        maze.wf(),
        maze@.pristine(),
    ensures
        g.ready(),
        g.kind() == algorithm,
        g.grid().width == maze@.width,
        g.grid().height == maze@.height,
        g.grid().origin == maze@.origin,
        g.grid().bias == maze@.bias,
{
    match algorithm {
        AlgorithmKind::Prim => Generator::Prim(Prim::init(maze)),
        AlgorithmKind::Kruskal => Generator::Kruskal(Kruskal::init(maze)),
        AlgorithmKind::Backtracker => Generator::Backtracker(Backtracker::init(maze)),
    }
}

/// Runs a generator to its end, step by step, and hands back the number of
/// steps it made.
pub fn run<A: Algorithm>(a: &mut A) -> (steps: u64)
    requires
        old(a).ready(),
    ensures
        final(a).ready(),
        final(a).complete(),
        final(a).grid().width == old(a).grid().width,
        final(a).grid().height == old(a).grid().height,
        final(a).grid().origin == old(a).grid().origin,
        final(a).grid().bias == old(a).grid().bias,
{
    let mut steps: u64 = 0;
    loop
        invariant
            a.ready(),
            a.grid().width == old(a).grid().width,
            a.grid().height == old(a).grid().height,
            a.grid().origin == old(a).grid().origin,
            a.grid().bias == old(a).grid().bias,
        ensures
            a.ready(),
            a.complete(),
            a.grid().width == old(a).grid().width,
            a.grid().height == old(a).grid().height,
            a.grid().origin == old(a).grid().origin,
            a.grid().bias == old(a).grid().bias,
        decreases a.fuel(),
    {
        if !a.next() {
            break ;
        }
        steps = steps.saturating_add(1);
    }
    steps
}

/// Generates a maze with `algorithm` on a maze to which nothing has happened
/// yet, drawing at random: the maze is the one that some list of draws gives.
pub fn generate(maze: Maze, algorithm: AlgorithmKind) -> (m: Maze)
    requires
        maze.wf(),
        maze@.pristine(),
    ensures
        m.wf(),
        exists|draws: Seq<Draws>| #[trigger] replay(algorithm, maze@, draws) == Some(m@),
        complete_for(algorithm, m@),
        maze@.same_frame(m@),
{
    match algorithm {
        AlgorithmKind::Prim => generate_prim(maze),
        AlgorithmKind::Kruskal => generate_kruskal(maze),
        AlgorithmKind::Backtracker => generate_backtracker(maze),
    }
}

/// Runs Prim's algorithm to its end, noting the draws of its steps.
fn generate_prim(maze: Maze) -> (m: Maze)
    requires
        maze.wf(),
        maze@.pristine(),
    ensures
        m.wf(),
        exists|draws: Seq<Draws>| #[trigger]
            replay(AlgorithmKind::Prim, maze@, draws) == Some(m@),
        prim_complete(m@),
        maze@.same_frame(m@),
{
    let mut a = Prim::init(maze);
    let ghost start = a@;
    let ghost mut used: Seq<Draws> = Seq::empty();
    loop
        invariant_except_break
            a@ == prim_state(start, used, 0),
        invariant
            a.wf(),
            start == PrimView::start(maze@),
            maze@.same_frame(a@.maze),
        ensures
            a.wf(),
            prim_replay(start, used, 0) == Some(a@.maze),
            prim_complete(a@.maze),
            maze@.same_frame(a@.maze),
        decreases a@.fuel(),
    {
        let ghost before = a@;
        proof {
            if before.done() {
                lemma_prim_finished(before);
                lemma_prim_sealed(before);
                lemma_prim_rooted(before.finished());
                lemma_prim_replay(start, used, 0);
            }
        }
        if !a.next() {
            break ;
        }
        proof {
            let d = choose|d: Draws| a@ == before.stepped(d);
            lemma_prim_state_push(start, used, 0, d);
            used = used.push(d);
        }
    }
    proof {
        assert(replay(AlgorithmKind::Prim, maze@, used) == Some(a@.maze));
    }
    a.into_maze()
}

/// Runs Kruskal's algorithm to its end, noting the draws of its steps.
fn generate_kruskal(maze: Maze) -> (m: Maze)
    requires
        maze.wf(),
        maze@.pristine(),
    ensures
        m.wf(),
        exists|draws: Seq<Draws>| #[trigger]
            replay(AlgorithmKind::Kruskal, maze@, draws) == Some(m@),
        kruskal_complete(m@),
        maze@.same_frame(m@),
{
    let mut a = Kruskal::init(maze);
    let ghost start = a@;
    let ghost mut used: Seq<Draws> = Seq::empty();
    loop
        invariant_except_break
            !a.closed(),
            a@ == kruskal_state(start, used, 0),
        invariant
            a.wf(),
            start == KruskalView::start(maze@),
            maze@.same_frame(a@.maze),
        ensures
            a.wf(),
            kruskal_replay(start, used, 0) == Some(a@.maze),
            kruskal_complete(a@.maze),
            maze@.same_frame(a@.maze),
        decreases a@.fuel(),
    {
        let ghost before = a@;
        proof {
            if before.done() {
                lemma_kruskal_finished(before);
                lemma_kruskal_replay(start, used, 0);
            }
        }
        if !a.next() {
            break ;
        }
        proof {
            let d = choose|d: Draws| a@ == before.stepped(d);
            lemma_kruskal_state_push(start, used, 0, d);
            used = used.push(d);
        }
    }
    proof {
        assert(replay(AlgorithmKind::Kruskal, maze@, used) == Some(a@.maze));
    }
    a.into_maze()
}

/// Runs the backtracker to its end, noting the picks of its steps.
fn generate_backtracker(maze: Maze) -> (m: Maze)
    requires
        maze.wf(),
        maze@.pristine(),
    ensures
        m.wf(),
        exists|draws: Seq<Draws>| #[trigger]
            replay(AlgorithmKind::Backtracker, maze@, draws) == Some(m@),
        backtracker_complete(m@),
        maze@.same_frame(m@),
{
    let mut a = Backtracker::init(maze);
    let ghost start = a@;
    let ghost mut used: Seq<Draws> = Seq::empty();
    loop
        invariant_except_break
            a@.maze.scale == Scale::Steps,
            a@ == backtracker_state(start, used, 0),
        invariant
            a.wf(),
            start == BacktrackerView::start(maze@),
            maze@.same_frame(a@.maze),
        ensures
            a.wf(),
            backtracker_replay(start, used, 0) == Some(a@.maze),
            backtracker_complete(a@.maze),
            maze@.same_frame(a@.maze),
        decreases a@.fuel(),
    {
        let ghost before = a@;
        proof {
            if before.closing {
                lemma_backtracker_sealed(before);
                lemma_backtracker_rooted(before.finished());
                lemma_backtracker_finished(before);
                lemma_backtracker_replay(start, used, 0);
            }
        }
        if !a.next() {
            break ;
        }
        proof {
            let pick = choose|pick: u64| a@ == before.stepped(pick);
            let d = Draws { pick: pick, side: 0, turn: 0, coin: 0 };
            lemma_backtracker_state_push(start, used, 0, d);
            used = used.push(d);
        }
    }
    proof {
        assert(replay(AlgorithmKind::Backtracker, maze@, used) == Some(a@.maze));
    }
    a.into_maze()
}

/// The state that Prim's algorithm has come to when it has taken its draws
/// from `draws`, from the one at place `i` on, as long as a wall waited.
pub open spec fn prim_state(p: PrimView, draws: Seq<Draws>, i: int) -> PrimView
    decreases draws.len() - i,
{
    if !p.done() && 0 <= i < draws.len() {
        prim_state(p.stepped(draws[i]), draws, i + 1)
    } else {
        p
    }
}

/// The maze that the draws give is the one that is finished from the state
/// they lead to, if no wall waits there.
pub proof fn lemma_prim_replay(p: PrimView, draws: Seq<Draws>, i: int)
    requires
        0 <= i <= draws.len(),
    ensures
        prim_replay(p, draws, i) == if prim_state(p, draws, i).done() {
            Some(prim_state(p, draws, i).finished().maze)
        } else {
            None
        },
    decreases draws.len() - i,
{
    if !p.done() && i < draws.len() {
        lemma_prim_replay(p.stepped(draws[i]), draws, i + 1);
    }
}

/// One more set of draws leads one step further.
pub proof fn lemma_prim_state_push(p: PrimView, draws: Seq<Draws>, i: int, d: Draws)
    requires
        0 <= i <= draws.len(),
    ensures
        prim_state(p, draws.push(d), i) == if prim_state(p, draws, i).done() {
            prim_state(p, draws, i)
        } else {
            prim_state(p, draws, i).stepped(d)
        },
    decreases draws.len() - i,
{
    let more = draws.push(d);
    if !p.done() {
        if i < draws.len() {
            assert(more[i] == draws[i]);
            lemma_prim_state_push(p.stepped(draws[i]), draws, i + 1, d);
        } else {
            assert(more[i] == d);
            assert(prim_state(p.stepped(d), more, i + 1) == p.stepped(d));
        }
    }
}

/// The state that Kruskal's algorithm has come to when it has taken its draws
/// from `draws`, from the one at place `i` on, as long as a slot waited.
pub open spec fn kruskal_state(p: KruskalView, draws: Seq<Draws>, i: int) -> KruskalView
    decreases draws.len() - i,
{
    if !p.done() && 0 <= i < draws.len() {
        kruskal_state(p.stepped(draws[i]), draws, i + 1)
    } else {
        p
    }
}

/// The maze that the draws give is the one that is finished from the state
/// they lead to, if no slot waits there.
pub proof fn lemma_kruskal_replay(p: KruskalView, draws: Seq<Draws>, i: int)
    requires
        0 <= i <= draws.len(),
    ensures
        kruskal_replay(p, draws, i) == if kruskal_state(p, draws, i).done() {
            Some(kruskal_state(p, draws, i).finished().maze)
        } else {
            None
        },
    decreases draws.len() - i,
{
    if !p.done() && i < draws.len() {
        lemma_kruskal_replay(p.stepped(draws[i]), draws, i + 1);
    }
}

/// One more set of draws leads one step further.
pub proof fn lemma_kruskal_state_push(p: KruskalView, draws: Seq<Draws>, i: int, d: Draws)
    requires
        0 <= i <= draws.len(),
    ensures
        kruskal_state(p, draws.push(d), i) == if kruskal_state(p, draws, i).done() {
            kruskal_state(p, draws, i)
        } else {
            kruskal_state(p, draws, i).stepped(d)
        },
    decreases draws.len() - i,
{
    let more = draws.push(d);
    if !p.done() {
        if i < draws.len() {
            assert(more[i] == draws[i]);
            lemma_kruskal_state_push(p.stepped(draws[i]), draws, i + 1, d);
        } else {
            assert(more[i] == d);
            assert(kruskal_state(p.stepped(d), more, i + 1) == p.stepped(d));
        }
    }
}

/// The state that the backtracker has come to when it has taken its picks
/// from `draws`, from the one at place `i` on, as long as there was a step to
/// make.
pub open spec fn backtracker_state(p: BacktrackerView, draws: Seq<Draws>, i: int) -> BacktrackerView
    decreases draws.len() - i,
{
    if !p.closing && 0 <= i < draws.len() {
        backtracker_state(p.stepped(draws[i].pick), draws, i + 1)
    } else {
        p
    }
}

/// The maze that the draws give is the one that is finished from the state
/// they lead to, if only the last step is left there.
pub proof fn lemma_backtracker_replay(p: BacktrackerView, draws: Seq<Draws>, i: int)
    requires
        0 <= i <= draws.len(),
    ensures
        backtracker_replay(p, draws, i) == if backtracker_state(p, draws, i).closing {
            Some(backtracker_state(p, draws, i).finished().maze)
        } else {
            None
        },
    decreases draws.len() - i,
{
    if !p.closing && i < draws.len() {
        lemma_backtracker_replay(p.stepped(draws[i].pick), draws, i + 1);
    }
}

/// One more set of draws leads one step further.
pub proof fn lemma_backtracker_state_push(p: BacktrackerView, draws: Seq<Draws>, i: int, d: Draws)
    requires
        0 <= i <= draws.len(),
    ensures
        backtracker_state(p, draws.push(d), i) == if backtracker_state(p, draws, i).closing {
            backtracker_state(p, draws, i)
        } else {
            backtracker_state(p, draws, i).stepped(d.pick)
        },
    decreases draws.len() - i,
{
    let more = draws.push(d);
    if !p.closing {
        if i < draws.len() {
            assert(more[i] == draws[i]);
            lemma_backtracker_state_push(p.stepped(draws[i].pick), draws, i + 1, d);
        } else {
            assert(more[i] == d);
            assert(backtracker_state(p.stepped(d.pick), more, i + 1) == p.stepped(d.pick));
        }
    }
}

/// The maze that Prim's algorithm leaves when it takes its draws from `draws`,
/// from the one at place `i` on: none where the draws run out before the maze
/// is complete.
pub open spec fn prim_replay(p: PrimView, draws: Seq<Draws>, i: int) -> Option<MazeView>
    decreases draws.len() - i,
{
    if p.done() {
        Some(p.finished().maze)
    } else if 0 <= i < draws.len() {
        prim_replay(p.stepped(draws[i]), draws, i + 1)
    } else {
        None
    }
}

/// The maze that Kruskal's algorithm leaves when it takes its draws from
/// `draws`, from the one at place `i` on: none where the draws run out before
/// the maze is complete.
pub open spec fn kruskal_replay(p: KruskalView, draws: Seq<Draws>, i: int) -> Option<MazeView>
    decreases draws.len() - i,
{
    if p.done() {
        Some(p.finished().maze)
    } else if 0 <= i < draws.len() {
        kruskal_replay(p.stepped(draws[i]), draws, i + 1)
    } else {
        None
    }
}

/// The maze that the backtracker leaves when it takes its picks from `draws`,
/// from the one at place `i` on: none where the draws run out before the maze
/// is complete.
pub open spec fn backtracker_replay(p: BacktrackerView, draws: Seq<Draws>, i: int) -> Option<
    MazeView,
>
    decreases draws.len() - i,
{
    if p.closing {
        Some(p.finished().maze)
    } else if 0 <= i < draws.len() {
        backtracker_replay(p.stepped(draws[i].pick), draws, i + 1)
    } else {
        None
    }
}

/// The maze that `algorithm` generates on the pristine maze `m` when it takes
/// the draws of its steps from `draws`, one set for each step.
pub open spec fn replay(algorithm: AlgorithmKind, m: MazeView, draws: Seq<Draws>) -> Option<MazeView> {
    match algorithm {
        AlgorithmKind::Prim => prim_replay(PrimView::start(m), draws, 0),
        AlgorithmKind::Kruskal => kruskal_replay(KruskalView::start(m), draws, 0),
        AlgorithmKind::Backtracker => backtracker_replay(BacktrackerView::start(m), draws, 0),
    }
}

/// Runs Prim's algorithm on the given draws.
fn replay_prim(maze: Maze, draws: &Vec<Draws>) -> (r: Option<Maze>)
    requires
        maze.wf(),
        maze@.pristine(),
    ensures
        match r {
            Some(m) => m.wf() && replay(AlgorithmKind::Prim, maze@, draws@) == Some(m@)
                && prim_complete(m@) && maze@.same_frame(m@),
            None => replay(AlgorithmKind::Prim, maze@, draws@) is None,
        },
{
    let mut a = Prim::init(maze);
    let mut i: usize = 0;
    while !a.is_done()
        invariant
            a.wf(),
            i <= draws.len(),
            maze@.same_frame(a@.maze),
            prim_replay(a@, draws@, i as int) == replay(AlgorithmKind::Prim, maze@, draws@),
        decreases draws.len() - i,
    {
        if i >= draws.len() {
            return None;
        }
        a.step(&draws[i]);
        i = i + 1;
    }
    proof {
        lemma_prim_finished(a@);
        lemma_prim_sealed(a@);
        lemma_prim_rooted(a@.finished());
    }
    a.finish();
    Some(Prim::into_maze(a))
}

/// Runs Kruskal's algorithm on the given draws.
fn replay_kruskal(maze: Maze, draws: &Vec<Draws>) -> (r: Option<Maze>)
    requires
        maze.wf(),
        maze@.pristine(),
    ensures
        match r {
            Some(m) => m.wf() && replay(AlgorithmKind::Kruskal, maze@, draws@) == Some(m@)
                && kruskal_complete(m@) && maze@.same_frame(m@),
            None => replay(AlgorithmKind::Kruskal, maze@, draws@) is None,
        },
{
    let mut a = Kruskal::init(maze);
    let mut i: usize = 0;
    while !a.is_done()
        invariant
            a.wf(),
            !a.closed(),
            i <= draws.len(),
            maze@.same_frame(a@.maze),
            kruskal_replay(a@, draws@, i as int) == replay(AlgorithmKind::Kruskal, maze@, draws@),
        decreases draws.len() - i,
    {
        if i >= draws.len() {
            return None;
        }
        a.step(&draws[i]);
        i = i + 1;
    }
    proof {
        lemma_kruskal_finished(a@);
    }
    a.finish();
    Some(Kruskal::into_maze(a))
}

/// Runs the backtracker on the picks of the given draws.
fn replay_backtracker(maze: Maze, draws: &Vec<Draws>) -> (r: Option<Maze>)
    requires
        maze.wf(),
        maze@.pristine(),
    ensures
        match r {
            Some(m) => m.wf() && replay(AlgorithmKind::Backtracker, maze@, draws@) == Some(m@)
                && backtracker_complete(m@) && maze@.same_frame(m@),
            None => replay(AlgorithmKind::Backtracker, maze@, draws@) is None,
        },
{
    let mut a = Backtracker::init(maze);
    let mut i: usize = 0;
    while !a.is_closing()
        invariant
            a.wf(),
            a@.maze.scale == Scale::Steps,
            i <= draws.len(),
            maze@.same_frame(a@.maze),
            backtracker_replay(a@, draws@, i as int) == replay(
                AlgorithmKind::Backtracker,
                maze@,
                draws@,
            ),
        decreases draws.len() - i,
    {
        if i >= draws.len() {
            return None;
        }
        a.step(draws[i].pick);
        i = i + 1;
    }
    proof {
        lemma_backtracker_sealed(a@);
        lemma_backtracker_rooted(a@.finished());
        lemma_backtracker_finished(a@);
    }
    a.finish();
    Some(Backtracker::into_maze(a))
}

/// Generates a maze with `algorithm` on a maze to which nothing has happened
/// yet, taking the draws of each step from `draws` in place of chance: the same
/// draws give the same maze. Hands back nothing where the draws run out before
/// the maze is complete.
pub fn generate_with(maze: Maze, algorithm: AlgorithmKind, draws: &Vec<Draws>) -> (r: Option<Maze>)
    requires
        maze.wf(),
        maze@.pristine(),
    ensures
        match r {
            Some(m) => m.wf() && replay(algorithm, maze@, draws@) == Some(m@) && complete_for(
                algorithm,
                m@,
            ) && maze@.same_frame(m@),
            None => replay(algorithm, maze@, draws@) is None,
        },
{
    match algorithm {
        AlgorithmKind::Prim => replay_prim(maze, draws),
        AlgorithmKind::Kruskal => replay_kruskal(maze, draws),
        AlgorithmKind::Backtracker => replay_backtracker(maze, draws),
    }
}

} // verus!
