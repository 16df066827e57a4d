//! Iterative-deepening A* search over any problem that can list the
//! neighbours of a state.

use vstd::prelude::*;

verus! {

/// A search problem the IDA* engine can solve.
pub trait SearchProblem {
    /// Compactly encoded state.
    type State;
    /// A move in the problem's move set.
    type Move: Copy;

    /// Whether a state is a goal.
    spec fn goal(&self, s: Self::State) -> bool;

    /// The state a move leads to.
    spec fn next(&self, s: Self::State, m: Self::Move) -> Self::State;

    /// The lower bound that `heuristic` reports.
    spec fn estimate(&self, s: Self::State) -> u8;

    fn is_goal(&self, state: &Self::State) -> (r: bool)
        ensures
            r == self.goal(*state),
    ;

    /// Lower bound on the number of moves to reach a goal.
    fn heuristic(&self, state: &Self::State) -> (r: u8)
        ensures
            r == self.estimate(*state),
    ;

    /// The moves that `neighbors` lists for a state.
    spec fn legal(&self, s: Self::State, m: Self::Move) -> bool;

    /// The moves that `prune_redundant` skips after `last`: none unless a
    /// problem says otherwise.
    open spec fn pruned(&self, last: Option<Self::Move>, next: Self::Move) -> bool {
        false
    }

    /// All `(move, next_state)` neighbours of `state`: every legal move,
    /// each with the state it leads to.
    fn neighbors(&self, state: &Self::State) -> (r: Vec<(Self::Move, Self::State)>)
        ensures
            forall|i: int| 0 <= i < r@.len() ==> (#[trigger] r@[i]).1 == self.next(*state, r@[i].0) && self.legal(
                *state,
                r@[i].0,
            ),
            forall|m: Self::Move| #[trigger] self.legal(*state, m) ==> exists|i: int| 0 <= i < r@.len() && r@[i].0 == m,
    ;

    /// Skip moves that are trivially redundant after `last`.
    fn prune_redundant(&self, last: Option<Self::Move>, next: Self::Move) -> (r: bool)
        ensures
            r == self.pruned(last, next),
    ;
}

/// A path the search may take from `s` after move `last`: each move legal
/// where it is made and not skipped after the move before it.
pub open spec fn searched<P: SearchProblem>(p: &P, s: P::State, last: Option<P::Move>, path: Seq<P::Move>) -> bool
    decreases path.len(),
{
    path.len() == 0 || (p.legal(s, path[0]) && !p.pruned(last, path[0]) && searched(
        p,
        p.next(s, path[0]),
        Some(path[0]),
        path.subrange(1, path.len() as int),
    ))
}

/// The estimate never exceeds the length of a path the search may take
/// to a goal.
pub open spec fn admissible<P: SearchProblem>(p: &P) -> bool {
    forall|s: P::State, last: Option<P::Move>, path: Seq<P::Move>|
        #[trigger] searched(p, s, last, path) && p.goal(walk(p, s, path)) ==> p.estimate(s) <= path.len()
}

/// Every path the search may take from `s` to a goal costs, with the `g`
/// moves already made, at least `lb`.
pub open spec fn goal_paths_cost_at_least<P: SearchProblem>(
    p: &P,
    s: P::State,
    last: Option<P::Move>,
    g: int,
    lb: int,
) -> bool {
    forall|path: Seq<P::Move>| #[trigger] searched(p, s, last, path) && p.goal(walk(p, s, path)) ==> g + path.len() >= lb
}

/// The state reached by following `path` from `s`.
pub open spec fn walk<P: SearchProblem>(p: &P, s: P::State, path: Seq<P::Move>) -> P::State
    decreases path.len(),
{
    if path.len() == 0 {
        s
    } else {
        walk(p, p.next(s, path[0]), path.subrange(1, path.len() as int))
    }
}

/// Following `m` and then `t` is following `seq![m] + t`.
pub proof fn lemma_walk_cons<P: SearchProblem>(p: &P, s: P::State, m: P::Move, t: Seq<P::Move>)
    ensures
        walk(p, s, seq![m] + t) == walk(p, p.next(s, m), t),
{
    let mt = seq![m] + t;
    assert(mt.len() > 0);
    assert(mt[0] == m);
    assert(mt.subrange(1, mt.len() as int) =~= t);
}

enum DfsOutcome {
    Found,
    NewBound(u8),
    Exhausted,
}

fn dfs<P: SearchProblem>(
    problem: &P,
    state: &P::State,
    path: &mut Vec<P::Move>,
    g: u8,
    bound: u8,
    last_move: Option<P::Move>,
) -> (r: DfsOutcome)
    requires
        g <= bound + 1,
        bound < 255,
    ensures
        match r {
            DfsOutcome::Found => exists|suffix: Seq<P::Move>|
                #![trigger old(path)@ + suffix]
                final(path)@ == old(path)@ + suffix && problem.goal(walk(problem, *state, suffix)) && g
                    + suffix.len() <= bound,
            DfsOutcome::NewBound(b) => b > bound && final(path)@ == old(path)@,
            DfsOutcome::Exhausted => final(path)@ == old(path)@,
        },
        g + problem.estimate(*state) <= bound && problem.goal(*state) ==> (r is Found && final(path)@
            == old(path)@),
        admissible(problem) ==> match r {
            DfsOutcome::NewBound(b) => goal_paths_cost_at_least(problem, *state, last_move, g as int, b as int),
            DfsOutcome::Exhausted => goal_paths_cost_at_least(problem, *state, last_move, g as int, 255),
            DfsOutcome::Found => true,
        },
    decreases bound + 1 - g,
{
    let h = problem.heuristic(state);
    let f = g.saturating_add(h);
    if f > bound {
        proof {
            if admissible(problem) {
                assert forall|path: Seq<P::Move>| #[trigger] searched(problem, *state, last_move, path) && problem.goal(
                    walk(problem, *state, path),
                ) implies g + path.len() >= f by {
                    assert(problem.estimate(*state) <= path.len());
                }
            }
        }
        return DfsOutcome::NewBound(f);
    }
    if problem.is_goal(state) {
        proof {
            assert(old(path)@ + Seq::<P::Move>::empty() =~= old(path)@);
        }
        return DfsOutcome::Found;
    }
    let mut min_next_bound: u8 = 255;
    let nbrs = problem.neighbors(state);
    let mut i: usize = 0;
    while i < nbrs.len()
        invariant
            g <= bound,
            bound < 255,
            path@ == old(path)@,
            min_next_bound > bound,
            !problem.goal(*state),
            i <= nbrs@.len(),
            forall|k: int| 0 <= k < nbrs@.len() ==> (#[trigger] nbrs@[k]).1 == problem.next(*state, nbrs@[k].0),
            admissible(problem) ==> forall|k: int|
                0 <= k < i && !problem.pruned(last_move, nbrs@[k].0) ==> #[trigger] goal_paths_cost_at_least(
                    problem,
                    problem.next(*state, nbrs@[k].0),
                    Some(nbrs@[k].0),
                    g + 1,
                    min_next_bound as int,
                ),
        decreases nbrs@.len() - i,
    {
        let m = nbrs[i].0;
        let ghost old_min = min_next_bound;
        if !problem.prune_redundant(last_move, m) {
            let next = &nbrs[i].1;
            let ghost before = path@;
            path.push(m);
            match dfs(problem, next, path, g + 1, bound, Some(m)) {
                DfsOutcome::Found => {
                    proof {
                        let suffix = choose|suffix: Seq<P::Move>|
                            #![trigger before.push(m) + suffix]
                            path@ == before.push(m) + suffix && problem.goal(walk(problem, *next, suffix)) && g + 1
                                + suffix.len() <= bound;
                        let full = seq![m] + suffix;
                        assert(before.push(m) + suffix =~= before + full);
                        assert(nbrs@[i as int].1 == problem.next(*state, m));
                        lemma_walk_cons(problem, *state, m, suffix);
                    }
                    return DfsOutcome::Found;
                },
                DfsOutcome::NewBound(b) => {
                    if b < min_next_bound {
                        min_next_bound = b;
                    }
                },
                DfsOutcome::Exhausted => {},
            }
            path.pop();
            proof {
                assert(path@ =~= before);
            }
        }
        proof {
            if admissible(problem) {
                assert forall|k: int|
                    0 <= k < i + 1 && !problem.pruned(last_move, nbrs@[k].0) implies #[trigger] goal_paths_cost_at_least(
                    problem,
                    problem.next(*state, nbrs@[k].0),
                    Some(nbrs@[k].0),
                    g + 1,
                    min_next_bound as int,
                ) by {
                    if k < i {
                        assert(goal_paths_cost_at_least(
                            problem,
                            problem.next(*state, nbrs@[k].0),
                            Some(nbrs@[k].0),
                            g + 1,
                            old_min as int,
                        ));
                    }
                }
            }
        }
        i = i + 1;
    }
    proof {
        if admissible(problem) {
            assert forall|path: Seq<P::Move>| #[trigger] searched(problem, *state, last_move, path) && problem.goal(
                walk(problem, *state, path),
            ) implies g + path.len() >= min_next_bound by {
                assert(path.len() > 0);
                let m = path[0];
                let rest = path.subrange(1, path.len() as int);
                assert(problem.legal(*state, m));
                let k = choose|k: int| 0 <= k < nbrs@.len() && nbrs@[k].0 == m;
                assert(goal_paths_cost_at_least(problem, problem.next(*state, nbrs@[k].0), Some(nbrs@[k].0), g + 1, min_next_bound as int));
                assert(searched(problem, problem.next(*state, m), Some(m), rest));
                assert(walk(problem, *state, path) == walk(problem, problem.next(*state, m), rest));
            }
        }
    }
    if min_next_bound == 255 {
        DfsOutcome::Exhausted
    } else {
        DfsOutcome::NewBound(min_next_bound)
    }
}

/// Run IDA* up to `max_depth` moves. Returns `None` if no solution was
/// found within the bound; a returned path reaches a goal and is no
/// longer than `max_depth`.
pub fn ida_star<P: SearchProblem>(problem: &P, start: P::State, max_depth: u8) -> (r: Option<Vec<P::Move>>)
    requires
        max_depth < 255,
    ensures
        r matches Some(p) ==> problem.goal(walk(problem, start, p@)) && p@.len() <= max_depth,
        problem.goal(start) && problem.estimate(start) <= max_depth ==> (r matches Some(p) && p@.len() == 0),
        problem.estimate(start) > max_depth ==> r is None,
        admissible(problem) ==> (r is None ==> forall|path: Seq<P::Move>|
            #[trigger] searched(problem, start, None, path) && problem.goal(walk(problem, start, path)) ==> path.len()
                > max_depth),
        admissible(problem) ==> (r matches Some(p) ==> forall|path: Seq<P::Move>|
            #[trigger] searched(problem, start, None, path) && problem.goal(walk(problem, start, path)) ==> p@.len()
                <= path.len()),
{
    let mut bound = problem.heuristic(&start);
    if bound > max_depth {
        return None;
    }
    let ghost first = true;
    loop
        invariant
            bound <= max_depth,
            max_depth < 255,
            first ==> bound == problem.estimate(start),
            problem.estimate(start) <= max_depth,
            !first ==> !problem.goal(start),
            admissible(problem) ==> goal_paths_cost_at_least(problem, start, None, 0, bound as int),
        decreases max_depth - bound,
    {
        let mut path: Vec<P::Move> = Vec::new();
        match dfs(problem, &start, &mut path, 0, bound, None) {
            DfsOutcome::Found => {
                proof {
                    let suffix = choose|suffix: Seq<P::Move>|
                        #![trigger Seq::<P::Move>::empty() + suffix]
                        path@ == Seq::<P::Move>::empty() + suffix && problem.goal(walk(problem, start, suffix)) && 0
                            + suffix.len() <= bound;
                    assert(Seq::<P::Move>::empty() + suffix =~= suffix);
                }
                return Some(path);
            },
            DfsOutcome::NewBound(b) => {
                if b > max_depth {
                    return None;
                }
                bound = b;
                proof {
                    first = false;
                }
            },
            DfsOutcome::Exhausted => {
                return None;
            },
        }
    }
}

} // verus!
