//! Game-tree search over any game that a delegate describes: the plain
//! minimax search and the alpha-beta search that prunes it.

use vstd::prelude::*;

verus! {

/// What the search must know of a game. The rules are stated over the view
/// of a state, the position; the executable methods act on the state itself
/// and are held to the rules by their contracts.
pub trait MinimaxDelegate<S: View, M> {
    /// The state can be handed to the methods below.
    spec fn valid(&self, state: S) -> bool;

    /// The position can be searched at `depth`.
    spec fn admissible(&self, pos: S::V, depth: nat) -> bool;

    /// The legal moves at a position, in the order in which they are
    /// tried.
    spec fn moves(&self, pos: S::V, depth: nat) -> Seq<M>;

    /// The position after a move.
    spec fn after(&self, pos: S::V, mv: M, depth: nat) -> S::V;

    /// Two positions that the search need not tell apart: they have the
    /// same moves with the same results. Taking a move back restores a
    /// position up to this relation.
    spec fn alike(&self, a: S::V, b: S::V) -> bool;

    /// The game goes on at the position: it is neither won nor drawn.
    spec fn continues(&self, pos: S::V, depth: nat) -> bool;

    /// What the position is worth to the maximizing side.
    spec fn value(&self, pos: S::V, depth: nat) -> isize;

    /// The maximizing side is to move.
    spec fn maximizing(&self, pos: S::V, depth: nat) -> bool;

    /// The depth beyond which the search never descends.
    spec fn plies(&self) -> nat;

    /// Every position that can be searched is like itself.
    proof fn lemma_alike_reflexive(&self, pos: S::V, depth: nat)
        requires
            self.admissible(pos, depth),
        ensures
            self.alike(pos, pos),
    ;

    /// Positions that are alike are searched alike.
    proof fn lemma_alike_plays_alike(&self, a: S::V, b: S::V, depth: nat)
        requires
            self.alike(a, b),
            self.admissible(b, depth),
        ensures
            self.admissible(a, depth),
            self.moves(a, depth) == self.moves(b, depth),
            self.maximizing(a, depth) == self.maximizing(b, depth),
            forall|mv: M|
                self.moves(b, depth).contains(mv) ==> #[trigger] self.after(a, mv, depth)
                    == self.after(b, mv, depth),
    ;

    /// A legal move leads to a position that can be searched one level
    /// deeper.
    proof fn lemma_move_keeps_admissible(&self, pos: S::V, mv: M, depth: nat)
        requires
            self.admissible(pos, depth),
            self.moves(pos, depth).contains(mv),
        ensures
            self.admissible(self.after(pos, mv, depth), depth + 1),
    ;

    /// Where the game goes on after a move, there is a move to make.
    proof fn lemma_continuing_has_moves(&self, pos: S::V, mv: M, depth: nat)
        requires
            self.admissible(pos, depth),
            self.moves(pos, depth).contains(mv),
            self.continues(self.after(pos, mv, depth), depth + 1),
        ensures
            self.moves(self.after(pos, mv, depth), depth + 1).len() > 0,
    ;

    /// All legal moves at this node.
    fn possible_moves(&self, state: &mut S, depth: usize) -> (moves: Vec<M>)
        requires
            self.valid(*old(state)),
            self.admissible(old(state)@, depth as nat),
        ensures
            self.valid(*final(state)),
            final(state)@ == old(state)@,
            moves@ == self.moves(old(state)@, depth as nat),
    ;

    /// Makes the move on the state.
    fn do_move(&self, state: &mut S, mv: &M, depth: usize)
        requires
            self.valid(*old(state)),
            self.admissible(old(state)@, depth as nat),
            self.moves(old(state)@, depth as nat).contains(*mv),
        ensures
            self.valid(*final(state)),
            final(state)@ == self.after(old(state)@, *mv, depth as nat),
    ;

    /// Whether the game goes on at this node.
    fn should_continue(&self, state: &mut S, depth: usize) -> (goes_on: bool)
        requires
            self.valid(*old(state)),
            self.admissible(old(state)@, depth as nat),
        ensures
            self.valid(*final(state)),
            final(state)@ == old(state)@,
            goes_on == self.continues(old(state)@, depth as nat),
    ;

    /// Takes back a move. Where the state is like the position that the
    /// move, legal at a searchable position, has led to, the state is then
    /// like that earlier position again.
    fn undo_move(&self, state: &mut S, mv: &M, depth: usize)
        requires
            self.valid(*old(state)),
            exists|before: S::V|
                self.admissible(before, depth as nat) && self.moves(before, depth as nat).contains(
                    *mv,
                ) && self.alike(old(state)@, #[trigger] self.after(before, *mv, depth as nat)),
        ensures
            self.valid(*final(state)),
            forall|before: S::V|
                self.admissible(before, depth as nat) && self.moves(before, depth as nat).contains(
                    *mv,
                ) && self.alike(old(state)@, #[trigger] self.after(before, *mv, depth as nat))
                    ==> self.alike(final(state)@, before),
    ;

    /// The worth of this node to the maximizing side.
    fn score(&self, state: &mut S, depth: usize) -> (worth: isize)
        requires
            self.valid(*old(state)),
            self.admissible(old(state)@, depth as nat),
        ensures
            self.valid(*final(state)),
            final(state)@ == old(state)@,
            worth == self.value(old(state)@, depth as nat),
    ;

    /// Whether the maximizing side is to move at this node.
    #[allow(non_snake_case)]
    fn shouldMaximize(&self, state: &mut S, depth: usize) -> (maximize: bool)
        requires
            self.valid(*old(state)),
            self.admissible(old(state)@, depth as nat),
        ensures
            self.valid(*final(state)),
            final(state)@ == old(state)@,
            maximize == self.maximizing(old(state)@, depth as nat),
    ;

    /// The depth beyond which the search never descends.
    fn max_plies(&self) -> (plies: usize)
        ensures
            plies == self.plies(),
    ;
}

/// Levels that the search may still descend below `depth`.
pub open spec fn remaining(plies: nat, depth: nat) -> nat {
    if depth < plies {
        (plies - depth) as nat
    } else {
        0
    }
}

/// Whether the score `new` is to be preferred to `old`: strictly larger for
/// the maximizing side, strictly smaller for the other.
pub open spec fn improves(maximizing: bool, new: int, old: int) -> bool {
    if maximizing {
        new > old
    } else {
        new < old
    }
}

/// The search stops at a position: the game is over there, or the depth
/// limit is reached.
pub open spec fn is_leaf<S: View, M, D: MinimaxDelegate<S, M>>(
    delegate: &D,
    pos: S::V,
    depth: nat,
) -> bool {
    !delegate.continues(pos, depth) || depth >= delegate.plies()
}

/// The score of move `i` at a position: the worth of the position that the
/// move leads to where the search stops there, else the score of the best
/// reply to it.
pub open spec fn child_score<S: View, M, D: MinimaxDelegate<S, M>>(
    delegate: &D,
    pos: S::V,
    depth: nat,
    i: int,
) -> int
    decreases remaining(delegate.plies(), depth), 0int,
{
    let child = delegate.after(pos, delegate.moves(pos, depth)[i], depth);
    if is_leaf(delegate, child, depth + 1) {
        delegate.value(child, depth + 1) as int
    } else {
        child_score(
            delegate,
            child,
            depth + 1,
            best_child(delegate, child, depth + 1, delegate.moves(child, depth + 1).len() as int),
        )
    }
}

/// Index of the best among the first `n` moves at a position, the earliest
/// where several are best: the largest score counts where the maximizing
/// side is to move, the smallest where the other is.
pub open spec fn best_child<S: View, M, D: MinimaxDelegate<S, M>>(
    delegate: &D,
    pos: S::V,
    depth: nat,
    n: int,
) -> int
    decreases remaining(delegate.plies(), depth), n,
{
    if n <= 1 {
        0
    } else {
        let earlier = best_child(delegate, pos, depth, n - 1);
        if improves(
            delegate.maximizing(pos, depth),
            child_score(delegate, pos, depth, n - 1),
            child_score(delegate, pos, depth, earlier),
        ) {
            n - 1
        } else {
            earlier
        }
    }
}

/// Index of the move that minimax chooses at a position.
pub open spec fn minimax_index<S: View, M, D: MinimaxDelegate<S, M>>(
    delegate: &D,
    pos: S::V,
    depth: nat,
) -> int {
    best_child(delegate, pos, depth, delegate.moves(pos, depth).len() as int)
}

/// The move that minimax chooses at a position.
pub open spec fn minimax_move<S: View, M, D: MinimaxDelegate<S, M>>(
    delegate: &D,
    pos: S::V,
    depth: nat,
) -> M {
    delegate.moves(pos, depth)[minimax_index(delegate, pos, depth)]
}

/// The score of the move that minimax chooses at a position.
pub open spec fn minimax_score<S: View, M, D: MinimaxDelegate<S, M>>(
    delegate: &D,
    pos: S::V,
    depth: nat,
) -> int {
    child_score(delegate, pos, depth, minimax_index(delegate, pos, depth))
}

/// How many positions the plain search evaluates in trying the first `n`
/// moves at a position: each position that a move leads to, and what is
/// evaluated below it where the search goes on.
pub open spec fn visits_upto<S: View, M, D: MinimaxDelegate<S, M>>(
    delegate: &D,
    pos: S::V,
    depth: nat,
    n: int,
) -> nat
    decreases remaining(delegate.plies(), depth), n,
{
    if n <= 0 {
        0
    } else {
        let child = delegate.after(pos, delegate.moves(pos, depth)[n - 1], depth);
        let below: nat = if is_leaf(delegate, child, depth + 1) {
            0
        } else {
            visits_upto(
                delegate,
                child,
                depth + 1,
                delegate.moves(child, depth + 1).len() as int,
            )
        };
        visits_upto(delegate, pos, depth, n - 1) + 1 + below
    }
}

/// How many positions the plain search evaluates below a position.
pub open spec fn minimax_visits<S: View, M, D: MinimaxDelegate<S, M>>(
    delegate: &D,
    pos: S::V,
    depth: nat,
) -> nat {
    visits_upto(delegate, pos, depth, delegate.moves(pos, depth).len() as int)
}

/// A count as far as 64 bits hold it.
pub open spec fn capped(n: nat) -> u64 {
    if n > u64::MAX {
        u64::MAX
    } else {
        n as u64
    }
}

/// The sum of two counts, as far as 64 bits hold it.
fn add_capped(a: u64, b: u64) -> (sum: u64)
    ensures
        sum == capped((a + b) as nat),
{
    if a > u64::MAX - b {
        u64::MAX
    } else {
        a + b
    }
}

/// What a search has found at a position.
#[derive(Debug, PartialEq, Eq)]
pub struct Outcome<M> {
    /// The chosen move.
    pub best: M,
    /// The score of the chosen move.
    pub score: isize,
    /// How many positions were evaluated, as far as 64 bits count.
    pub visited: u64,
}

/// Searches the whole tree below the state down to the depth limit and
/// chooses the move with the best score for the side to move, the earliest
/// of several. Every move is made on the state and taken back, so the state
/// ends like it began.
pub fn minimax_search<S: View, M: Copy, D: MinimaxDelegate<S, M>>(
    delegate: &D,
    state: &mut S,
    depth: usize,
) -> (found: Outcome<M>)
    requires
        delegate.valid(*old(state)),
        delegate.admissible(old(state)@, depth as nat),
        delegate.moves(old(state)@, depth as nat).len() > 0,
        depth < usize::MAX,
    ensures
        delegate.valid(*final(state)),
        delegate.alike(final(state)@, old(state)@),
        found.best == minimax_move(delegate, old(state)@, depth as nat),
        found.score == minimax_score(delegate, old(state)@, depth as nat),
        found.visited == capped(minimax_visits(delegate, old(state)@, depth as nat)),
    decreases remaining(delegate.plies(), depth as nat),
{
    let ghost pos = state@;
    let moves = delegate.possible_moves(state, depth);
    let maximize = delegate.shouldMaximize(state, depth);
    let limit: usize = delegate.max_plies();
    let mut best: usize = 0;
    let mut best_score: isize = 0;
    let mut visited: u64 = 0;
    let mut i: usize = 0;
    proof {
        delegate.lemma_alike_reflexive(pos, depth as nat);
    }
    while i < moves.len()
        invariant
            delegate.valid(*state),
            delegate.alike(state@, pos),
            delegate.admissible(pos, depth as nat),
            moves@ == delegate.moves(pos, depth as nat),
            maximize == delegate.maximizing(pos, depth as nat),
            limit == delegate.plies(),
            depth < usize::MAX,
            0 <= i <= moves@.len(),
            best == best_child(delegate, pos, depth as nat, i as int),
            i > 0 ==> best < i && best_score == child_score(
                delegate,
                pos,
                depth as nat,
                best as int,
            ),
            visited == capped(visits_upto(delegate, pos, depth as nat, i as int)),
        decreases moves@.len() - i,
    {
        let mv: M = moves[i];
        let ghost child = delegate.after(pos, mv, depth as nat);
        proof {
            delegate.lemma_alike_plays_alike(state@, pos, depth as nat);
            delegate.lemma_move_keeps_admissible(pos, mv, depth as nat);
            delegate.lemma_alike_reflexive(child, (depth + 1) as nat);
        }
        delegate.do_move(state, &mv, depth);
        let goes_on = delegate.should_continue(state, depth + 1);
        let mut below: u64 = 0;
        let mut score: isize = 0;
        if !goes_on || depth + 1 >= limit {
            score = delegate.score(state, depth + 1);
        } else {
            proof {
                delegate.lemma_continuing_has_moves(pos, mv, depth as nat);
            }
            let reply = minimax_search(delegate, state, depth + 1);
            score = reply.score;
            below = reply.visited;
        }
        delegate.undo_move(state, &mv, depth);
        assert(score == child_score(delegate, pos, depth as nat, i as int));
        visited = add_capped(visited, add_capped(1, below));
        if i == 0 || (maximize && score > best_score) || (!maximize && score < best_score) {
            best = i;
            best_score = score;
        }
        i = i + 1;
    }
    Outcome { best: moves[best], score: best_score, visited }
}

/// Where the pruned search stands at a position after some of its moves.
pub struct Window {
    /// The best score that the maximizing side is sure of.
    pub alpha: int,
    /// The best score that the minimizing side is sure of.
    pub beta: int,
    /// Index of the move that gave the side to move its bound, 0 while none
    /// did.
    pub best: int,
    /// How many positions were evaluated.
    pub visits: nat,
}

impl Window {
    /// The bound of the side to move.
    pub open spec fn bound(self, maximizing: bool) -> int {
        if maximizing {
            self.alpha
        } else {
            self.beta
        }
    }

    /// The window after a move of the side to move has scored `score` and
    /// `below` positions were evaluated under it: the bound of that side
    /// moves to the score where the score improves on it.
    pub open spec fn scored(self, maximizing: bool, i: int, score: int, below: nat) -> Window {
        let visits = self.visits + 1 + below;
        if !improves(maximizing, score, self.bound(maximizing)) {
            Window { visits, ..self }
        } else if maximizing {
            Window { alpha: score, best: i, visits, ..self }
        } else {
            Window { beta: score, best: i, visits, ..self }
        }
    }
}

/// The pruned search at a position after its first `n` moves, begun with
/// the window from `alpha` to `beta`. A move is tried while the window is
/// open; it is searched with the window as it then stands, and its score
/// moves the bound of the side to move where it improves on it. Once the
/// window has closed, no further move is tried.
pub open spec fn pruned_scan<S: View, M, D: MinimaxDelegate<S, M>>(
    delegate: &D,
    pos: S::V,
    depth: nat,
    alpha: int,
    beta: int,
    n: int,
) -> Window
    decreases remaining(delegate.plies(), depth), n,
{
    if n <= 0 {
        Window { alpha, beta, best: 0, visits: 0 }
    } else {
        let prev = pruned_scan(delegate, pos, depth, alpha, beta, n - 1);
        if prev.alpha >= prev.beta {
            prev
        } else {
            let child = delegate.after(pos, delegate.moves(pos, depth)[n - 1], depth);
            if is_leaf(delegate, child, depth + 1) {
                prev.scored(
                    delegate.maximizing(pos, depth),
                    n - 1,
                    delegate.value(child, depth + 1) as int,
                    0,
                )
            } else {
                let reply = pruned_scan(
                    delegate,
                    child,
                    depth + 1,
                    prev.alpha,
                    prev.beta,
                    delegate.moves(child, depth + 1).len() as int,
                );
                prev.scored(
                    delegate.maximizing(pos, depth),
                    n - 1,
                    reply.bound(delegate.maximizing(child, depth + 1)),
                    reply.visits,
                )
            }
        }
    }
}

/// The pruned search at a position after all its moves.
pub open spec fn pruned_node<S: View, M, D: MinimaxDelegate<S, M>>(
    delegate: &D,
    pos: S::V,
    depth: nat,
    alpha: int,
    beta: int,
) -> Window {
    pruned_scan(delegate, pos, depth, alpha, beta, delegate.moves(pos, depth).len() as int)
}

/// Once the window has closed, the pruned search stays as it is.
proof fn lemma_closed_window_stays<S: View, M, D: MinimaxDelegate<S, M>>(
    delegate: &D,
    pos: S::V,
    depth: nat,
    alpha: int,
    beta: int,
    n: int,
    later: int,
)
    requires
        0 <= n <= later,
        pruned_scan(delegate, pos, depth, alpha, beta, n).alpha >= pruned_scan(
            delegate,
            pos,
            depth,
            alpha,
            beta,
            n,
        ).beta,
    ensures
        pruned_scan(delegate, pos, depth, alpha, beta, later) == pruned_scan(
            delegate,
            pos,
            depth,
            alpha,
            beta,
            n,
        ),
    decreases later - n,
{
    if n < later {
        lemma_closed_window_stays(delegate, pos, depth, alpha, beta, n, later - 1);
    }
}

/// Searches the tree below the state as the plain search does, but with a
/// window from `alpha` to `beta` that narrows as moves are scored, and
/// leaves out the moves that remain once the window has closed.
pub fn alpha_beta_search<S: View, M: Copy, D: MinimaxDelegate<S, M>>(
    delegate: &D,
    state: &mut S,
    depth: usize,
    alpha: isize,
    beta: isize,
) -> (found: Outcome<M>)
    requires
        delegate.valid(*old(state)),
        delegate.admissible(old(state)@, depth as nat),
        delegate.moves(old(state)@, depth as nat).len() > 0,
        depth < usize::MAX,
        alpha < beta,
    ensures
        delegate.valid(*final(state)),
        delegate.alike(final(state)@, old(state)@),
        ({
            let end = pruned_node(delegate, old(state)@, depth as nat, alpha as int, beta as int);
            &&& 0 <= end.best < delegate.moves(old(state)@, depth as nat).len()
            &&& found.best == delegate.moves(old(state)@, depth as nat)[end.best]
            &&& found.score == end.bound(delegate.maximizing(old(state)@, depth as nat))
            &&& found.visited == capped(end.visits)
        }),
    decreases remaining(delegate.plies(), depth as nat),
{
    let ghost pos = state@;
    let moves = delegate.possible_moves(state, depth);
    let maximize = delegate.shouldMaximize(state, depth);
    let limit: usize = delegate.max_plies();
    let mut low: isize = alpha;
    let mut high: isize = beta;
    let mut best: usize = 0;
    let mut visited: u64 = 0;
    let mut i: usize = 0;
    proof {
        delegate.lemma_alike_reflexive(pos, depth as nat);
    }
    while i < moves.len() && low < high
        invariant
            delegate.valid(*state),
            delegate.alike(state@, pos),
            delegate.admissible(pos, depth as nat),
            moves@ == delegate.moves(pos, depth as nat),
            moves@.len() > 0,
            maximize == delegate.maximizing(pos, depth as nat),
            limit == delegate.plies(),
            depth < usize::MAX,
            0 <= i <= moves@.len(),
            0 <= best < moves@.len(),
            ({
                let now = pruned_scan(
                    delegate,
                    pos,
                    depth as nat,
                    alpha as int,
                    beta as int,
                    i as int,
                );
                &&& low == now.alpha
                &&& high == now.beta
                &&& best == now.best
                &&& visited == capped(now.visits)
            }),
        decreases moves@.len() - i,
    {
        let mv: M = moves[i];
        let ghost child = delegate.after(pos, mv, depth as nat);
        proof {
            delegate.lemma_alike_plays_alike(state@, pos, depth as nat);
            delegate.lemma_move_keeps_admissible(pos, mv, depth as nat);
            delegate.lemma_alike_reflexive(child, (depth + 1) as nat);
        }
        delegate.do_move(state, &mv, depth);
        let goes_on = delegate.should_continue(state, depth + 1);
        let mut below: u64 = 0;
        let mut score: isize = 0;
        if !goes_on || depth + 1 >= limit {
            score = delegate.score(state, depth + 1);
        } else {
            proof {
                delegate.lemma_continuing_has_moves(pos, mv, depth as nat);
            }
            let reply = alpha_beta_search(delegate, state, depth + 1, low, high);
            score = reply.score;
            below = reply.visited;
        }
        delegate.undo_move(state, &mv, depth);
        visited = add_capped(visited, add_capped(1, below));
        if maximize {
            if score > low {
                low = score;
                best = i;
            }
        } else {
            if score < high {
                high = score;
                best = i;
            }
        }
        i = i + 1;
    }
    proof {
        if i < moves@.len() {
            lemma_closed_window_stays(
                delegate,
                pos,
                depth as nat,
                alpha as int,
                beta as int,
                i as int,
                moves@.len() as int,
            );
        }
    }
    Outcome { best: moves[best], score: if maximize {
        low
    } else {
        high
    }, visited }
}

/// The best of the first `n` moves is one of them.
pub proof fn lemma_best_child_is_child<S: View, M, D: MinimaxDelegate<S, M>>(
    delegate: &D,
    pos: S::V,
    depth: nat,
    n: int,
)
    requires
        n >= 1,
    ensures
        0 <= best_child(delegate, pos, depth, n) < n,
    decreases n,
{
    if n > 1 {
        lemma_best_child_is_child(delegate, pos, depth, n - 1);
    }
}

/// The move that minimax chooses is the earliest of the best: no move
/// improves on its score, and every earlier move is strictly worse.
pub proof fn lemma_best_child_is_first_best<S: View, M, D: MinimaxDelegate<S, M>>(
    delegate: &D,
    pos: S::V,
    depth: nat,
    n: int,
)
    requires
        n >= 1,
    ensures
        forall|i: int|
            0 <= i < n ==> !improves(
                delegate.maximizing(pos, depth),
                #[trigger] child_score(delegate, pos, depth, i),
                child_score(delegate, pos, depth, best_child(delegate, pos, depth, n)),
            ),
        forall|i: int|
            0 <= i < best_child(delegate, pos, depth, n) ==> improves(
                delegate.maximizing(pos, depth),
                child_score(delegate, pos, depth, best_child(delegate, pos, depth, n)),
                #[trigger] child_score(delegate, pos, depth, i),
            ),
    decreases n,
{
    if n > 1 {
        lemma_best_child_is_first_best(delegate, pos, depth, n - 1);
        lemma_best_child_is_child(delegate, pos, depth, n - 1);
    }
}

/// A score that the pruned search finds stands for the exact score as far
/// as the window from `alpha` to `beta` can tell: inside the window it is
/// the exact score; where the exact score lies at or beyond a bound, it
/// lies between the exact score and that bound.
pub open spec fn stands_for(found: int, exact: int, alpha: int, beta: int) -> bool {
    &&& exact <= alpha ==> exact <= found <= alpha
    &&& exact >= beta ==> beta <= found <= exact
    &&& alpha < exact < beta ==> found == exact
}

/// What holds of the pruned search after `n` moves, against the best score
/// `best` of those moves: the bound of the side that waits is untouched,
/// and the bound of the side to move is the better of its first value and
/// `best` while the window is open, and lies between the other bound and
/// `best` once the window has closed.
pub open spec fn scan_tracks(
    maximizing: bool,
    alpha: int,
    beta: int,
    n: int,
    now: Window,
    best: int,
) -> bool {
    if n <= 0 {
        now.alpha == alpha && now.beta == beta
    } else if maximizing {
        &&& now.beta == beta
        &&& if now.alpha >= beta {
            beta <= now.alpha <= best
        } else if best > alpha {
            now.alpha == best
        } else {
            now.alpha == alpha
        }
    } else {
        &&& now.alpha == alpha
        &&& if now.beta <= alpha {
            best <= now.beta <= alpha
        } else if best < beta {
            now.beta == best
        } else {
            now.beta == beta
        }
    }
}

/// The pruned search keeps track of the best score of the moves that it
/// has tried.
proof fn lemma_scan_tracks<S: View, M, D: MinimaxDelegate<S, M>>(
    delegate: &D,
    pos: S::V,
    depth: nat,
    alpha: int,
    beta: int,
    n: int,
)
    requires
        delegate.admissible(pos, depth),
        alpha < beta,
        0 <= n <= delegate.moves(pos, depth).len(),
    ensures
        scan_tracks(
            delegate.maximizing(pos, depth),
            alpha,
            beta,
            n,
            pruned_scan(delegate, pos, depth, alpha, beta, n),
            child_score(delegate, pos, depth, best_child(delegate, pos, depth, n)),
        ),
    decreases remaining(delegate.plies(), depth), n,
{
    if n >= 1 {
        let maximizing = delegate.maximizing(pos, depth);
        let prev = pruned_scan(delegate, pos, depth, alpha, beta, n - 1);
        let now = pruned_scan(delegate, pos, depth, alpha, beta, n);
        let exact = child_score(delegate, pos, depth, n - 1);
        let best_before = child_score(
            delegate,
            pos,
            depth,
            best_child(delegate, pos, depth, n - 1),
        );
        let best_now = child_score(delegate, pos, depth, best_child(delegate, pos, depth, n));
        lemma_scan_tracks(delegate, pos, depth, alpha, beta, n - 1);
        // The best score changes only where the new move improves on it.
        assert(best_now == if n >= 2 && !improves(maximizing, exact, best_before) {
            best_before
        } else {
            exact
        });
        if prev.alpha < prev.beta {
            let mv = delegate.moves(pos, depth)[n - 1];
            let child = delegate.after(pos, mv, depth);
            assert(delegate.moves(pos, depth).contains(mv));
            if is_leaf(delegate, child, depth + 1) {
                assert(now == prev.scored(maximizing, n - 1, exact, 0));
            } else {
                // The move is searched on with the window as it stands: what
                // is found for it stands for its exact score.
                delegate.lemma_move_keeps_admissible(pos, mv, depth);
                delegate.lemma_continuing_has_moves(pos, mv, depth);
                lemma_pruned_score_stands_for_exact(
                    delegate,
                    child,
                    depth + 1,
                    prev.alpha,
                    prev.beta,
                );
                let reply = pruned_node(delegate, child, depth + 1, prev.alpha, prev.beta);
                let found = reply.bound(delegate.maximizing(child, depth + 1));
                assert(exact == minimax_score(delegate, child, depth + 1));
                assert(stands_for(found, exact, prev.alpha, prev.beta));
                assert(now == prev.scored(maximizing, n - 1, found, reply.visits));
            }
        } else {
            assert(now == prev);
        }
    }
}

/// Pruning does not change what a position is worth: the score that the
/// pruned search finds at a position stands for the score that the plain
/// search finds there, as far as the window can tell.
pub proof fn lemma_pruned_score_stands_for_exact<S: View, M, D: MinimaxDelegate<S, M>>(
    delegate: &D,
    pos: S::V,
    depth: nat,
    alpha: int,
    beta: int,
)
    requires
        delegate.admissible(pos, depth),
        delegate.moves(pos, depth).len() > 0,
        alpha < beta,
    ensures
        stands_for(
            pruned_node(delegate, pos, depth, alpha, beta).bound(delegate.maximizing(pos, depth)),
            minimax_score(delegate, pos, depth),
            alpha,
            beta,
        ),
    decreases remaining(delegate.plies(), depth), delegate.moves(pos, depth).len() + 1,
{
    lemma_scan_tracks(
        delegate,
        pos,
        depth,
        alpha,
        beta,
        delegate.moves(pos, depth).len() as int,
    );
}

/// The score of a move is a machine integer: it is the worth of some
/// position.
pub proof fn lemma_child_score_is_a_worth<S: View, M, D: MinimaxDelegate<S, M>>(
    delegate: &D,
    pos: S::V,
    depth: nat,
    i: int,
)
    requires
        delegate.admissible(pos, depth),
        0 <= i < delegate.moves(pos, depth).len(),
    ensures
        isize::MIN <= child_score(delegate, pos, depth, i) <= isize::MAX,
    decreases remaining(delegate.plies(), depth),
{
    let mv = delegate.moves(pos, depth)[i];
    let child = delegate.after(pos, mv, depth);
    if !is_leaf(delegate, child, depth + 1) {
        delegate.lemma_move_keeps_admissible(pos, mv, depth);
        delegate.lemma_continuing_has_moves(pos, mv, depth);
        let replies = delegate.moves(child, depth + 1).len() as int;
        lemma_best_child_is_child(delegate, child, depth + 1, replies);
        lemma_child_score_is_a_worth(
            delegate,
            child,
            depth + 1,
            best_child(delegate, child, depth + 1, replies),
        );
    }
}

/// With a window that holds every score, the pruned search follows the
/// plain one: after `n` moves its bound for the side to move is the best
/// score of those moves, and its move is the earliest with that score.
proof fn lemma_scan_follows<S: View, M, D: MinimaxDelegate<S, M>>(
    delegate: &D,
    pos: S::V,
    depth: nat,
    alpha: int,
    beta: int,
    n: int,
)
    requires
        delegate.admissible(pos, depth),
        alpha < beta,
        1 <= n <= delegate.moves(pos, depth).len(),
        forall|i: int|
            0 <= i < delegate.moves(pos, depth).len() ==> alpha <= #[trigger] child_score(
                delegate,
                pos,
                depth,
                i,
            ) <= beta,
    ensures
        ({
            let now = pruned_scan(delegate, pos, depth, alpha, beta, n);
            let maximizing = delegate.maximizing(pos, depth);
            &&& now.best == best_child(delegate, pos, depth, n)
            &&& now.bound(maximizing) == child_score(delegate, pos, depth, now.best)
            &&& now.bound(!maximizing) == if maximizing {
                beta
            } else {
                alpha
            }
        }),
    decreases n,
{
    let maximizing = delegate.maximizing(pos, depth);
    let prev = pruned_scan(delegate, pos, depth, alpha, beta, n - 1);
    let now = pruned_scan(delegate, pos, depth, alpha, beta, n);
    let exact = child_score(delegate, pos, depth, n - 1);
    if n >= 2 {
        lemma_scan_follows(delegate, pos, depth, alpha, beta, n - 1);
        lemma_best_child_is_child(delegate, pos, depth, n - 1);
    }
    if prev.alpha < prev.beta {
        let mv = delegate.moves(pos, depth)[n - 1];
        let child = delegate.after(pos, mv, depth);
        assert(delegate.moves(pos, depth).contains(mv));
        if is_leaf(delegate, child, depth + 1) {
            assert(now == prev.scored(maximizing, n - 1, exact, 0));
        } else {
            delegate.lemma_move_keeps_admissible(pos, mv, depth);
            delegate.lemma_continuing_has_moves(pos, mv, depth);
            lemma_pruned_score_stands_for_exact(delegate, child, depth + 1, prev.alpha, prev.beta);
            let reply = pruned_node(delegate, child, depth + 1, prev.alpha, prev.beta);
            let found = reply.bound(delegate.maximizing(child, depth + 1));
            assert(exact == minimax_score(delegate, child, depth + 1));
            assert(stands_for(found, exact, prev.alpha, prev.beta));
            assert(now == prev.scored(maximizing, n - 1, found, reply.visits));
        }
    } else {
        assert(now == prev);
    }
}

/// The pruned search, begun with the widest window, chooses the move that
/// the plain search chooses, with the same score.
pub proof fn lemma_alpha_beta_is_minimax<S: View, M, D: MinimaxDelegate<S, M>>(
    delegate: &D,
    pos: S::V,
    depth: nat,
)
    requires
        delegate.admissible(pos, depth),
        delegate.moves(pos, depth).len() > 0,
    ensures
        ({
            let end = pruned_node(delegate, pos, depth, isize::MIN as int, isize::MAX as int);
            &&& end.best == minimax_index(delegate, pos, depth)
            &&& end.bound(delegate.maximizing(pos, depth)) == minimax_score(delegate, pos, depth)
        }),
{
    assert forall|i: int| 0 <= i < delegate.moves(pos, depth).len() implies isize::MIN
        <= #[trigger] child_score(delegate, pos, depth, i) <= isize::MAX by {
        lemma_child_score_is_a_worth(delegate, pos, depth, i);
    }
    lemma_scan_follows(
        delegate,
        pos,
        depth,
        isize::MIN as int,
        isize::MAX as int,
        delegate.moves(pos, depth).len() as int,
    );
}

/// Pruning never costs: whatever the window, the pruned search evaluates
/// no more positions in its first `n` moves than the plain search does.
proof fn lemma_pruned_scan_visits_no_more<S: View, M, D: MinimaxDelegate<S, M>>(
    delegate: &D,
    pos: S::V,
    depth: nat,
    alpha: int,
    beta: int,
    n: int,
)
    ensures
        pruned_scan(delegate, pos, depth, alpha, beta, n).visits <= visits_upto(
            delegate,
            pos,
            depth,
            n,
        ),
    decreases remaining(delegate.plies(), depth), n,
{
    if n >= 1 {
        let prev = pruned_scan(delegate, pos, depth, alpha, beta, n - 1);
        lemma_pruned_scan_visits_no_more(delegate, pos, depth, alpha, beta, n - 1);
        if prev.alpha < prev.beta {
            let child = delegate.after(pos, delegate.moves(pos, depth)[n - 1], depth);
            if !is_leaf(delegate, child, depth + 1) {
                lemma_pruned_scan_visits_no_more(
                    delegate,
                    child,
                    depth + 1,
                    prev.alpha,
                    prev.beta,
                    delegate.moves(child, depth + 1).len() as int,
                );
            }
        }
    }
}

/// Pruning never costs: the pruned search evaluates no more positions
/// below a position than the plain search does.
pub proof fn lemma_alpha_beta_visits_no_more<S: View, M, D: MinimaxDelegate<S, M>>(
    delegate: &D,
    pos: S::V,
    depth: nat,
    alpha: int,
    beta: int,
)
    ensures
        pruned_node(delegate, pos, depth, alpha, beta).visits <= minimax_visits(
            delegate,
            pos,
            depth,
        ),
{
    lemma_pruned_scan_visits_no_more(
        delegate,
        pos,
        depth,
        alpha,
        beta,
        delegate.moves(pos, depth).len() as int,
    );
}

/// The plain search: the move that minimax chooses at the state, and its
/// score.
pub fn minimax<S: View, M: Copy, D: MinimaxDelegate<S, M>>(
    delegate: &D,
    state: &mut S,
    depth: usize,
) -> (chosen: (M, isize))
    requires
        delegate.valid(*old(state)),
        delegate.admissible(old(state)@, depth as nat),
        delegate.moves(old(state)@, depth as nat).len() > 0,
        depth < usize::MAX,
    ensures
        delegate.valid(*final(state)),
        delegate.alike(final(state)@, old(state)@),
        chosen.0 == minimax_move(delegate, old(state)@, depth as nat),
        chosen.1 == minimax_score(delegate, old(state)@, depth as nat),
{
    let found = minimax_search(delegate, state, depth);
    (found.best, found.score)
}

/// The pruned search from the root, with the widest window: the move that
/// minimax chooses at the state, and its score, found without evaluating
/// what cannot change them.
pub fn minimax_alpha_beta<S: View, M: Copy, D: MinimaxDelegate<S, M>>(
    delegate: &D,
    state: &mut S,
) -> (chosen: (M, isize))
    requires
        delegate.valid(*old(state)),
        delegate.admissible(old(state)@, 0),
        delegate.moves(old(state)@, 0).len() > 0,
    ensures
        delegate.valid(*final(state)),
        delegate.alike(final(state)@, old(state)@),
        chosen.0 == minimax_move(delegate, old(state)@, 0),
        chosen.1 == minimax_score(delegate, old(state)@, 0),
{
    proof {
        lemma_alpha_beta_is_minimax(delegate, state@, 0);
    }
    let found = alpha_beta_search(delegate, state, 0, isize::MIN, isize::MAX);
    (found.best, found.score)
}

} // verus!
