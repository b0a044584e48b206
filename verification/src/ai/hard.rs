use vstd::prelude::*;
use rand::rngs::StdRng;
use crate::ai::exhaust::{
    has_move, lemma_done_listed, lemma_stepped_sound, lists, root_score, sound, tops,
};
use crate::order::{above, lemma_i32_in_line};
use crate::ai::rating::{
    best_cells, best_moves, best_upto, lemma_best_upto_found, lemma_scoring_rates,
    lemma_scoring_upto, rates,
};
use crate::ai::search::{
    probe_board, probe_cascade, probe_mover, scores_by, searchable, seen_board, stepped,
    EvalStatus, SearchView, TreeState,
};
use crate::ai::tree::{board_of, lent, listable, scored_moves, NodeView};
use crate::ai::Ai;
use crate::chance::{draw_index, draw_up_to};
use crate::grid::{lemma_score_bounds, score_of, Board, Grid};
use crate::scan::drawn;

verus! {

/// The most positions that the strongest strategy tries in one frame.
pub const MAX_MOVES: usize = 50000;

/// The most chain reactions that the strongest strategy runs in one frame.
pub const MAX_CASCADES: usize = 10000;

/// The score that the strongest strategy gives a position: the material
/// balance of the player searched for while the game goes on; once it is
/// decided, the highest score if that player made the deciding move, and the
/// lowest otherwise.
pub open spec fn hard_score(board: Option<Board>, mover: u8, me: u8) -> i32 {
    match board {
        Some(b) => score_of(b.cells, me) as i32,
        None => if mover != me {
            i32::MIN
        } else {
            i32::MAX
        },
    }
}

/// Scores a position for the search.
pub fn hard_eval(grid: Option<&Grid>, cur_turn: u8, me: u8) -> (score: i32)
    requires
        grid matches Some(g) ==> g.wf(),
    ensures
        score == hard_score(seen_board(grid), cur_turn, me),
{
    match grid {
        Some(g) => g.score_for_player(me),
        None => if cur_turn != me {
            i32::MIN
        } else {
            i32::MAX
        },
    }
}

/// The search after one step scored by `hard_score`.
pub open spec fn hard_step(s: SearchView<i32>, max_depth: int) -> SearchView<i32> {
    stepped(s, max_depth, hard_score(probe_board(s), probe_mover(s), s.me))
}

/// The search after the steps of one frame: steps are made until no path
/// waits, or `moves_left` positions have been tried, or `cascades_left`
/// chain reactions have been run.
pub open spec fn searched(
    s: SearchView<i32>,
    max_depth: int,
    moves_left: nat,
    cascades_left: nat,
) -> SearchView<i32>
    decreases moves_left,
{
    if moves_left == 0 || cascades_left == 0 || s.queue.len() == 0 {
        s
    } else {
        searched(
            hard_step(s, max_depth),
            max_depth,
            (moves_left - 1) as nat,
            if probe_cascade(s) {
                (cascades_left - 1) as nat
            } else {
                cascades_left
            },
        )
    }
}

/// Whether the steps of one frame bring the search to its end: no path waits
/// while there is still room to try positions and to run chain reactions.
pub open spec fn search_ends(
    s: SearchView<i32>,
    max_depth: int,
    moves_left: nat,
    cascades_left: nat,
) -> bool
    decreases moves_left,
{
    if moves_left == 0 || cascades_left == 0 {
        false
    } else if s.queue.len() == 0 {
        true
    } else {
        search_ends(
            hard_step(s, max_depth),
            max_depth,
            (moves_left - 1) as nat,
            if probe_cascade(s) {
                (cascades_left - 1) as nat
            } else {
                cascades_left
            },
        )
    }
}

/// The moves among which the strongest strategy picks one at random when the
/// search has ended: the moves from the root with the highest score.
pub open spec fn hard_pool(root: NodeView<i32>) -> Seq<(u8, u8)> {
    best_cells(scored_moves(root), i32::MIN as int)
}

/// What one frame of search for `player` makes of the search `before`, and
/// what it answers: the search has made the steps of one frame; there is no
/// answer while the search has not ended; once it has ended, the answer is
/// one of the moves with the highest score, and there is none only if the
/// root lists no move at all.
pub open spec fn frame_result(
    before: SearchView<i32>,
    after: SearchView<i32>,
    depth: int,
    player: u8,
    choice: Option<(u8, u8)>,
) -> bool {
    let start = SearchView { me: player, ..before };
    &&& after == searched(start, depth, MAX_MOVES as nat, MAX_CASCADES as nat)
    &&& !search_ends(start, depth, MAX_MOVES as nat, MAX_CASCADES as nat) ==> choice is None
    &&& search_ends(start, depth, MAX_MOVES as nat, MAX_CASCADES as nat) ==> (choice is None
        <==> hard_pool(after.root).len() == 0) && (choice is Some ==> exists|index: int|
        choice == #[trigger] drawn(hard_pool(after.root), index))
}

/// Whether the search `s`, taken up for `player`, holds the scores that a
/// search by `hard_score` has made.
pub open spec fn frame_sound(s: SearchView<i32>, depth: int, player: u8) -> bool {
    sound((SearchView { me: player, ..s }), hard_scorer(), depth)
}

/// What one frame of search for `player` keeps and finds when the search
/// `before` holds the scores that a search by `hard_score` has made: so does
/// the search afterwards; and if the frame ends the search and the player can
/// move at all, the answer is a move that the root lists with the score of
/// the position by plain enumeration of every line of play down to the depth
/// limit, which no listed move exceeds.
pub open spec fn frame_answer(
    before: SearchView<i32>,
    after: SearchView<i32>,
    depth: int,
    player: u8,
    choice: Option<(u8, u8)>,
) -> bool {
    let start = SearchView { me: player, ..before };
    frame_sound(before, depth, player) ==> {
        &&& frame_sound(after, depth, player)
        &&& search_ends(start, depth, MAX_MOVES as nat, MAX_CASCADES as nat) && has_move(start)
            ==> {
            &&& choice is Some
            &&& lists(
                scored_moves(after.root),
                (choice.unwrap(), root_score(after, hard_scorer(), depth)),
            )
            &&& tops(scored_moves(after.root), root_score(after, hard_scorer(), depth))
        }
    }
}

/// The function by which the strongest strategy scores positions.
pub open spec fn hard_scorer() -> spec_fn(Option<Board>, u8, u8) -> i32 {
    |board: Option<Board>, mover: u8, me: u8| hard_score(board, mover, me)
}

/// The steps of one frame keep the search sound and keep what the search
/// relies on: so when the search ends, the highest score that its root lists
/// is the score of the position by plain enumeration.
pub proof fn lemma_searched_sound(
    s: SearchView<i32>,
    max_depth: int,
    moves_left: nat,
    cascades_left: nat,
)
    requires
        searchable(s),
        sound(s, hard_scorer(), max_depth),
        max_depth <= 255,
    ensures
        searchable(searched(s, max_depth, moves_left, cascades_left)),
        sound(searched(s, max_depth, moves_left, cascades_left), hard_scorer(), max_depth),
    decreases moves_left,
{
    if moves_left == 0 || cascades_left == 0 || s.queue.len() == 0 {
    } else {
        let score = hard_score(probe_board(s), probe_mover(s), s.me);
        lemma_i32_in_line();
        lemma_stepped_sound(s, hard_scorer(), max_depth, score);
        lemma_searched_sound(
            hard_step(s, max_depth),
            max_depth,
            (moves_left - 1) as nat,
            if probe_cascade(s) {
                (cascades_left - 1) as nat
            } else {
                cascades_left
            },
        );
    }
}

/// A frame in which the search ends leaves no path waiting.
pub proof fn lemma_search_ends_empty(
    s: SearchView<i32>,
    max_depth: int,
    moves_left: nat,
    cascades_left: nat,
)
    requires
        search_ends(s, max_depth, moves_left, cascades_left),
    ensures
        searched(s, max_depth, moves_left, cascades_left).queue.len() == 0,
    decreases moves_left,
{
    if moves_left == 0 || cascades_left == 0 || s.queue.len() == 0 {
    } else {
        lemma_search_ends_empty(
            hard_step(s, max_depth),
            max_depth,
            (moves_left - 1) as nat,
            if probe_cascade(s) {
                (cascades_left - 1) as nat
            } else {
                cascades_left
            },
        );
    }
}

/// When the frames of a sound search have brought it to its end, the highest
/// score among the moves that the root lists, from which the strongest
/// strategy draws its answer, is the score of the position by plain
/// enumeration of every line of play down to the depth limit.
pub proof fn lemma_frame_exhaustive(
    s: SearchView<i32>,
    max_depth: int,
    moves_left: nat,
    cascades_left: nat,
)
    requires
        searchable(s),
        sound(s, hard_scorer(), max_depth),
        max_depth <= 255,
        search_ends(s, max_depth, moves_left, cascades_left),
        searched(s, max_depth, moves_left, cascades_left).root is State,
    ensures
        ({
            let after = searched(s, max_depth, moves_left, cascades_left);
            let listed = scored_moves(after.root);
            listed.len() > 0 ==> crate::ai::rating::best_upto(
                listed,
                i32::MIN as int,
                listed.len() as int,
            ) == root_score(after, hard_scorer(), max_depth)
        }),
{
    lemma_search_ends_empty(s, max_depth, moves_left, cascades_left);
    lemma_searched_sound(s, max_depth, moves_left, cascades_left);
    lemma_done_listed(searched(s, max_depth, moves_left, cascades_left), hard_scorer(), max_depth);
}

/// The highest roll for which the strongest strategy may fall back on the
/// weaker one: 128 less the balance of the player times the number of cells
/// over 256, rounded toward zero, and kept between 0 and 255. A player in the
/// lead falls back more often.
pub open spec fn fallback_bias(score: int, width: int, height: int) -> u8 {
    let product = score * (width * height);
    let shift = if product >= 0 {
        product / 256
    } else {
        -((-product) / 256)
    };
    if 128 - shift < 0 {
        0u8
    } else if 128 - shift > 255 {
        255u8
    } else {
        (128 - shift) as u8
    }
}

/// The strongest strategy: an incremental search over the moves to come, cut
/// into frames, which now and then gives way to a weaker strategy.
/// `FALLBACK_CHANCE` sets how often it gives way.
pub struct Hard<Fallback: Ai, const FALLBACK_CHANCE: u8> {
    decision: Option<(u8, u8)>,
    tree_state: TreeState<i32>,
    num_players: u8,
    fallback: Fallback,
}

impl<Fallback: Ai, const FALLBACK_CHANCE: u8> Hard<Fallback, FALLBACK_CHANCE> {
    /// The search as it stands.
    pub closed spec fn search(&self) -> SearchView<i32> {
        self.tree_state@
    }

    /// The search is in a state from which a frame can be run: every waiting
    /// path can be walked, the root has been tried unless the empty path
    /// still waits, and the depth limit fits the number of players.
    pub closed spec fn search_ready(&self) -> bool {
        &&& self.tree_state.wf()
        &&& searchable(self.tree_state@)
        &&& listable(self.tree_state@.root)
        &&& self.tree_state@.queue.len() == 0 ==> self.tree_state@.root is State
        &&& self.num_players == self.tree_state@.board.unwrap().players
        &&& self.num_players < 255
    }

    /// The weaker strategy that this one gives way to.
    pub closed spec fn weaker(&self) -> Fallback {
        self.fallback
    }

    /// Depth to which the search looks ahead: one round and one move.
    pub closed spec fn depth(&self) -> int {
        self.num_players + 1
    }

    /// A strategy without an answer, around the weaker strategy `fallback`.
    pub fn new(fallback: Fallback) -> (ai: Self)
        ensures
            ai.decision() is None,
            ai.weaker() == fallback,
    {
        Hard { decision: None, tree_state: TreeState::new(), num_players: 0, fallback }
    }

    /// The highest roll that may come when the strategy rolls for giving way.
    pub fn bias(grid: &Grid, player: u8) -> (bias: u8)
        requires
            grid.wf(),
        ensures
            bias == fallback_bias(
                grid.score(player),
                grid.spec_width() as int,
                grid.spec_height() as int,
            ),
    {
        let score: i64 = grid.score_for_player(player) as i64;
        assert(grid.spec_width() * grid.spec_height() <= 65025) by (nonlinear_arith)
            requires
                grid.spec_width() <= 255,
                grid.spec_height() <= 255,
        ;
        let area: i64 = (grid.width() as i64) * (grid.height() as i64);
        proof {
            grid.lemma_len();
            lemma_score_bounds(grid@, player, grid@.len() as int);
            assert(-65025 * 65025 <= score * area <= 65025 * 65025) by (nonlinear_arith)
                requires
                    -65025 <= score <= 65025,
                    0 <= area <= 65025,
            ;
        }
        let product: i64 = score * area;
        let shift: i64 = if product >= 0 {
            product / 256
        } else {
            -((-product) / 256)
        };
        let wide: i64 = 128 - shift;
        if wide < 0 {
            0
        } else if wide > 255 {
            255
        } else {
            wide as u8
        }
    }

    /// Searches for one frame for `player`: tries positions until no path
    /// waits or the frame has had its share of positions or chain reactions.
    /// When no path waits, draws one of the moves with the highest score;
    /// `None` when the frame ended before the search did, or when the search
    /// found no move at all.
    pub fn tick_inner(&mut self, grid: &Grid, player: u8, rng: &mut StdRng) -> (cell: Option<
        (u8, u8),
    >)
        requires
            old(self).search_ready(),
            player != 0,
        ensures
            final(self).search_ready(),
            final(self).decision() == old(self).decision(),
            final(self).weaker() == old(self).weaker(),
            final(self).depth() == old(self).depth(),
            frame_result(
                old(self).search(),
                final(self).search(),
                old(self).depth(),
                player,
                cell,
            ),
            frame_answer(
                old(self).search(),
                final(self).search(),
                old(self).depth(),
                player,
                cell,
            ),
    {
        self.tree_state.set_player(player);
        let ghost start: SearchView<i32> = self.tree_state@;
        let ghost depth: int = self.num_players + 1;
        let mut total_moves: usize = 0;
        let mut total_cascades: usize = 0;
        while total_moves < MAX_MOVES && total_cascades < MAX_CASCADES
            invariant
                total_moves <= MAX_MOVES,
                total_cascades <= MAX_CASCADES,
                self.search_ready(),
                self.decision == old(self).decision,
                self.fallback == old(self).fallback,
                self.num_players == old(self).num_players,
                start == (SearchView { me: player, ..old(self).tree_state@ }),
                depth == self.num_players + 1,
                self.tree_state@.me == player,
                self.tree_state@.board == start.board,
                sound(start, hard_scorer(), depth) ==> sound(
                    self.tree_state@,
                    hard_scorer(),
                    depth,
                ),
                player != 0,
                searched(
                    self.tree_state@,
                    depth,
                    (MAX_MOVES - total_moves) as nat,
                    (MAX_CASCADES - total_cascades) as nat,
                ) == searched(start, depth, MAX_MOVES as nat, MAX_CASCADES as nat),
                search_ends(
                    self.tree_state@,
                    depth,
                    (MAX_MOVES - total_moves) as nat,
                    (MAX_CASCADES - total_cascades) as nat,
                ) == search_ends(start, depth, MAX_MOVES as nat, MAX_CASCADES as nat),
            decreases MAX_MOVES - total_moves,
        {
            let ghost before: SearchView<i32> = self.tree_state@;
            proof {
                lemma_i32_in_line();
                assert(scores_by(hard_eval, hard_scorer()));
            }
            let status: EvalStatus = self.tree_state.eval_next(
                hard_eval,
                self.num_players as usize + 1,
            );
            proof {
                if before.queue.len() > 0 {
                    let (after, score) = choose|after: Option<Grid>, score: i32|
                        board_of(after) == probe_board(before) && #[trigger] call_ensures(
                            hard_eval,
                            (lent(&after), probe_mover(before), before.me),
                            score,
                        ) && self.tree_state@ == stepped(before, depth, score);
                    assert(score == hard_score(probe_board(before), probe_mover(before), before.me));
                    assert(self.tree_state@ == hard_step(before, depth));
                } else {
                    assert(status == EvalStatus::Done);
                    assert(searched(
                        before,
                        depth,
                        (MAX_MOVES - total_moves) as nat,
                        (MAX_CASCADES - total_cascades) as nat,
                    ) == before);
                    assert(search_ends(
                        before,
                        depth,
                        (MAX_MOVES - total_moves) as nat,
                        (MAX_CASCADES - total_cascades) as nat,
                    ));
                }
            }
            match status {
                EvalStatus::Cascaded => {
                    total_cascades = total_cascades + 1;
                },
                EvalStatus::Uneventful => {},
                EvalStatus::Done => {
                    let scored: Vec<((u8, u8), i32)> = self.tree_state.iter_moves_and_score();
                    let pool: Vec<(u8, u8)> = best_moves(&scored, i32::MIN);
                    let ghost top: i32 = root_score(self.tree_state@, hard_scorer(), depth);
                    let ghost best: int = best_upto(scored@, i32::MIN as int, scored@.len() as int);
                    proof {
                        assert(has_move(self.tree_state@) == has_move(start));
                        if sound(start, hard_scorer(), depth) && has_move(start) {
                            assert(sound(self.tree_state@, hard_scorer(), depth));
                            assert(tops(scored@, top));
                            let at = choose|j: int|
                                0 <= j < scored@.len() && (#[trigger] scored@[j]).1 == top;
                            assert forall|k: int| 0 <= k < scored@.len() implies (
                            #[trigger] scored@[k]).1 <= scored@[at].1 by {
                                assert(!above(scored@[k].1, top));
                            }
                            lemma_best_upto_found(scored@, i32::MIN as int, at);
                            lemma_scoring_upto(scored@, best, scored@.len() as int);
                            lemma_scoring_rates(scored@, top, scored@.len() as int);
                        }
                    }
                    if pool.len() == 0 {
                        return None;
                    }
                    let index: usize = draw_index(rng, pool.len());
                    proof {
                        assert(Some(pool@[index as int]) == drawn(
                            hard_pool(self.tree_state@.root),
                            index as int,
                        ));
                        if sound(start, hard_scorer(), depth) && has_move(start) {
                            assert(rates(scored@, pool@[index as int], top));
                            let k = choose|k: int|
                                0 <= k < scored@.len() && #[trigger] scored@[k] == (
                                    pool@[index as int],
                                    top,
                                );
                            assert(lists(scored@, (pool@[index as int], top)));
                        }
                    }
                    return Some(pool[index]);
                },
            }
            total_moves = total_moves + 1;
        }
        None
    }
}

impl<Fallback: Ai + Default, const FALLBACK_CHANCE: u8> Default for Hard<
    Fallback,
    FALLBACK_CHANCE,
> {
    /// A strategy without an answer, around the weaker strategy at its
    /// default.
    fn default() -> (ai: Self)
        ensures
            ai.decision() is None,
    {
        Hard {
            decision: None,
            tree_state: TreeState::new(),
            num_players: 0,
            fallback: Fallback::default(),
        }
    }
}

impl<Fallback: Ai, const FALLBACK_CHANCE: u8> Ai for Hard<Fallback, FALLBACK_CHANCE> {
    closed spec fn decision(&self) -> Option<(u8, u8)> {
        self.decision
    }

    closed spec fn prepared(&self) -> bool {
        self.search_ready() && self.fallback.prepared()
    }

    open spec fn plays_for(player: u8) -> bool {
        player != 0 && Fallback::plays_for(player)
    }

    fn start_move(&mut self, grid: &Grid)
        ensures
            final(self).search() == (SearchView {
                root: NodeView::<i32>::Vacant,
                me: 0,
                board: Some(grid.board()),
                queue: seq![Seq::<(u8, u8)>::empty()],
            }),
            final(self).depth() == grid.spec_player_count() + 1,
            final(self).weaker().decision() is None,
    {
        self.decision = None;
        self.tree_state.clear();
        self.tree_state.set_grid(grid.clone());
        self.num_players = grid.player_count();
        self.fallback.start_move(grid);
    }

    fn tick(&mut self, grid: &Grid, player: u8, rng: &mut StdRng) -> (choice: Option<(u8, u8)>)
        ensures
            old(self).decision() is Some ==> final(self).search() == old(self).search()
                && final(self).weaker() == old(self).weaker(),
            old(self).decision() is None ==> (FALLBACK_CHANCE > 0 && final(self).search() == old(
                self,
            ).search() && choice == final(self).weaker().decision()) || (fallback_bias(
                grid.score(player),
                grid.spec_width() as int,
                grid.spec_height() as int,
            ) >= FALLBACK_CHANCE && final(self).weaker() == old(self).weaker() && frame_result(
                old(self).search(),
                final(self).search(),
                old(self).depth(),
                player,
                choice,
            ) && frame_answer(
                old(self).search(),
                final(self).search(),
                old(self).depth(),
                player,
                choice,
            )),
    {
        if self.decision.is_none() {
            let bias: u8 = Self::bias(grid, player);
            if draw_up_to(rng, bias) < FALLBACK_CHANCE {
                let choice: Option<(u8, u8)> = self.fallback.tick(grid, player, rng);
                self.decision = choice;
            } else {
                let choice: Option<(u8, u8)> = self.tick_inner(grid, player, rng);
                self.decision = choice;
            }
        }
        self.decision
    }

    fn name(&self) -> (name: &'static str)
        ensures
            name == "Hard",
    {
        "Hard"
    }
}

} // verus!
