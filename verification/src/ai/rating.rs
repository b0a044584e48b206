use vstd::prelude::*;

verus! {

/// The highest balance among the first `upto` rated moves, and at least
/// `floor`.
pub open spec fn best_upto(rated: Seq<((u8, u8), i32)>, floor: int, upto: int) -> int
    decreases upto,
{
    if upto <= 0 {
        floor
    } else {
        let earlier = best_upto(rated, floor, upto - 1);
        if rated[upto - 1].1 > earlier {
            rated[upto - 1].1 as int
        } else {
            earlier
        }
    }
}

/// The cells among the first `upto` rated moves whose balance is `score`.
pub open spec fn scoring_upto(rated: Seq<((u8, u8), i32)>, score: int, upto: int) -> Seq<(u8, u8)>
    decreases upto,
{
    if upto <= 0 {
        Seq::empty()
    } else {
        let earlier = scoring_upto(rated, score, upto - 1);
        if rated[upto - 1].1 == score {
            earlier.push(rated[upto - 1].0)
        } else {
            earlier
        }
    }
}

/// The rated cells with the highest balance, which is at least `floor`.
pub open spec fn best_cells(rated: Seq<((u8, u8), i32)>, floor: int) -> Seq<(u8, u8)> {
    scoring_upto(rated, best_upto(rated, floor, rated.len() as int), rated.len() as int)
}

/// The highest balance is at least the floor and at least every balance
/// rated so far; it is the floor or one of those balances.
pub proof fn lemma_best_upto(rated: Seq<((u8, u8), i32)>, floor: int, upto: int)
    requires
        0 <= upto <= rated.len(),
    ensures
        floor <= best_upto(rated, floor, upto),
        forall|k: int| 0 <= k < upto ==> (#[trigger] rated[k]).1 <= best_upto(rated, floor, upto),
        best_upto(rated, floor, upto) == floor || exists|k: int|
            0 <= k < upto && (#[trigger] rated[k]).1 == best_upto(rated, floor, upto),
    decreases upto,
{
    if upto > 0 {
        lemma_best_upto(rated, floor, upto - 1);
        let earlier = best_upto(rated, floor, upto - 1);
        if rated[upto - 1].1 > earlier {
            assert(rated[upto - 1].1 == best_upto(rated, floor, upto));
        } else if earlier != floor {
            let k = choose|k: int| 0 <= k < upto - 1 && (#[trigger] rated[k]).1 == earlier;
            assert(rated[k].1 == best_upto(rated, floor, upto));
        }
    }
}

/// Whether `cell` is among the first `upto` rated moves.
pub open spec fn rated_has(rated: Seq<((u8, u8), i32)>, upto: int, cell: (u8, u8)) -> bool {
    exists|k: int| 0 <= k < upto && (#[trigger] rated[k]).0 == cell
}

/// Every cell listed for a balance is a rated cell, and if some rated cell
/// has that balance, the list is not empty.
pub proof fn lemma_scoring_upto(rated: Seq<((u8, u8), i32)>, score: int, upto: int)
    requires
        0 <= upto <= rated.len(),
    ensures
        forall|j: int|
            0 <= j < scoring_upto(rated, score, upto).len() ==> rated_has(
                rated,
                upto,
                #[trigger] scoring_upto(rated, score, upto)[j],
            ),
        (exists|k: int| 0 <= k < upto && (#[trigger] rated[k]).1 == score) ==> scoring_upto(
            rated,
            score,
            upto,
        ).len() > 0,
    decreases upto,
{
    if upto > 0 {
        lemma_scoring_upto(rated, score, upto - 1);
        let earlier = scoring_upto(rated, score, upto - 1);
        let now = scoring_upto(rated, score, upto);
        assert forall|j: int| 0 <= j < now.len() implies rated_has(
            rated,
            upto,
            #[trigger] now[j],
        ) by {
            if j < earlier.len() {
                assert(rated_has(rated, upto - 1, earlier[j]));
                let k = choose|k: int| 0 <= k < upto - 1 && (#[trigger] rated[k]).0 == earlier[j];
                assert(rated[k].0 == now[j]);
            } else {
                assert(rated[upto - 1].0 == now[j]);
            }
        }
        if exists|k: int| 0 <= k < upto && (#[trigger] rated[k]).1 == score {
            let k = choose|k: int| 0 <= k < upto && (#[trigger] rated[k]).1 == score;
            if k < upto - 1 {
                assert(rated[k].1 == score);
            }
        }
    }
}

/// When no rated balance lies below the floor and there is a rated move, some
/// rated move has the highest balance.
pub proof fn lemma_best_cells_exist(rated: Seq<((u8, u8), i32)>, floor: int)
    requires
        rated.len() > 0,
        forall|k: int| 0 <= k < rated.len() ==> floor <= (#[trigger] rated[k]).1,
    ensures
        best_cells(rated, floor).len() > 0,
{
    let len = rated.len() as int;
    lemma_best_upto(rated, floor, len);
    let best = best_upto(rated, floor, len);
    if best == floor {
        assert(rated[0].1 <= best);
        assert(rated[0].1 == best);
    }
    lemma_scoring_upto(rated, best, len);
}

/// The highest balance among the rated moves, and at least `floor`.
pub fn best_score(rated: &Vec<((u8, u8), i32)>, floor: i32) -> (best: i32)
    ensures
        best == best_upto(rated@, floor as int, rated@.len() as int),
{
    let mut best: i32 = floor;
    let mut k: usize = 0;
    while k < rated.len()
        invariant
            k <= rated@.len(),
            best == best_upto(rated@, floor as int, k as int),
        decreases rated@.len() - k,
    {
        if rated[k].1 > best {
            best = rated[k].1;
        }
        k = k + 1;
    }
    best
}

/// The rated cells whose balance is `score`.
pub fn cells_scoring(rated: &Vec<((u8, u8), i32)>, score: i32) -> (found: Vec<(u8, u8)>)
    ensures
        found@ == scoring_upto(rated@, score as int, rated@.len() as int),
{
    let mut found: Vec<(u8, u8)> = Vec::new();
    let mut k: usize = 0;
    while k < rated.len()
        invariant
            k <= rated@.len(),
            found@ == scoring_upto(rated@, score as int, k as int),
        decreases rated@.len() - k,
    {
        if rated[k].1 == score {
            found.push(rated[k].0);
        }
        k = k + 1;
    }
    found
}

/// The rated cells with the highest balance, which is at least `floor`.
pub fn best_moves(rated: &Vec<((u8, u8), i32)>, floor: i32) -> (found: Vec<(u8, u8)>)
    ensures
        found@ == best_cells(rated@, floor as int),
{
    let best: i32 = best_score(rated, floor);
    cells_scoring(rated, best)
}


/// Whether the list rates `cell` at `score`.
pub open spec fn rates(rated: Seq<((u8, u8), i32)>, cell: (u8, u8), score: i32) -> bool {
    exists|k: int| 0 <= k < rated.len() && #[trigger] rated[k] == (cell, score)
}

/// Every cell listed for a balance is rated at that balance.
pub proof fn lemma_scoring_rates(rated: Seq<((u8, u8), i32)>, score: i32, upto: int)
    requires
        0 <= upto <= rated.len(),
    ensures
        forall|j: int|
            0 <= j < scoring_upto(rated, score as int, upto).len() ==> rates(
                rated,
                #[trigger] scoring_upto(rated, score as int, upto)[j],
                score,
            ),
    decreases upto,
{
    if upto > 0 {
        lemma_scoring_rates(rated, score, upto - 1);
        let earlier = scoring_upto(rated, score as int, upto - 1);
        let now = scoring_upto(rated, score as int, upto);
        assert forall|j: int| 0 <= j < now.len() implies rates(rated, #[trigger] now[j], score) by {
            if j < earlier.len() {
                assert(rates(rated, earlier[j], score));
            } else {
                assert(rated[upto - 1] == (now[j], score));
            }
        }
    }
}

/// A balance that some rated move has and that no rated move exceeds is the
/// highest balance.
pub proof fn lemma_best_upto_found(rated: Seq<((u8, u8), i32)>, floor: int, at: int)
    requires
        0 <= at < rated.len(),
        floor <= rated[at].1,
        forall|k: int| 0 <= k < rated.len() ==> (#[trigger] rated[k]).1 <= rated[at].1,
    ensures
        best_upto(rated, floor, rated.len() as int) == rated[at].1,
{
    lemma_best_upto(rated, floor, rated.len() as int);
    let best = best_upto(rated, floor, rated.len() as int);
    assert(rated[at].1 <= best);
    if best != floor {
        let k = choose|k: int| 0 <= k < rated.len() && (#[trigger] rated[k]).1 == best;
        assert(rated[k].1 <= rated[at].1);
    }
}

} // verus!
