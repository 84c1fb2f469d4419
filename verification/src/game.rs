//! The draw loop: mark every live board, score the boards that now win in
//! scan order, record first and last win scores, and remove the winners
//! before the next draw.

use vstd::prelude::*;
use crate::board::{Board, BoardModel};
use crate::error::BingoError;

verus! {

/// The models of a sequence of boards.
pub open spec fn models_of(bs: Seq<Board>) -> Seq<BoardModel> {
    bs.map_values(|b: Board| b@)
}

/// Every board of the sequence is well formed.
pub open spec fn all_wf(ms: Seq<BoardModel>) -> bool {
    forall|i: int| 0 <= i < ms.len() ==> (#[trigger] ms[i]).wf()
}

/// Every board after marking draw `v`.
pub open spec fn mark_all(ms: Seq<BoardModel>, v: u32) -> Seq<BoardModel> {
    ms.map_values(|m: BoardModel| m.mark(v))
}

/// The boards of a round that are winners once marked, in scan order.
pub open spec fn round_winners(ms: Seq<BoardModel>, v: u32) -> Seq<BoardModel> {
    mark_all(ms, v).filter(|m: BoardModel| m.is_winner())
}

/// The scores of the round's winners, in scan order.
pub open spec fn round_scores(ms: Seq<BoardModel>, v: u32) -> Seq<int> {
    round_winners(ms, v).map_values(|m: BoardModel| m.score(v))
}

/// The boards that survive the round, in their original relative order.
pub open spec fn round_survivors(ms: Seq<BoardModel>, v: u32) -> Seq<BoardModel> {
    mark_all(ms, v).filter(|m: BoardModel| !m.is_winner())
}

/// The running first and last win score after one round's scores.
pub open spec fn fold_scores(first: Option<int>, last: Option<int>, scores: Seq<int>) -> (
    Option<int>,
    Option<int>,
) {
    if scores.len() == 0 {
        (first, last)
    } else {
        (
            if first is Some {
                first
            } else {
                Option::Some(scores[0])
            },
            Option::Some(scores[scores.len() - 1]),
        )
    }
}

/// The live boards, first win score, and last win score after playing every
/// draw in order.
pub open spec fn play(
    ms: Seq<BoardModel>,
    draws: Seq<u32>,
    first: Option<int>,
    last: Option<int>,
) -> (Seq<BoardModel>, Option<int>, Option<int>)
    decreases draws.len(),
{
    if draws.len() == 0 {
        (ms, first, last)
    } else {
        let v = draws[0];
        let fl = fold_scores(first, last, round_scores(ms, v));
        play(round_survivors(ms, v), draws.drop_first(), fl.0, fl.1)
    }
}

/// The integer values of a sequence of scores.
pub open spec fn ints_of(s: Seq<u128>) -> Seq<int> {
    s.map_values(|x: u128| x as int)
}

pub open spec fn as_int_opt(o: Option<u128>) -> Option<int> {
    match o {
        Option::None => Option::None,
        Option::Some(x) => Option::Some(x as int),
    }
}

/// The two recorded scores: of the first board ever to win, and of the last
/// win recorded. Each is `unmarked sum * winning draw`; both stay `None`
/// until some board wins.
#[derive(Clone, Copy, Debug, PartialEq, Eq)]
pub struct GameResult {
    pub first_win_score: Option<u128>,
    pub last_win_score: Option<u128>,
}

/// Appending one board to a round marks it, then either scores it (a winner)
/// or lets it survive.
proof fn lemma_round_step(ms: Seq<BoardModel>, m: BoardModel, v: u32)
    ensures
        round_survivors(ms.push(m), v) == if m.mark(v).is_winner() {
            round_survivors(ms, v)
        } else {
            round_survivors(ms, v).push(m.mark(v))
        },
        round_scores(ms.push(m), v) == if m.mark(v).is_winner() {
            round_scores(ms, v).push(m.mark(v).score(v))
        } else {
            round_scores(ms, v)
        },
{
    reveal(Seq::filter);
    let ma = mark_all(ms.push(m), v);
    assert(ma =~= mark_all(ms, v).push(m.mark(v)));
    assert(ma.drop_last() =~= mark_all(ms, v));
    assert(ma.last() == m.mark(v));
    if m.mark(v).is_winner() {
        assert(round_winners(ms.push(m), v) =~= round_winners(ms, v).push(m.mark(v)));
        assert(round_scores(ms.push(m), v) =~= round_scores(ms, v).push(m.mark(v).score(v)));
    } else {
        assert(round_winners(ms.push(m), v) =~= round_winners(ms, v));
        assert(round_survivors(ms.push(m), v) =~= round_survivors(ms, v).push(m.mark(v)));
    }
}

/// `unmarked sum * draw value`, the score a winning board records.
pub fn score(b: &Board, v: u32) -> (s: u128)
    requires
        b@.wf(),
    ensures
        s as int == b@.score(v),
{
    let sum = b.sum_unmarked();
    proof {
        assert((sum as int) * (v as int) <= 0xffff_ffff_ffff_ffff_ffff_ffff) by (nonlinear_arith)
            requires
                sum <= 0xffff_ffff_ffff_ffff,
                v <= 0xffff_ffff,
        ;
    }
    (sum as u128) * (v as u128)
}

/// Play one round: mark every board with `v`, collect the scores of the
/// boards that now win, in scan order, and keep the others, in their
/// original relative order.
pub fn play_round(boards: Vec<Board>, v: u32) -> (r: (Vec<Board>, Vec<u128>))
    requires
        all_wf(models_of(boards@)),
    ensures
        models_of(r.0@) == round_survivors(models_of(boards@), v),
        ints_of(r.1@) == round_scores(models_of(boards@), v),
        all_wf(models_of(r.0@)),
{
    let mut live = boards;
    let mut next: Vec<Board> = Vec::new();
    let mut scores: Vec<u128> = Vec::new();
    let ghost orig: Seq<BoardModel> = models_of(live@);
    let ghost mut k: int = 0;
    proof {
        assert(orig.take(0) =~= Seq::<BoardModel>::empty());
        reveal(Seq::filter);
        assert(mark_all(orig.take(0), v) =~= Seq::<BoardModel>::empty());
        assert(models_of(next@) =~= round_survivors(orig.take(0), v));
        assert(ints_of(scores@) =~= round_scores(orig.take(0), v));
        assert(models_of(live@) =~= orig.skip(0));
    }
    while live.len() > 0
        invariant
            0 <= k,
            k + live@.len() == orig.len(),
            all_wf(orig),
            models_of(live@) == orig.skip(k),
            models_of(next@) == round_survivors(orig.take(k), v),
            ints_of(scores@) == round_scores(orig.take(k), v),
            all_wf(models_of(next@)),
        decreases live@.len(),
    {
        let ghost prev = live@;
        let mut b = live.remove(0);
        proof {
            assert(live@ =~= prev.drop_first());
            assert forall|m2: int| 0 <= m2 < live@.len() implies #[trigger] models_of(live@)[m2]
                == orig.skip(k + 1)[m2] by {
                assert(models_of(prev)[m2 + 1] == orig.skip(k)[m2 + 1]);
            }
            assert(models_of(live@) =~= orig.skip(k + 1));
            assert(b@ == models_of(prev)[0]);
            assert(b@ == orig[k]);
            assert(orig[k].wf());
            assert(orig.take(k + 1) =~= orig.take(k).push(orig[k]));
            lemma_round_step(orig.take(k), orig[k], v);
        }
        b.mark(v);
        if b.is_winner() {
            let ghost prev_scores = scores@;
            let s = score(&b, v);
            scores.push(s);
            proof {
                assert(ints_of(scores@) =~= ints_of(prev_scores).push(s as int));
                assert(ints_of(scores@) =~= round_scores(orig.take(k + 1), v));
            }
        } else {
            let ghost prev_next = next@;
            next.push(b);
            proof {
                assert(models_of(next@) =~= models_of(prev_next).push(b@));
                assert(models_of(next@) =~= round_survivors(orig.take(k + 1), v));
            }
        }
        proof {
            k = k + 1;
        }
    }
    proof {
        assert(orig.take(orig.len() as int) =~= orig);
    }
    (next, scores)
}

/// Run the full draw loop: every draw marks every live board; each newly won
/// board is scored in scan order, setting the first win score once and the
/// last win score on every win; won boards are removed before the next draw.
pub fn run_game(boards: Vec<Board>, draws: &Vec<u32>) -> (r: (Vec<Board>, GameResult))
    requires
        all_wf(models_of(boards@)),
    ensures
        ({
            let out = play(models_of(boards@), draws@, Option::None, Option::None);
            &&& models_of(r.0@) == out.0
            &&& as_int_opt(r.1.first_win_score) == out.1
            &&& as_int_opt(r.1.last_win_score) == out.2
            &&& all_wf(models_of(r.0@))
        }),
{
    let mut live = boards;
    let mut first: Option<u128> = None;
    let mut last: Option<u128> = None;
    let ghost orig: Seq<BoardModel> = models_of(live@);
    let mut d: usize = 0;
    proof {
        assert(draws@.skip(0) =~= draws@);
    }
    while d < draws.len()
        invariant
            d <= draws@.len(),
            all_wf(models_of(live@)),
            play(orig, draws@, Option::None, Option::None) == play(
                models_of(live@),
                draws@.skip(d as int),
                as_int_opt(first),
                as_int_opt(last),
            ),
        decreases draws@.len() - d,
    {
        let v = draws[d];
        let ghost pre_models = models_of(live@);
        let ghost pre_first = first;
        let ghost pre_last = last;
        let pair = play_round(live, v);
        live = pair.0;
        let scores = pair.1;
        if scores.len() > 0 {
            if first.is_none() {
                first = Some(scores[0]);
            }
            last = Some(scores[scores.len() - 1]);
        }
        proof {
            let dr = draws@.skip(d as int);
            assert(dr[0] == draws@[d as int]);
            assert(dr.drop_first() =~= draws@.skip(d as int + 1));
            let sc = round_scores(pre_models, v);
            assert(sc == ints_of(scores@));
            if scores@.len() > 0 {
                assert(sc[0] == scores@[0] as int);
                assert(sc[sc.len() - 1] == scores@[scores@.len() - 1] as int);
            }
            assert(fold_scores(as_int_opt(pre_first), as_int_opt(pre_last), sc).0 == as_int_opt(
                first,
            ));
            assert(fold_scores(as_int_opt(pre_first), as_int_opt(pre_last), sc).1 == as_int_opt(
                last,
            ));
        }
        d = d + 1;
    }
    proof {
        assert(draws@.skip(draws@.len() as int) =~= Seq::<u32>::empty());
    }
    (live, GameResult { first_win_score: first, last_win_score: last })
}

/// The first win score is recorded exactly when the last one is.
proof fn lemma_play_first_last(
    ms: Seq<BoardModel>,
    draws: Seq<u32>,
    first: Option<int>,
    last: Option<int>,
)
    requires
        first is Some <==> last is Some,
    ensures
        play(ms, draws, first, last).1 is Some <==> play(ms, draws, first, last).2 is Some,
    decreases draws.len(),
{
    if draws.len() > 0 {
        let v = draws[0];
        let fl = fold_scores(first, last, round_scores(ms, v));
        lemma_play_first_last(round_survivors(ms, v), draws.drop_first(), fl.0, fl.1);
    }
}

/// Play every draw and hand back both scores; a run in which no board ever
/// wins is `NoWinnerError`.
pub fn solve(boards: Vec<Board>, draws: &Vec<u32>) -> (r: Result<(u128, u128), BingoError>)
    requires
        all_wf(models_of(boards@)),
    ensures
        ({
            let out = play(models_of(boards@), draws@, Option::None, Option::None);
            &&& r is Ok <==> out.1 is Some
            &&& r is Ok ==> Option::Some(r.unwrap().0 as int) == out.1
            &&& r is Ok ==> Option::Some(r.unwrap().1 as int) == out.2
            &&& r is Err ==> r.unwrap_err() == BingoError::NoWinnerError
        }),
{
    proof {
        lemma_play_first_last(
            models_of(boards@),
            draws@,
            Option::<int>::None,
            Option::<int>::None,
        );
    }
    let out = run_game(boards, draws);
    let result = out.1;
    match (result.first_win_score, result.last_win_score) {
        (Some(f), Some(l)) => Ok((f, l)),
        _ => Err(BingoError::NoWinnerError),
    }
}

/// Two runs of the draw loop on equal boards and equal draws end with equal
/// live boards and record equal first and last win scores.
pub proof fn lemma_play_deterministic(
    ms1: Seq<BoardModel>,
    ms2: Seq<BoardModel>,
    draws1: Seq<u32>,
    draws2: Seq<u32>,
)
    requires
        ms1 == ms2,
        draws1 == draws2,
    ensures
        play(ms1, draws1, Option::None, Option::None) == play(
            ms2,
            draws2,
            Option::None,
            Option::None,
        ),
{
}

} // verus!
