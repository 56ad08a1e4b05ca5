//! Elo ratings, in whole numbers, so that every peer gets the same rating from
//! the same games.

use vstd::prelude::*;

verus! {

/// The rating of a new player.
pub const STARTING_ELO: i32 = 1200;

/// No rating falls below this.
pub const MIN_ELO: i32 = 100;

/// No rating rises above this.
pub const MAX_ELO: i32 = 4000;

/// Games played before a rating counts as established.
pub const PROVISIONAL_GAMES: u32 = 20;

pub const K_PROVISIONAL: i32 = 40;

pub const K_ESTABLISHED: i32 = 20;

pub const K_ELITE: i32 = 10;

pub const ELITE_THRESHOLD: i32 = 2400;

/// The result of a game from one player's point of view.
#[derive(Debug, Clone, Copy, PartialEq, Eq, Structural)]
pub enum Score {
    Win,
    Draw,
    Loss,
}

impl Score {
    /// The score in thousandths.
    pub open spec fn thousandths(self) -> int {
        match self {
            Score::Win => 1000,
            Score::Draw => 500,
            Score::Loss => 0,
        }
    }

    /// The same result from the other side of the board.
    pub open spec fn inverted(self) -> Score {
        match self {
            Score::Win => Score::Loss,
            Score::Draw => Score::Draw,
            Score::Loss => Score::Win,
        }
    }

    pub fn milli(self) -> (r: i32)
        ensures
            r == self.thousandths(),
    {
        match self {
            Score::Win => 1000,
            Score::Draw => 500,
            Score::Loss => 0,
        }
    }

    pub fn inverse(self) -> (r: Score)
        ensures
            r == self.inverted(),
    {
        match self {
            Score::Win => Score::Loss,
            Score::Draw => Score::Draw,
            Score::Loss => Score::Win,
        }
    }
}

/// The FIDE table: the expected score in thousandths of a player who is `i`
/// steps of 25 points ahead.
pub open spec fn table_entry(i: int) -> int {
    if i == 0 {
        500
    } else if i == 1 {
        536
    } else if i == 2 {
        571
    } else if i == 3 {
        606
    } else if i == 4 {
        640
    } else if i == 5 {
        673
    } else if i == 6 {
        705
    } else if i == 7 {
        736
    } else if i == 8 {
        765
    } else if i == 9 {
        792
    } else if i == 10 {
        818
    } else if i == 11 {
        842
    } else if i == 12 {
        864
    } else if i == 13 {
        884
    } else if i == 14 {
        903
    } else if i == 15 {
        919
    } else if i == 16 {
        934
    } else if i == 17 {
        947
    } else if i == 18 {
        958
    } else if i == 19 {
        967
    } else if i == 20 {
        975
    } else if i == 21 {
        981
    } else if i == 22 {
        986
    } else if i == 23 {
        990
    } else if i == 24 {
        993
    } else if i == 25 {
        995
    } else if i == 26 {
        997
    } else if i == 27 {
        998
    } else if i == 28 {
        999
    } else if i == 29 {
        999
    } else if i == 30 {
        1000
    } else {
        1000
    }
}

fn table(i: usize) -> (r: i32)
    requires
        i <= 32,
    ensures
        r == table_entry(i as int),
        500 <= r <= 1000,
{
    match i {
        0 => 500,
        1 => 536,
        2 => 571,
        3 => 606,
        4 => 640,
        5 => 673,
        6 => 705,
        7 => 736,
        8 => 765,
        9 => 792,
        10 => 818,
        11 => 842,
        12 => 864,
        13 => 884,
        14 => 903,
        15 => 919,
        16 => 934,
        17 => 947,
        18 => 958,
        19 => 967,
        20 => 975,
        21 => 981,
        22 => 986,
        23 => 990,
        24 => 993,
        25 => 995,
        26 => 997,
        27 => 998,
        28 => 999,
        29 => 999,
        _ => 1000,
    }
}

/// The expected score in thousandths. Beyond 800 points the table ends.
pub open spec fn expected_score(rating: int, opponent: int) -> int {
    let lead = rating - opponent;
    let gap = if lead >= 800 || lead <= -800 {
        800
    } else if lead >= 0 {
        lead
    } else {
        -lead
    };
    if lead >= 0 {
        table_entry((gap + 12) / 25)
    } else {
        1000 - table_entry((gap + 12) / 25)
    }
}

/// How fast a rating moves.
pub open spec fn k_of(rating: int, games_played: int) -> int {
    if games_played < PROVISIONAL_GAMES {
        K_PROVISIONAL as int
    } else if rating >= ELITE_THRESHOLD {
        K_ELITE as int
    } else {
        K_ESTABLISHED as int
    }
}

/// Thousandths to the nearest whole number, halves away from zero.
pub open spec fn rounded(milli: int) -> int {
    if milli >= 0 {
        (milli + 500) / 1000
    } else {
        -((500 - milli) / 1000)
    }
}

/// A rating within its bounds.
pub open spec fn bounded(rating: int) -> int {
    if rating < MIN_ELO {
        MIN_ELO as int
    } else if rating > MAX_ELO {
        MAX_ELO as int
    } else {
        rating
    }
}

/// The rating after one game.
pub open spec fn rating_after(rating: int, games_played: int, opponent: int, score: Score) -> int {
    bounded(
        rating + rounded(
            k_of(rating, games_played) * (score.thousandths() - expected_score(rating, opponent)),
        ),
    )
}

pub fn expected_milli(rating: i32, opponent_rating: i32) -> (r: i32)
    ensures
        r == expected_score(rating as int, opponent_rating as int),
        0 <= r <= 1000,
{
    let lead: i64 = rating as i64 - opponent_rating as i64;
    let gap: i64 = if lead >= 800 || lead <= -800 {
        800
    } else if lead >= 0 {
        lead
    } else {
        -lead
    };
    let value: i32 = table(((gap + 12) / 25) as usize);
    if lead >= 0 {
        value
    } else {
        1000 - value
    }
}

pub fn k_factor(rating: i32, games_played: u32) -> (r: i32)
    ensures
        r == k_of(rating as int, games_played as int),
        10 <= r <= 40,
{
    if games_played < PROVISIONAL_GAMES {
        K_PROVISIONAL
    } else if rating >= ELITE_THRESHOLD {
        K_ELITE
    } else {
        K_ESTABLISHED
    }
}

/// The rating after one game.
pub fn apply_result(rating: i32, games_played: u32, opponent_rating: i32, score: Score) -> (r: i32)
    ensures
        r == rating_after(rating as int, games_played as int, opponent_rating as int, score),
        MIN_ELO <= r <= MAX_ELO,
{
    let k: i32 = k_factor(rating, games_played);
    let gain: i32 = score.milli() - expected_milli(rating, opponent_rating);
    assert(-40_000 <= k * gain <= 40_000) by (nonlinear_arith)
        requires
            10 <= k <= 40,
            -1000 <= gain <= 1000,
    ;
    let milli: i32 = k * gain;
    let delta: i32 = if milli >= 0 {
        (milli + 500) / 1000
    } else {
        -((500 - milli) / 1000)
    };
    let moved: i64 = rating as i64 + delta as i64;
    if moved < MIN_ELO as i64 {
        MIN_ELO
    } else if moved > MAX_ELO as i64 {
        MAX_ELO
    } else {
        moved as i32
    }
}

/// One rated game, as a player's history records it.
#[derive(Debug, Clone, Copy, PartialEq, Eq, Structural)]
pub struct RatedGame {
    /// The opponent's rating when the game was played.
    pub opponent_rating: i32,
    pub score: Score,
}

/// The rating after a list of games, from the first on.
pub open spec fn rating_of(history: Seq<RatedGame>) -> int
    decreases history.len(),
{
    if history.len() == 0 {
        STARTING_ELO as int
    } else {
        let games = (history.len() - 1) as u32;
        rating_after(
            rating_of(history.drop_last()),
            games as int,
            history.last().opponent_rating as int,
            history.last().score,
        )
    }
}

/// The rating after a list of games, from the first on.
pub fn rating_from_history(history: &[RatedGame]) -> (r: i32)
    ensures
        r == rating_of(history@),
        MIN_ELO <= r <= MAX_ELO,
{
    let mut rating: i32 = STARTING_ELO;
    let mut i: usize = 0;
    while i < history.len()
        invariant
            i <= history@.len(),
            rating == rating_of(history@.take(i as int)),
            MIN_ELO <= rating <= MAX_ELO,
        decreases history.len() - i,
    {
        let ghost next = history@.take(i + 1);
        assert(next.drop_last() =~= history@.take(i as int));
        assert(next.last() == history@[i as int]);
        rating = apply_result(rating, i as u32, history[i].opponent_rating, history[i].score);
        i = i + 1;
    }
    assert(history@.take(history@.len() as int) =~= history@);
    rating
}

/// The expected scores of the two players of a game add up to one game.
pub proof fn law_expectations_are_symmetric(a: int, b: int)
    ensures
        expected_score(a, b) + expected_score(b, a) == 1000,
{
}

proof fn lemma_expected_bounds(a: int, b: int)
    ensures
        0 <= expected_score(a, b) <= 1000,
{
}

proof fn lemma_table_grows(i: int, j: int)
    requires
        0 <= i <= j <= 32,
    ensures
        table_entry(i) <= table_entry(j),
    decreases j - i,
{
    if i < j {
        lemma_table_grows(i, j - 1);
    }
}

/// A stronger opponent is never expected to score less.
pub proof fn law_expectation_falls_with_the_opponent(rating: int, weaker: int, stronger: int)
    requires
        weaker <= stronger,
    ensures
        expected_score(rating, stronger) <= expected_score(rating, weaker),
{
    let a = rating - weaker;
    let b = rating - stronger;
    let ga = if a >= 800 || a <= -800 {
        800
    } else if a >= 0 {
        a
    } else {
        -a
    };
    let gb = if b >= 800 || b <= -800 {
        800
    } else if b >= 0 {
        b
    } else {
        -b
    };
    if b >= 0 {
        lemma_table_grows((gb + 12) / 25, (ga + 12) / 25);
    } else if a < 0 {
        lemma_table_grows((ga + 12) / 25, (gb + 12) / 25);
    } else {
        lemma_table_grows(0, (ga + 12) / 25);
        lemma_table_grows(0, (gb + 12) / 25);
    }
}

/// Ratings stay within their bounds whatever went in.
pub proof fn law_ratings_stay_bounded(rating: int, games: int, opponent: int, score: Score)
    ensures
        MIN_ELO <= rating_after(rating, games, opponent, score) <= MAX_ELO,
{
}

/// A win never costs points, a loss never earns any.
pub proof fn law_results_pay_the_right_way(rating: int, games: int, opponent: int)
    requires
        MIN_ELO <= rating <= MAX_ELO,
    ensures
        rating_after(rating, games, opponent, Score::Win) >= rating,
        rating_after(rating, games, opponent, Score::Loss) <= rating,
{
    lemma_expected_bounds(rating, opponent);
    let k = k_of(rating, games);
    let e = expected_score(rating, opponent);
    assert(k * (1000 - e) >= 0) by (nonlinear_arith)
        requires
            k >= 10,
            e <= 1000,
    ;
    assert(k * (0 - e) <= 0) by (nonlinear_arith)
        requires
            k >= 10,
            e >= 0,
    ;
}

/// Beating a stronger player earns at least as much as beating a weaker one,
/// and losing to one costs at most as much.
pub proof fn law_upsets_pay_more(rating: int, games: int, weaker: int, stronger: int, score: Score)
    requires
        weaker <= stronger,
    ensures
        rating_after(rating, games, stronger, score) >= rating_after(rating, games, weaker, score),
{
    law_expectation_falls_with_the_opponent(rating, weaker, stronger);
    let k = k_of(rating, games);
    let s = score.thousandths();
    let x = s - expected_score(rating, weaker);
    let y = s - expected_score(rating, stronger);
    assert(k * x <= k * y) by (nonlinear_arith)
        requires
            k >= 10,
            x <= y,
    ;
}

/// A draw between equals changes neither rating.
pub proof fn law_draw_between_equals_changes_nothing(rating: int, games: int)
    requires
        MIN_ELO <= rating <= MAX_ELO,
    ensures
        rating_after(rating, games, rating, Score::Draw) == rating,
{
    let k = k_of(rating, games);
    assert(expected_score(rating, rating) == 500);
    assert(k * (500 - 500) == 0) by (nonlinear_arith);
}

/// Every game of a history moves the rating, the last one last, whatever its
/// score: the rating after one game more is what that game makes of the rating
/// before it, for a player who has played as many games as came before.
pub proof fn law_every_game_of_a_history_counts(history: Seq<RatedGame>, game: RatedGame)
    requires
        history.len() <= u32::MAX,
    ensures
        rating_of(history.push(game)) == rating_after(
            rating_of(history),
            history.len() as int,
            game.opponent_rating as int,
            game.score,
        ),
        MIN_ELO <= rating_of(history) <= MAX_ELO,
        rating_of(Seq::empty()) == 1200,
{
    assert(history.push(game).drop_last() =~= history);
    if history.len() > 0 {
        assert(history =~= history.drop_last().push(history.last()));
    }
}

/// A history that ends with a win against an equal ends higher than it stood
/// before, with a loss lower and with a draw where it stood, as far as the
/// bounds of all ratings allow.
pub proof fn law_the_last_game_of_a_history_pays(history: Seq<RatedGame>, game: RatedGame)
    requires
        history.len() <= u32::MAX,
        game.opponent_rating == rating_of(history),
    ensures
        game.score == Score::Win && rating_of(history) < MAX_ELO ==> rating_of(history.push(game))
            > rating_of(history),
        game.score == Score::Loss && rating_of(history) > MIN_ELO ==> rating_of(history.push(game))
            < rating_of(history),
        game.score == Score::Draw ==> rating_of(history.push(game)) == rating_of(history),
{
    law_every_game_of_a_history_counts(history, game);
    law_stakes_between_equals(rating_of(history), history.len() as int);
}

/// What is at stake between equals: twenty points in a player's first twenty
/// games, later ten, and five from 2400 points on. The winner takes them, the
/// loser gives them, and a draw moves nothing.
pub proof fn law_stakes_between_equals(rating: int, games: int)
    requires
        MIN_ELO <= rating <= MAX_ELO,
    ensures
        ({
            let stake: int = if games < 20 {
                20
            } else if rating < 2400 {
                10
            } else {
                5
            };
            &&& rating + stake <= MAX_ELO ==> rating_after(rating, games, rating, Score::Win)
                == rating + stake
            &&& rating - stake >= MIN_ELO ==> rating_after(rating, games, rating, Score::Loss)
                == rating - stake
            &&& rating + stake > MAX_ELO ==> rating_after(rating, games, rating, Score::Win)
                == MAX_ELO
            &&& rating - stake < MIN_ELO ==> rating_after(rating, games, rating, Score::Loss)
                == MIN_ELO
            &&& rating_after(rating, games, rating, Score::Draw) == rating
        }),
{
    let k = k_of(rating, games);
    assert(expected_score(rating, rating) == 500);
    assert(k * (1000 - 500) == 500 * k) by (nonlinear_arith);
    assert(k * (0 - 500) == -500 * k) by (nonlinear_arith);
    assert(k * (500 - 500) == 0) by (nonlinear_arith);
}

/// What one player wins the other loses, where both move as fast and neither
/// comes to a bound: no points are made in a game and none are lost.
pub proof fn law_points_change_hands(a: int, b: int, played_a: int, played_b: int, score: Score)
    requires
        k_of(a, played_a) == k_of(b, played_b),
        MIN_ELO + 40 <= a <= MAX_ELO - 40,
        MIN_ELO + 40 <= b <= MAX_ELO - 40,
    ensures
        rating_after(a, played_a, b, score) + rating_after(b, played_b, a, score.inverted()) == a
            + b,
{
    law_expectations_are_symmetric(a, b);
    lemma_expected_bounds(a, b);
    lemma_expected_bounds(b, a);
    let k = k_of(a, played_a);
    let x = score.thousandths() - expected_score(a, b);
    let y = score.inverted().thousandths() - expected_score(b, a);
    assert(y == -x);
    assert(k * y == -(k * x)) by (nonlinear_arith)
        requires
            y == -x,
    ;
    assert(-40_000 <= k * x <= 40_000) by (nonlinear_arith)
        requires
            10 <= k <= 40,
            -1000 <= x <= 1000,
    ;
}

/// A better score never leaves a player lower.
pub proof fn law_better_scores_pay_more(rating: int, games: int, opponent: int)
    ensures
        rating_after(rating, games, opponent, Score::Win) >= rating_after(
            rating,
            games,
            opponent,
            Score::Draw,
        ),
        rating_after(rating, games, opponent, Score::Draw) >= rating_after(
            rating,
            games,
            opponent,
            Score::Loss,
        ),
{
    let k = k_of(rating, games);
    let e = expected_score(rating, opponent);
    assert(k * (1000 - e) >= k * (500 - e) >= k * (0 - e)) by (nonlinear_arith)
        requires
            k >= 10,
    ;
}

/// No game moves a rating that is within bounds by more than how fast it moves:
/// by forty points in a player's first twenty games, later by twenty, and from
/// 2400 points on by ten.
pub proof fn law_ratings_move_slowly(rating: int, games: int, opponent: int, score: Score)
    requires
        MIN_ELO <= rating <= MAX_ELO,
    ensures
        ({
            let most: int = if games < 20 {
                40
            } else if rating < 2400 {
                20
            } else {
                10
            };
            rating - most <= rating_after(rating, games, opponent, score) <= rating + most
        }),
{
    lemma_expected_bounds(rating, opponent);
    let k = k_of(rating, games);
    let x = score.thousandths() - expected_score(rating, opponent);
    assert(-1000 * k <= k * x <= 1000 * k) by (nonlinear_arith)
        requires
            10 <= k <= 40,
            -1000 <= x <= 1000,
    ;
}

/// Equals are expected to score half; a lead is worth something from thirteen
/// points on; one of 738 points or more is taken to win always; and the further
/// ahead, the less another step of 25 points adds.
pub proof fn law_leads_are_worth_less_and_less(rating: int, lead: int)
    requires
        0 <= lead,
    ensures
        lead < 13 ==> expected_score(rating, rating - lead) == 500,
        lead >= 13 ==> expected_score(rating, rating - lead) > 500,
        lead >= 738 ==> expected_score(rating, rating - lead) == 1000,
        lead < 738 ==> expected_score(rating, rating - lead) < 1000,
        25 <= lead <= 675 ==> expected_score(rating, rating - lead - 25) - expected_score(
            rating,
            rating - lead,
        ) <= expected_score(rating, rating - lead) - expected_score(rating, rating - lead + 25),
{
}

/// What one player scored is what the other did not.
pub proof fn law_scores_add_up(score: Score)
    ensures
        score.thousandths() + score.inverted().thousandths() == 1000,
        score.inverted().inverted() == score,
        score.inverted() == score <==> score == Score::Draw,
        score == Score::Win <==> score.thousandths() == 1000,
        score == Score::Loss <==> score.thousandths() == 0,
{
}

/// What a lead is expected to score, in thousandths: a lead counts as the
/// nearest number of steps of 25 points, and each step has its place in the
/// table.
pub proof fn law_leads_go_by_steps(rating: int, opponent: int, step: int)
    requires
        0 <= step <= 30,
        25 * step - 12 <= rating - opponent <= 25 * step + 12,
        rating >= opponent,
    ensures
        expected_score(rating, opponent) == seq![
            500, 536, 571, 606, 640, 673, 705, 736, 765, 792, 818, 842, 864, 884, 903, 919, 934,
            947, 958, 967, 975, 981, 986, 990, 993, 995, 997, 998, 999, 999, 1000int,
        ][step],
{
}

} // verus!
