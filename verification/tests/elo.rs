//! Ratings.

use freechess::elo::{
    apply_result, expected_milli, rating_from_history, RatedGame, Score, MAX_ELO, MIN_ELO,
    STARTING_ELO,
};

#[test]
fn extreme_ratings_do_not_overflow_or_panic() {
    // Ratings arrive from a certificate's `*_rating_before`, which is
    // whatever its author wrote. `rating - opponent_rating` overflows for far-apart
    // values and `i32::MIN.abs()` panics outright.
    for (rating, opponent) in [
        (i32::MIN, i32::MAX),
        (i32::MAX, i32::MIN),
        (i32::MIN, i32::MIN),
        (i32::MAX, i32::MAX),
        (0, i32::MIN),
        (i32::MIN, 0),
    ] {
        for score in [Score::Win, Score::Draw, Score::Loss] {
            let out = apply_result(rating, 0, opponent, score);
            assert!(out >= MIN_ELO, "rating floor must hold, got {out}");
        }
    }
}

#[test]
fn a_rating_near_the_ceiling_does_not_wrap() {
    // There is a floor but no ceiling, so `rating + delta` could wrap to a
    // huge negative number and land *below* MIN_ELO after the clamp.
    let out = apply_result(i32::MAX, 0, 0, Score::Win);
    assert!((MIN_ELO..=MAX_ELO).contains(&out), "got {out}");
}

#[test]
fn equal_ratings_expect_a_draw() {
    assert_eq!(expected_milli(1500, 1500), 500);
}

#[test]
fn expectations_are_symmetric() {
    // The pair of expected scores must sum to exactly 1.000, otherwise
    // rating points are created or destroyed on every game.
    for diff in (0..900).step_by(7) {
        let a = expected_milli(1500 + diff, 1500);
        let b = expected_milli(1500, 1500 + diff);
        assert_eq!(a + b, 1000, "asymmetry at diff {diff}");
    }
}

#[test]
fn beating_a_stronger_player_gains_more_than_beating_a_weaker_one() {
    let vs_stronger = apply_result(1500, 50, 1900, Score::Win) - 1500;
    let vs_weaker = apply_result(1500, 50, 1100, Score::Win) - 1500;
    assert!(
        vs_stronger > vs_weaker,
        "upset {vs_stronger} should beat easy win {vs_weaker}"
    );
}

#[test]
fn losing_to_a_weaker_player_costs_more() {
    let to_weaker = 1500 - apply_result(1500, 50, 1100, Score::Loss);
    let to_stronger = 1500 - apply_result(1500, 50, 1900, Score::Loss);
    assert!(to_weaker > to_stronger);
}

#[test]
fn provisional_players_move_faster() {
    let provisional = apply_result(1200, 0, 1200, Score::Win) - 1200;
    let established = apply_result(1200, 100, 1200, Score::Win) - 1200;
    assert!(provisional > established);
}

#[test]
fn elite_players_move_slowest() {
    let elite = apply_result(2500, 100, 2500, Score::Win) - 2500;
    let established = apply_result(1500, 100, 1500, Score::Win) - 1500;
    assert!(elite < established);
}

#[test]
fn rating_never_falls_below_the_floor() {
    let mut rating = 200;
    for i in 0..200 {
        rating = apply_result(rating, i, 2000, Score::Loss);
    }
    assert!(rating >= MIN_ELO, "rating {rating} fell through the floor");
}

#[test]
fn a_draw_between_equals_changes_nothing() {
    assert_eq!(apply_result(1500, 50, 1500, Score::Draw), 1500);
}

#[test]
fn history_replay_is_deterministic() {
    let history = vec![
        RatedGame {
            opponent_rating: 1400,
            score: Score::Win,
        },
        RatedGame {
            opponent_rating: 1600,
            score: Score::Loss,
        },
        RatedGame {
            opponent_rating: 1500,
            score: Score::Draw,
        },
    ];
    let a = rating_from_history(&history);
    let b = rating_from_history(&history);
    assert_eq!(a, b);
    assert_ne!(a, STARTING_ELO);
}

#[test]
fn empty_history_is_the_starting_rating() {
    assert_eq!(rating_from_history(&[]), STARTING_ELO);
}

#[test]
fn a_win_and_a_matching_loss_roughly_cancel() {
    // Zero-sum sanity: what one player gains, the other loses, within the
    // rounding tolerance of one point.
    let winner_gain = apply_result(1500, 50, 1500, Score::Win) - 1500;
    let loser_loss = 1500 - apply_result(1500, 50, 1500, Score::Loss);
    assert!((winner_gain - loser_loss).abs() <= 1);
}
