//! What the clocks of a game tell: how much time each side was given, spent and
//! has left, and when it can be proved that a side ran out of it.

use super::clocks::{absence_ms, attested, CLOCK_TICK_MS};
use super::setup::{SignedGameSetup, TimeControl};
use super::{
    flag_fall, keys_of, line_of, moves_made, played, provable, spent, stamps, start_time,
    time_given, time_left, time_pending, time_used, to_clock, GameView,
};
use crate::chess::types::{Color, GameStatus};
use crate::crypto::VerifyingKey;
use crate::prefix::lemma_leading;
use vstd::prelude::*;

verus! {

/// The moves of a game are those on record from the first ply on, up to the
/// first ply without one, each with its time.
pub proof fn law_moves_run_to_the_first_gap(g: GameView, i: int)
    ensures
        stamps(g).len() == played(g).len(),
        played(g).len() <= u32::MAX,
        0 <= i < played(g).len() ==> g.moves.contains_key(i as u32) && played(g)[i]
            == g.moves[i as u32].mv && stamps(g)[i] == g.moves[i as u32].played_at,
        played(g).len() < u32::MAX ==> !g.moves.contains_key(played(g).len() as u32),
{
    let good = |i: int| g.moves.contains_key(i as u32);
    lemma_leading(good, u32::MAX as nat);
    if 0 <= i < played(g).len() {
        assert(good(i));
    }
}

/// Every move is one side's, White's first, and the sides take turns.
pub proof fn law_sides_take_turns(g: GameView)
    ensures
        moves_made(g, Color::White) + moves_made(g, Color::Black) == played(g).len(),
        played(g).len() % 2 == 0 ==> moves_made(g, Color::White) == moves_made(g, Color::Black),
        played(g).len() % 2 == 1 ==> moves_made(g, Color::White) == moves_made(g, Color::Black) + 1,
{
}

/// Before the first move both sides have the time that the terms give them.
pub proof fn law_time_at_the_start(g: GameView, s: SignedGameSetup, color: Color)
    requires
        g.setup == Some(s),
        played(g).len() == 0,
    ensures
        time_given(g, color) == 1000 * s.setup.time_control.initial_secs,
{
    assert(moves_made(g, color) == 0);
    assert(s.setup.time_control.increment_secs * 1000 * 0 == 0) by (nonlinear_arith);
}

/// With every move that a side makes, whichever it is, that side is given one
/// increment more, and the other side nothing.
pub proof fn law_every_move_earns_its_increment(g: GameView, h: GameView, s: SignedGameSetup)
    requires
        g.setup == Some(s),
        h.setup == Some(s),
        played(h).len() == played(g).len() + 1,
    ensures
        played(g).len() % 2 == 0 ==> time_given(h, Color::White) == time_given(g, Color::White)
            + 1000 * s.setup.time_control.increment_secs,
        played(g).len() % 2 == 0 ==> time_given(h, Color::Black) == time_given(g, Color::Black),
        played(g).len() % 2 == 1 ==> time_given(h, Color::Black) == time_given(g, Color::Black)
            + 1000 * s.setup.time_control.increment_secs,
        played(g).len() % 2 == 1 ==> time_given(h, Color::White) == time_given(g, Color::White),
{
    let inc = s.setup.time_control.increment_secs as int;
    let mover = if played(g).len() % 2 == 0 {
        Color::White
    } else {
        Color::Black
    };
    let made = moves_made(g, mover);
    assert(moves_made(h, mover) == made + 1);
    assert(inc * 1000 * (made + 1) == inc * 1000 * made + 1000 * inc) by (nonlinear_arith);
    assert(moves_made(h, mover.other()) == moves_made(g, mover.other()));
}

/// What was spent on the first plies hangs on their times alone.
proof fn lemma_spent_by_then(a: Seq<i64>, b: Seq<i64>, start: i64, color: Color, n: nat)
    requires
        n <= a.len(),
        n <= b.len(),
        a.take(n as int) == b.take(n as int),
    ensures
        spent(a, start, color, n) == spent(b, start, color, n),
    decreases n,
{
    if n > 0 {
        let m = (n - 1) as nat;
        assert(a.take(m as int) =~= a.take(n as int).take(m as int));
        assert(b.take(m as int) =~= b.take(n as int).take(m as int));
        lemma_spent_by_then(a, b, start, color, m);
        assert(a[n - 1] == a.take(n as int)[n - 1]);
        assert(b[n - 1] == b.take(n as int)[n - 1]);
        if n > 1 {
            assert(a[n - 2] == a.take(n as int)[n - 2]);
            assert(b[n - 2] == b.take(n as int)[n - 2]);
        }
    }
}

/// A move costs whoever makes it the time since the move before it, or since the
/// game began, and costs the other side nothing. A move that is dated back costs
/// nothing.
pub proof fn law_a_move_costs_its_maker_the_time_it_took(g: GameView, h: GameView, at: i64)
    requires
        start_time(g) is Some,
        start_time(h) == start_time(g),
        stamps(h) == stamps(g).push(at),
    ensures
        ({
            let since = if stamps(g).len() == 0 {
                start_time(g)->0
            } else {
                stamps(g)[stamps(g).len() - 1]
            };
            let cost = if at > since {
                at - since
            } else {
                0
            };
            let white_moved = stamps(g).len() % 2 == 0;
            &&& time_used(h, Color::White) == time_used(g, Color::White) + (if white_moved {
                cost
            } else {
                0
            })
            &&& time_used(h, Color::Black) == time_used(g, Color::Black) + (if white_moved {
                0
            } else {
                cost
            })
        }),
{
    let (a, b) = (stamps(g), stamps(h));
    let n = a.len();
    assert(b.take(n as int) =~= a.take(n as int));
    lemma_spent_by_then(a, b, start_time(g)->0, Color::White, n);
    lemma_spent_by_then(a, b, start_time(g)->0, Color::Black, n);
    if n > 0 {
        assert(b[n - 1] == a[n - 1]);
    }
}

/// Nobody has spent anything before the first move.
pub proof fn law_nothing_is_spent_at_the_start(g: GameView, color: Color)
    requires
        stamps(g).len() == 0,
    ensures
        time_used(g, color) == 0,
{
}

proof fn lemma_all_spent(stamps: Seq<i64>, start: i64, n: nat)
    requires
        n <= stamps.len(),
        stamps.len() > 0 ==> start <= stamps[0],
        forall|i: int| 0 < i < stamps.len() ==> stamps[i - 1] <= #[trigger] stamps[i],
    ensures
        spent(stamps, start, Color::White, n) + spent(stamps, start, Color::Black, n) == if n == 0 {
            0
        } else {
            stamps[n - 1] - start
        },
    decreases n,
{
    if n > 0 {
        lemma_all_spent(stamps, start, (n - 1) as nat);
        if n > 1 {
            assert(stamps[n - 1 - 1] <= stamps[n - 1]);
        }
    }
}

/// Where no move is dated back, all the time from the beginning to the last move
/// was spent by one side or the other.
pub proof fn law_all_time_is_spent_by_someone(g: GameView)
    requires
        start_time(g) is Some,
        stamps(g).len() > 0,
        start_time(g)->0 <= stamps(g)[0],
        forall|i: int| 0 < i < stamps(g).len() ==> stamps(g)[i - 1] <= #[trigger] stamps(g)[i],
    ensures
        time_used(g, Color::White) + time_used(g, Color::Black) == stamps(g).last()
            - start_time(g)->0,
{
    lemma_all_spent(stamps(g), start_time(g)->0, stamps(g).len());
}

/// The clocks start once both the terms and the second player are there.
pub proof fn law_clocks_start_when_both_are_there(g: GameView)
    ensures
        start_time(g) is Some <==> g.setup is Some && g.slot.seated is Some,
        start_time(g) is Some ==> {
            let (joined, created) = (
                g.slot.seated->0.join.joined_at,
                g.setup->0.setup.created_at,
            );
            &&& start_time(g)->0 >= joined
            &&& start_time(g)->0 >= created
            &&& start_time(g)->0 == joined || start_time(g)->0 == created
        },
{
}

/// While a game runs, the clock of the side to move runs and the other stands
/// still: at a later time the one has spent that much more on its move, and the
/// other nothing.
pub proof fn law_the_side_to_move_has_the_clock(g: GameView, now: i64, later: i64)
    requires
        line_of(g).status == GameStatus::InProgress,
        g.slot.seated is Some,
        g.setup is Some,
        now <= later,
        stamps(g).len() == 0 ==> now >= start_time(g)->0,
        stamps(g).len() > 0 ==> now >= stamps(g).last(),
    ensures
        ({
            let (mover, other) = if stamps(g).len() % 2 == 0 {
                (Color::White, Color::Black)
            } else {
                (Color::Black, Color::White)
            };
            &&& time_pending(g, mover, later) - time_pending(g, mover, now) == later - now
            &&& time_pending(g, other, now) == 0
            &&& time_pending(g, other, later) == 0
            &&& stamps(g).len() == 0 ==> time_pending(g, mover, now) == now - start_time(g)->0
            &&& stamps(g).len() > 0 ==> time_pending(g, mover, now) == now - stamps(g).last()
        }),
{
}

/// No clock runs before somebody is seated, nor once the game is over on the
/// board.
pub proof fn law_no_clock_runs_without_a_game(g: GameView, color: Color, now: i64)
    requires
        g.slot.seated is None || line_of(g).status != GameStatus::InProgress,
    ensures
        time_pending(g, color, now) == 0,
{
}

/// What a side has left is what it was given, less what it spent on its moves
/// and on the one it is thinking about; never less than nothing.
pub proof fn law_time_left_is_what_was_not_spent(g: GameView, color: Color, now: i64)
    requires
        g.setup is Some,
    ensures
        ({
            let owed = time_given(g, color) - time_used(g, color) - time_pending(g, color, now);
            &&& time_left(g, color, now) >= 0
            &&& owed >= 0 ==> time_left(g, color, now) == owed
            &&& owed < 0 ==> time_left(g, color, now) == 0
        }),
{
}

/// A flag falls at the moment at which no time is left, and not before.
pub proof fn law_the_flag_falls_when_no_time_is_left(g: GameView, now: i64)
    requires
        line_of(g).status == GameStatus::InProgress,
        g.slot.seated is Some,
        g.setup is Some,
        stamps(g).len() == 0 ==> now >= start_time(g)->0,
        stamps(g).len() > 0 ==> now >= stamps(g).last(),
    ensures
        ({
            let mover = if stamps(g).len() % 2 == 0 {
                Color::White
            } else {
                Color::Black
            };
            time_left(g, mover, now) == 0 <==> now >= flag_fall(g, mover)
        }),
{
}

/// A time that a clock can show is shown as it is, and any other as the nearest
/// that it can.
pub proof fn law_clocks_show_the_time(n: int)
    ensures
        i64::MIN <= n <= i64::MAX ==> to_clock(n) == n,
        n > i64::MAX ==> to_clock(n) == i64::MAX,
        n < i64::MIN ==> to_clock(n) == i64::MIN,
{
}

/// A loss on time is proved by the loser's own word only: both are seated, the
/// game runs, the loser is to move, and signed for a time. Past the fall of the
/// flag that is when it fell; before it, the time by which silence forfeits.
pub proof fn law_losses_on_time_are_proved_by_the_loser(g: GameView, loser: Color, at_ply: int)
    ensures
        provable(g, loser, at_ply) is Some <==> {
            &&& g.setup is Some && g.slot.seated is Some
            &&& line_of(g).status == GameStatus::InProgress
            &&& at_ply == stamps(g).len()
            &&& loser == Color::White <==> at_ply % 2 == 0
            &&& loser == Color::White ==> attested(g.clocks, (keys_of(g)->0).0) is Some
            &&& loser == Color::Black ==> attested(g.clocks, (keys_of(g)->0).1) is Some
        },
        provable(g, loser, at_ply) is Some ==> {
            let key = if loser == Color::White {
                (keys_of(g)->0).0
            } else {
                (keys_of(g)->0).1
            };
            let at = attested(g.clocks, key)->0;
            let silence = at + absence_ms(g.setup->0.setup.time_control);
            &&& at >= flag_fall(g, loser) && i64::MIN <= flag_fall(g, loser) <= i64::MAX
                ==> provable(g, loser, at_ply) == Some(flag_fall(g, loser))
            &&& at < flag_fall(g, loser) && silence <= i64::MAX ==> provable(g, loser, at_ply)
                == Some(silence)
        },
{
}

/// A player who has time left is not proved to have lost before that player has
/// been silent for as long as forfeits a game.
pub proof fn law_nobody_loses_on_time_too_soon(
    g: GameView,
    loser: Color,
    at_ply: int,
    key: VerifyingKey,
)
    requires
        provable(g, loser, at_ply) is Some,
        key == if loser == Color::White {
            (keys_of(g)->0).0
        } else {
            (keys_of(g)->0).1
        },
        attested(g.clocks, key)->0 + 600_000 <= i64::MAX,
        flag_fall(g, loser) >= i64::MIN,
    ensures
        provable(g, loser, at_ply)->0 >= flag_fall(g, loser) || provable(g, loser, at_ply)->0
            >= attested(g.clocks, key)->0 + 30_000,
        provable(g, loser, at_ply)->0 <= attested(g.clocks, key)->0 + 600_000,
{
}

/// How long a player may be silent: a tenth of the time that a game of forty
/// moves takes each side, but at least half a minute and at most ten.
pub proof fn law_silence_forfeits_after_a_tenth_of_the_game(tc: TimeControl)
    ensures
        30_000 <= absence_ms(tc) <= 600_000,
        ({
            let whole = 1000 * (tc.initial_secs + 40 * tc.increment_secs);
            &&& 300_000 <= whole <= 6_000_000 ==> 10 * absence_ms(tc) == whole
            &&& whole < 300_000 ==> absence_ms(tc) == 30_000
            &&& whole > 6_000_000 ==> absence_ms(tc) == 600_000
        }),
{
}

/// A client that signs the time every ten seconds may miss two and not be
/// counted absent, whatever the terms.
pub proof fn law_two_ticks_may_be_missed(tc: TimeControl)
    ensures
        3 * CLOCK_TICK_MS <= absence_ms(tc),
        CLOCK_TICK_MS == 10_000,
{
}

} // verus!
