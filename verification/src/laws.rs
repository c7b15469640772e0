//! Properties that hold of the bot's operations on every input.

use vstd::prelude::*;
use crate::bot::{access_of, expanded, first_match, no_hacking, normalized, respond, route_of, Bot, RouteView};
use crate::runtime::table_of;
use crate::text::first_word;
use crate::text::{skip_leading, split_on, starts_with};
use crate::config::UserAccess;
use crate::handlers::{
    eligible, give_outcome, give_overflows, ignored, is_best, leaders, leaders_from, mod_reply, name_from,
    outranks, steal_outcome, with_points, TOP_COUNT,
};
use crate::runtime::{
    lemma_store_other, lemma_store_then_lookup, lookup, standing, store, ticked, Chatter, Roster,
};
use crate::text::{decimal, digit_char, digits_value, is_digit, parsed_u64, unsigned_digits, without_char};

verus! {

proof fn lemma_digit_char(d: nat)
    requires
        d < 10,
    ensures
        is_digit(digit_char(d)),
        (digit_char(d) as int) - ('0' as int) == d,
        digit_char(d) != '+',
{
}

proof fn lemma_decimal(n: nat)
    ensures
        decimal(n).len() > 0,
        forall|i: int| 0 <= i < decimal(n).len() ==> is_digit(#[trigger] decimal(n)[i]),
        digits_value(decimal(n)) == n,
        decimal(n)[0] != '+',
    decreases n,
{
    if n < 10 {
        lemma_digit_char(n);
        assert(decimal(n).drop_last() =~= Seq::<char>::empty());
        assert(digits_value(decimal(n).drop_last()) == 0);
        assert(decimal(n).last() == digit_char(n));
        assert(digits_value(decimal(n)) == 0 * 10 + ((digit_char(n) as int) - ('0' as int)));
    } else {
        lemma_decimal(n / 10);
        lemma_digit_char(n % 10);
        let d = decimal(n);
        assert(d.drop_last() =~= decimal(n / 10));
        assert(d[0] == decimal(n / 10)[0]);
        assert(forall|i: int| 0 <= i < d.len() - 1 ==> d[i] == decimal(n / 10)[i]);
        assert(d.last() == digit_char(n % 10));
        assert(digits_value(d) == digits_value(decimal(n / 10)) * 10 + ((digit_char(n % 10) as int) - ('0' as int)));
        assert((n / 10) * 10 + n % 10 == n) by (nonlinear_arith);
    }
}

/// Reading back a number that the bot writes in its answers gives the number.
pub proof fn written_numbers_read_back(n: u64)
    ensures
        parsed_u64(decimal(n as nat)) == Some(n),
{
    lemma_decimal(n as nat);
    assert(unsigned_digits(decimal(n as nat)) == decimal(n as nat));
}

proof fn lemma_without_char(s: Seq<char>, c: char)
    ensures
        !without_char(s, c).contains(c),
    decreases s.len(),
{
    if s.len() > 0 {
        lemma_without_char(s.drop_last(), c);
        let w = without_char(s.drop_last(), c);
        if s.last() != c {
            assert forall|i: int| 0 <= i < w.push(s.last()).len() implies w.push(s.last())[i] != c by {
                if i < w.len() {
                    assert(w.push(s.last())[i] == w[i]);
                }
            }
        }
    }
}

/// A user name taken from a command argument never holds an `@`.
pub proof fn names_hold_no_at(s: Seq<char>)
    ensures
        !name_from(s).contains('@'),
{
    lemma_without_char(crate::text::trimmed(s), '@');
}

/// A tick never lowers a chatter's points, uses up at most one tick, and
/// never takes the ticks below zero.
pub proof fn ticks_only_add_points(c: Chatter, per_tick: u64)
    requires
        c.remaining_ticks > 0 ==> c.points + per_tick <= u64::MAX,
    ensures
        ticked(c, per_tick).points >= c.points,
        ticked(c, per_tick).remaining_ticks == c.remaining_ticks
            || ticked(c, per_tick).remaining_ticks == c.remaining_ticks - 1,
        c.remaining_ticks >= 0 ==> ticked(c, per_tick).remaining_ticks >= 0,
{
}


/// The sum of the chatters' points.
pub open spec fn total(s: Seq<Chatter>) -> int
    decreases s.len(),
{
    if s.len() == 0 {
        0
    } else {
        total(s.drop_last()) + s.last().points
    }
}

proof fn lemma_total_update(s: Seq<Chatter>, i: int, c: Chatter)
    requires
        0 <= i < s.len(),
    ensures
        total(s.update(i, c)) == total(s) - s[i].points + c.points,
    decreases s.len(),
{
    if i == s.len() - 1 {
        assert(s.update(i, c).drop_last() =~= s.drop_last());
    } else {
        lemma_total_update(s.drop_last(), i, c);
        assert(s.update(i, c).drop_last() =~= s.drop_last().update(i, c));
    }
}

proof fn lemma_total_store(r: Roster, k: Seq<char>, c: Chatter)
    requires
        r.0.len() == r.1.len(),
    ensures
        total(store(r, k, c).1) == total(r.1) - standing(r, k).points + c.points,
{
    if r.0.contains(k) {
        let i = r.0.index_of(k);
        lemma_total_update(r.1, i, c);
    } else {
        assert(r.1.push(c).drop_last() =~= r.1);
    }
}

/// Whether a roster names each chatter once, with one standing each.
pub open spec fn roster_ok(r: Roster) -> bool {
    r.0.no_duplicates() && r.0.len() == r.1.len()
}

/// A `!give` moves points from the giver to the receiver: the total of all
/// chatters' points stays the same.
pub proof fn giving_keeps_the_total(r: Roster, name: Seq<char>, msg: Seq<char>)
    requires
        roster_ok(r),
        !give_overflows(r, name, msg),
    ensures
        total(give_outcome(r, name, msg).0.1) == total(r.1),
        roster_ok(give_outcome(r, name, msg).0),
{
    let parts = crate::text::split_on(msg, ' ');
    if parts.len() == 3 {
        let receiver = name_from(parts[1]);
        match crate::text::parsed_u64(parts[2]) {
            Some(amount) => match lookup(r, name) {
                Some(sender) => if amount <= sender.points && lookup(r, receiver) is Some {
                    let lowered = with_points(sender, (sender.points - amount) as u64);
                    let r1 = store(r, name, lowered);
                    lemma_store_then_lookup(r, name, lowered);
                    lemma_total_store(r, name, lowered);
                    let recv = standing(r1, receiver);
                    lemma_total_store(r1, receiver, with_points(recv, (recv.points + amount) as u64));
                    lemma_store_then_lookup(r1, receiver, with_points(recv, (recv.points + amount) as u64));
                },
                None => {},
            },
            None => {},
        }
    }
}

/// A theft never raises the total of all chatters' points, and leaves the
/// thief with no more points than were drawn.
pub proof fn stealing_never_adds_points(r: Roster, name: Seq<char>, msg: Seq<char>, wins: bool, amount: u64)
    requires
        roster_ok(r),
    ensures
        total(steal_outcome(r, name, msg, wins, amount).0.1) <= total(r.1),
        roster_ok(steal_outcome(r, name, msg, wins, amount).0),
        steal_outcome(r, name, msg, wins, amount).0 != r ==> standing(steal_outcome(r, name, msg, wins, amount).0, name).points <= amount,
{
    let parts = crate::text::split_on(msg, ' ');
    if parts.len() == 2 {
        let other = name_from(parts[1]);
        match lookup(r, other) {
            Some(victim) => if wins {
                let taken = if victim.points >= amount { amount } else { victim.points };
                let lowered = with_points(victim, (victim.points - taken) as u64);
                let r1 = store(r, other, lowered);
                lemma_store_then_lookup(r, other, lowered);
                lemma_total_store(r, other, lowered);
                let thief = with_points(standing(r1, name), taken);
                lemma_total_store(r1, name, thief);
                lemma_store_then_lookup(r1, name, thief);
            },
            None => {},
        }
    }
}

/// A chat line that is no command changes no chatter's points: it only
/// gives its sender the configured ticks of earning.
pub proof fn chatting_changes_no_points(bot: Bot, name: Seq<char>, message: Seq<char>, wins: bool, amount: u64, k: Seq<char>)
    requires
        bot.runtime.data.chatters.well_formed(),
        route_of(bot, name, message) is Chat,
    ensures
        standing(respond(bot, name, message, wins, amount).0, k).points == standing(bot.runtime.data.roster(), k).points,
        standing(respond(bot, name, message, wins, amount).0, route_of(bot, name, message)->Chat_0).remaining_ticks
            == bot.runtime.config.points.ticks_per_message,
{
    bot.runtime.data.chatters.lemma_view();
    let r = bot.runtime.data.roster();
    let n = route_of(bot, name, message)->Chat_0;
    let c = Chatter { points: standing(r, n).points, remaining_ticks: bot.runtime.config.points.ticks_per_message };
    lemma_store_then_lookup(r, n, c);
    if k != n {
        lemma_store_other(r, n, c, k);
    }
}

/// A command answered from the command table, or refused, changes nothing.
pub proof fn answers_change_nothing(bot: Bot, name: Seq<char>, message: Seq<char>, wins: bool, amount: u64)
    requires
        route_of(bot, name, message) is Answer || route_of(bot, name, message) is Denied,
    ensures
        respond(bot, name, message, wins, amount).0 == bot.runtime.data.roster(),
{
}


/// Among the first `m` positions, one that may be listed ranks above every
/// other one that may be listed.
proof fn lemma_best_below(r: Roster, access: Map<Seq<char>, UserAccess>, taken: Seq<int>, m: int)
    requires
        0 <= m,
        exists|i: int| 0 <= i < m && #[trigger] eligible(r, access, taken, i),
    ensures
        exists|b: int| 0 <= b < m && eligible(r, access, taken, b)
            && forall|j: int| 0 <= j < m && #[trigger] eligible(r, access, taken, j) && j != b ==> outranks(r, b, j),
    decreases m,
{
    if exists|i: int| 0 <= i < m - 1 && #[trigger] eligible(r, access, taken, i) {
        lemma_best_below(r, access, taken, m - 1);
        let b = choose|b: int| 0 <= b < m - 1 && eligible(r, access, taken, b)
            && forall|j: int| 0 <= j < m - 1 && #[trigger] eligible(r, access, taken, j) && j != b ==> outranks(r, b, j);
        if eligible(r, access, taken, m - 1) && r.1[m - 1].points >= r.1[b].points {
            let c = m - 1;
            assert forall|j: int| 0 <= j < m && #[trigger] eligible(r, access, taken, j) && j != c implies outranks(r, c, j) by {
                if j != b {
                    assert(outranks(r, b, j));
                }
            }
        } else {
            assert forall|j: int| 0 <= j < m && #[trigger] eligible(r, access, taken, j) && j != b implies outranks(r, b, j) by {
                if j == m - 1 {
                    assert(r.1[m - 1].points < r.1[b].points);
                }
            }
        }
    } else {
        let c = m - 1;
        assert(eligible(r, access, taken, c));
        assert forall|j: int| 0 <= j < m && #[trigger] eligible(r, access, taken, j) && j != c implies outranks(r, c, j) by {
            assert(0 <= j < m - 1);
        }
    }
}

/// What holds of a partly built leaderboard.
pub open spec fn board_ok(r: Roster, access: Map<Seq<char>, UserAccess>, taken: Seq<int>) -> bool {
    &&& forall|k: int| 0 <= k < taken.len() ==> 0 <= #[trigger] taken[k] < r.0.len() && !ignored(access, r.0[taken[k]])
    &&& forall|k: int, l: int| 0 <= k < l < taken.len() ==> outranks(r, #[trigger] taken[k], #[trigger] taken[l])
    &&& forall|j: int, k: int| #[trigger] eligible(r, access, taken, j) && 0 <= k < taken.len() ==> outranks(r, #[trigger] taken[k], j)
}

proof fn lemma_leaders_from(r: Roster, access: Map<Seq<char>, UserAccess>, taken: Seq<int>, k: nat)
    requires
        r.0.len() == r.1.len(),
        board_ok(r, access, taken),
    ensures
        board_ok(r, access, leaders_from(r, access, taken, k)),
        leaders_from(r, access, taken, k).len() <= taken.len() + k,
        (exists|j: int| #[trigger] eligible(r, access, leaders_from(r, access, taken, k), j))
            ==> leaders_from(r, access, taken, k).len() == taken.len() + k,
        taken.len() <= leaders_from(r, access, taken, k).len(),
        leaders_from(r, access, taken, k).take(taken.len() as int) == taken,
    decreases k,
{
    if k == 0 || !(exists|i: int| #[trigger] eligible(r, access, taken, i)) {
        assert(taken.take(taken.len() as int) =~= taken);
    } else {
        let i0 = choose|i: int| #[trigger] eligible(r, access, taken, i);
        lemma_best_below(r, access, taken, r.0.len() as int);
        let b0 = choose|b: int| 0 <= b < r.0.len() && eligible(r, access, taken, b)
            && forall|j: int| 0 <= j < r.0.len() && #[trigger] eligible(r, access, taken, j) && j != b ==> outranks(r, b, j);
        assert(is_best(r, access, taken, b0));
        let b = choose|i: int| is_best(r, access, taken, i);
        assert(is_best(r, access, taken, b));
        let next = taken.push(b);
        assert forall|j: int| #[trigger] eligible(r, access, next, j) implies eligible(r, access, taken, j) && j != b by {
            assert(next[taken.len() as int] == b);
            if taken.contains(j) {
                let q = choose|q: int| 0 <= q < taken.len() && taken[q] == j;
                assert(next[q] == j);
            }
        }
        assert(board_ok(r, access, next)) by {
            assert forall|q: int| 0 <= q < next.len() implies 0 <= #[trigger] next[q] < r.0.len() && !ignored(access, r.0[next[q]]) by {
                if q < taken.len() {
                    assert(next[q] == taken[q]);
                }
            }
            assert forall|p: int, q: int| 0 <= p < q < next.len() implies outranks(r, #[trigger] next[p], #[trigger] next[q]) by {
                assert(next[p] == taken[p]);
                if q < taken.len() {
                    assert(next[q] == taken[q]);
                } else {
                    assert(eligible(r, access, taken, b));
                }
            }
            assert forall|j: int, q: int| #[trigger] eligible(r, access, next, j) && 0 <= q < next.len() implies outranks(r, #[trigger] next[q], j) by {
                assert(eligible(r, access, taken, j) && j != b);
                if q < taken.len() {
                    assert(next[q] == taken[q]);
                }
            }
        }
        lemma_leaders_from(r, access, next, (k - 1) as nat);
        let result = leaders_from(r, access, next, (k - 1) as nat);
        assert(result.take(taken.len() as int) =~= result.take(next.len() as int).take(taken.len() as int));
        assert(next.take(taken.len() as int) =~= taken);
    }
}

/// The leaderboard lists at most five chatters, none whose access entry is
/// marked ignored, each with at least as many points as the ones after it
/// (and, on a tie, seen later); a chatter without an entry, or whose entry is
/// not marked ignored, who is not listed has no more points than any listed
/// one, and then the board is full.
pub proof fn leaderboard_lists_the_best(r: Roster, access: Map<Seq<char>, UserAccess>)
    requires
        r.0.len() == r.1.len(),
    ensures
        leaders(r, access).len() <= TOP_COUNT,
        forall|k: int| 0 <= k < leaders(r, access).len() ==> 0 <= #[trigger] leaders(r, access)[k] < r.0.len()
            && !(access.contains_key(r.0[leaders(r, access)[k]]) && access[r.0[leaders(r, access)[k]]].is_ignored),
        forall|k: int, l: int| 0 <= k < l < leaders(r, access).len()
            ==> outranks(r, #[trigger] leaders(r, access)[k], #[trigger] leaders(r, access)[l]),
        forall|k: int, l: int| 0 <= k < l < leaders(r, access).len()
            ==> r.1[#[trigger] leaders(r, access)[k]].points > r.1[#[trigger] leaders(r, access)[l]].points
            || (r.1[leaders(r, access)[k]].points == r.1[leaders(r, access)[l]].points
                && leaders(r, access)[k] > leaders(r, access)[l]),
        forall|i: int| 0 <= i < r.0.len() && !(access.contains_key(r.0[i]) && access[r.0[i]].is_ignored)
            && !leaders(r, access).contains(i)
            ==> leaders(r, access).len() == TOP_COUNT
            && forall|k: int| 0 <= k < leaders(r, access).len()
                ==> r.1[#[trigger] leaders(r, access)[k]].points > r.1[i].points
                || (r.1[leaders(r, access)[k]].points == r.1[i].points && leaders(r, access)[k] > i),
{
    let empty = Seq::<int>::empty();
    lemma_leaders_from(r, access, empty, TOP_COUNT as nat);
    let board = leaders(r, access);
    assert forall|i: int| 0 <= i < r.0.len() && !(access.contains_key(r.0[i]) && access[r.0[i]].is_ignored)
        && !board.contains(i)
        implies board.len() == TOP_COUNT
            && forall|k: int| 0 <= k < board.len() ==> r.1[#[trigger] board[k]].points > r.1[i].points
                || (r.1[board[k]].points == r.1[i].points && board[k] > i) by {
        assert(eligible(r, access, board, i));
        assert forall|k: int| 0 <= k < board.len() implies r.1[#[trigger] board[k]].points > r.1[i].points
            || (r.1[board[k]].points == r.1[i].points && board[k] > i) by {
            assert(outranks(r, board[k], i));
        }
    }
    assert forall|k: int, l: int| 0 <= k < l < board.len()
        implies r.1[#[trigger] board[k]].points > r.1[#[trigger] board[l]].points
        || (r.1[board[k]].points == r.1[board[l]].points && board[k] > board[l]) by {
        assert(outranks(r, board[k], board[l]));
    }
}

/// `!mod` answers exactly the users whose rights make them a moderator or an
/// admin, and tells them so by name.
pub proof fn mods_and_admins_are_answered(access: UserAccess, name: Seq<char>)
    ensures
        mod_reply(access, name) is Some <==> (access.is_mod || access.is_admin),
        mod_reply(access, name) is Some ==> mod_reply(access, name) == Some("@"@ + name + " you are a mod!"@),
{
}

/// A user's rights are those of their access entry, and none without one.
pub proof fn rights_come_from_the_access_entry(access: Map<Seq<char>, UserAccess>, name: Seq<char>)
    ensures
        access.contains_key(name) ==> access_of(access, name) == access[name],
        !access.contains_key(name) ==> !access_of(access, name).is_mod && !access_of(access, name).is_admin
            && !access_of(access, name).is_ignored,
{
}

/// A `!give <receiver> <amount>` of a number no greater than the giver's
/// points, to a chatter the bot knows, moves that many points: the giver
/// loses them, the receiver gains them, and everyone else keeps theirs.
pub proof fn giving_moves_the_amount(r: Roster, name: Seq<char>, msg: Seq<char>, other: Seq<char>)
    requires
        roster_ok(r),
        split_on(msg, ' ').len() == 3,
        parsed_u64(split_on(msg, ' ')[2]) is Some,
        lookup(r, name) is Some,
        parsed_u64(split_on(msg, ' ')[2]).unwrap() <= lookup(r, name).unwrap().points,
        lookup(r, name_from(split_on(msg, ' ')[1])) is Some,
        !give_overflows(r, name, msg),
    ensures
        ({
            let amount = parsed_u64(split_on(msg, ' ')[2]).unwrap();
            let receiver = name_from(split_on(msg, ' ')[1]);
            let after = give_outcome(r, name, msg).0;
            &&& lookup(after, name) is Some
            &&& lookup(after, receiver) is Some
            &&& receiver != name ==> lookup(after, name).unwrap().points == lookup(r, name).unwrap().points - amount
            &&& receiver != name ==> lookup(after, receiver).unwrap().points == lookup(r, receiver).unwrap().points + amount
            &&& receiver == name ==> lookup(after, name).unwrap().points == lookup(r, name).unwrap().points
            &&& other != name && other != receiver ==> lookup(after, other) == lookup(r, other)
        }),
{
    let parts = split_on(msg, ' ');
    let amount = parsed_u64(parts[2]).unwrap();
    let receiver = name_from(parts[1]);
    let sender = lookup(r, name).unwrap();
    let lowered = with_points(sender, (sender.points - amount) as u64);
    let r1 = store(r, name, lowered);
    lemma_store_then_lookup(r, name, lowered);
    let recv = standing(r1, receiver);
    let raised = with_points(recv, (recv.points + amount) as u64);
    lemma_store_then_lookup(r1, receiver, raised);
    if receiver != name {
        lemma_store_other(r, name, lowered, receiver);
        lemma_store_other(r1, receiver, raised, name);
    }
    if other != name && other != receiver {
        lemma_store_other(r, name, lowered, other);
        lemma_store_other(r1, receiver, raised, other);
    }
}

/// Once trimmed and lower-cased, a line that reads `$y` is handled as one
/// that reads `!so y`.
pub proof fn dollar_stands_for_shoutout(
    bot: Bot,
    name: Seq<char>,
    m1: Seq<char>,
    m2: Seq<char>,
    y: Seq<char>,
    wins: bool,
    amount: u64,
)
    requires
        normalized(m1) == "$"@ + y,
        normalized(m2) == "!so "@ + y,
    ensures
        route_of(bot, name, m1) == route_of(bot, name, m2),
        respond(bot, name, m1, wins, amount) == respond(bot, name, m2, wins, amount),
{
    reveal_strlit("$");
    reveal_strlit("!so ");
    let a = normalized(m1);
    let b = normalized(m2);
    assert(a.take(1) =~= "$"@);
    assert(starts_with(a, "$"@));
    assert(a.drop_first() =~= y);
    assert(b[0] == '!');
    assert(!starts_with(b, "$"@)) by {
        if starts_with(b, "$"@) {
            assert(b.take(1)[0] == '$');
        }
    }
    assert(expanded(a) =~= expanded(b));
}

/// `k` copies of `!`.
pub open spec fn bangs(k: nat) -> Seq<char> {
    Seq::new(k, |i: int| '!')
}

proof fn lemma_skip_bangs(k: nat, y: Seq<char>)
    ensures
        skip_leading(bangs(k) + y, '!') == skip_leading(y, '!'),
    decreases k,
{
    if k > 0 {
        assert((bangs(k) + y).drop_first() =~= bangs((k - 1) as nat) + y);
        lemma_skip_bangs((k - 1) as nat, y);
    } else {
        assert(bangs(k) + y =~= y);
    }
}

/// Once trimmed and lower-cased, a line that starts with several `!` is
/// handled as the same line with one `!`.
pub proof fn repeated_bangs_count_once(
    bot: Bot,
    name: Seq<char>,
    m1: Seq<char>,
    m2: Seq<char>,
    y: Seq<char>,
    k: nat,
    wins: bool,
    amount: u64,
)
    requires
        k >= 1,
        normalized(m1) == bangs(k) + y,
        normalized(m2) == bangs(1) + y,
    ensures
        route_of(bot, name, m1) == route_of(bot, name, m2),
        respond(bot, name, m1, wins, amount) == respond(bot, name, m2, wins, amount),
{
    reveal_strlit("$");
    reveal_strlit("!");
    let a = normalized(m1);
    let b = normalized(m2);
    assert(a[0] == '!' && b[0] == '!');
    assert(!starts_with(a, "$"@)) by {
        if starts_with(a, "$"@) {
            assert(a.take(1)[0] == '$');
        }
    }
    assert(!starts_with(b, "$"@)) by {
        if starts_with(b, "$"@) {
            assert(b.take(1)[0] == '$');
        }
    }
    assert(a.take(1) =~= "!"@);
    assert(b.take(1) =~= "!"@);
    lemma_skip_bangs(k, y);
    lemma_skip_bangs(1, y);
}

/// Names and lines that read the same once trimmed and lower-cased are
/// handled alike.
pub proof fn lines_read_alike_are_handled_alike(
    bot: Bot,
    n1: Seq<char>,
    n2: Seq<char>,
    m1: Seq<char>,
    m2: Seq<char>,
    wins: bool,
    amount: u64,
)
    requires
        normalized(n1) == normalized(n2),
        normalized(m1) == normalized(m2),
    ensures
        route_of(bot, n1, m1) == route_of(bot, n2, m2),
        respond(bot, n1, m1, wins, amount) == respond(bot, n2, m2, wins, amount),
{
}


proof fn lemma_first_match(prefixes: Seq<Seq<char>>, word: Seq<char>)
    ensures
        (exists|i: int| 0 <= i < prefixes.len() && starts_with(word, #[trigger] prefixes[i]))
            ==> first_match(prefixes, word) is Some,
        first_match(prefixes, word) matches Some(j) ==> 0 <= j < prefixes.len()
            && starts_with(word, prefixes[j])
            && forall|k: int| 0 <= k < j ==> !starts_with(word, #[trigger] prefixes[k]),
        first_match(prefixes, word) is None ==> forall|k: int| 0 <= k < prefixes.len() ==> !starts_with(word, #[trigger] prefixes[k]),
    decreases prefixes.len(),
{
    if prefixes.len() > 0 {
        let rest = prefixes.drop_last();
        lemma_first_match(rest, word);
        assert forall|k: int| 0 <= k < rest.len() implies rest[k] == #[trigger] prefixes[k] by {}
        if exists|i: int| 0 <= i < prefixes.len() && starts_with(word, #[trigger] prefixes[i]) {
            let i = choose|i: int| 0 <= i < prefixes.len() && starts_with(word, #[trigger] prefixes[i]);
            if i < prefixes.len() - 1 {
                assert(rest[i] == prefixes[i]);
            }
        }
    }
}

/// A command that no command text answers, and whose first word begins with
/// the prefix of a registered handler, goes to a handler: the first one whose
/// prefix begins that word, or is refused by that handler's allow list. It is
/// never answered as an unknown command.
pub proof fn commands_reach_a_matching_handler(bot: Bot, name: Seq<char>, message: Seq<char>, i: int)
    requires
        starts_with(expanded(normalized(message)), "!"@),
        !table_of(bot.runtime.commands).1.contains_key(skip_leading(expanded(normalized(message)), '!')),
        0 <= i < bot.handlers.keys().len(),
        starts_with(first_word(skip_leading(expanded(normalized(message)), '!')), bot.handlers.keys()[i]),
    ensures
        route_of(bot, name, message) is Handle || route_of(bot, name, message) is Denied,
        route_of(bot, name, message) matches RouteView::Handle(j, n, m) ==> {
            &&& n == normalized(name)
            &&& m == skip_leading(expanded(normalized(message)), '!')
            &&& 0 <= j <= i
            &&& starts_with(first_word(m), bot.handlers.keys()[j])
            &&& forall|k: int| 0 <= k < j ==> !starts_with(first_word(m), #[trigger] bot.handlers.keys()[k])
        },
{
    let m = skip_leading(expanded(normalized(message)), '!');
    lemma_first_match(bot.handlers.keys(), first_word(m));
    let j = first_match(bot.handlers.keys(), first_word(m)).unwrap();
    if i < j {
        assert(!starts_with(first_word(m), bot.handlers.keys()[i]));
    }
}

/// A command that no command text answers, and whose first word begins with
/// no registered handler's prefix, is answered as an unknown command.
pub proof fn unknown_commands_are_refused(bot: Bot, name: Seq<char>, message: Seq<char>)
    requires
        starts_with(expanded(normalized(message)), "!"@),
        !table_of(bot.runtime.commands).1.contains_key(skip_leading(expanded(normalized(message)), '!')),
        forall|k: int| 0 <= k < bot.handlers.keys().len()
            ==> !starts_with(first_word(skip_leading(expanded(normalized(message)), '!')), #[trigger] bot.handlers.keys()[k]),
    ensures
        route_of(bot, name, message) == RouteView::Answer(no_hacking()),
{
    let m = skip_leading(expanded(normalized(message)), '!');
    lemma_first_match(bot.handlers.keys(), first_word(m));
}

} // verus!
