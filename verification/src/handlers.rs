//! What the bot's own commands answer and what they change.

use vstd::prelude::*;
use rand::Rng;
use crate::config::{Points, UserAccess};
use crate::names::NameMap;
use crate::runtime::{
    lemma_store_other, lemma_store_then_lookup, lookup, standing, store, Chatter, Data, Roster,
};
use crate::text::{
    count_char, decimal, decimal_text, join, joined, occurrences, parse_u64, parsed_u64, remove_char,
    split_on, split_spaces, texts, trim, trimmed, without_char,
};

verus! {

/// A user name as written in a command: trimmed, with every `@` removed.
pub open spec fn name_from(s: Seq<char>) -> Seq<char> {
    without_char(trimmed(s), '@')
}

/// The user name that a command argument gives.
pub fn get_name_from_string(s: &str) -> (r: String)
    ensures
        r@ == name_from(s@),
{
    let t = trim(s);
    remove_char(t.as_str(), '@')
}

/// `!hi`.
pub open spec fn hi_reply(name: Seq<char>) -> Seq<char> {
    "Hello, "@ + name + "!"@
}

/// `!lurk`.
pub open spec fn lurk_reply(name: Seq<char>) -> Seq<char> {
    "Have fun lurking @"@ + name + "! iamhar2Bob"@
}

/// `!unlurk`.
pub open spec fn unlurk_reply(name: Seq<char>) -> Seq<char> {
    "Welcome back from lurking @"@ + name + "! iamhar2Bob"@
}

/// `!mod`: answered for moderators and admins only.
pub open spec fn mod_reply(access: UserAccess, name: Seq<char>) -> Option<Seq<char>> {
    if access.is_mod || access.is_admin {
        Some("@"@ + name + " you are a mod!"@)
    } else {
        None
    }
}

/// The greeting of `!hi`.
pub fn hi(name: &str) -> (r: String)
    ensures
        r@ == hi_reply(name@),
{
    let mut r = "Hello, ".to_owned();
    r.append(name);
    r.append("!");
    r
}

/// The answer to `!lurk`.
pub fn lurk(name: &str) -> (r: String)
    ensures
        r@ == lurk_reply(name@),
{
    let mut r = "Have fun lurking @".to_owned();
    r.append(name);
    r.append("! iamhar2Bob");
    r
}

/// The answer to `!unlurk`.
pub fn unlurk(name: &str) -> (r: String)
    ensures
        r@ == unlurk_reply(name@),
{
    let mut r = "Welcome back from lurking @".to_owned();
    r.append(name);
    r.append("! iamhar2Bob");
    r
}

/// The answer to `!mod`.
pub fn moderator(access: UserAccess, name: &str) -> (r: Option<String>)
    ensures
        r.is_some() == mod_reply(access, name@).is_some(),
        r.is_some() ==> r.unwrap()@ == mod_reply(access, name@).unwrap(),
{
    if access.is_mod || access.is_admin {
        let mut r = "@".to_owned();
        r.append(name);
        r.append(" you are a mod!");
        Some(r)
    } else {
        None
    }
}

/// The most emotes `!hype` posts.
pub const HYPE_LIMIT: usize = 30;

/// `!hype`: the emote once for each `e` in the command, at most
/// `HYPE_LIMIT` times, separated by spaces.
pub open spec fn hype_reply(emote: Seq<char>, msg: Seq<char>) -> Seq<char> {
    let n = if occurrences(msg, 'e') < HYPE_LIMIT { occurrences(msg, 'e') } else { HYPE_LIMIT as nat };
    joined(Seq::new(n, |i: int| emote), " "@)
}

/// The answer to `!hype`.
pub fn hype(emote: &str, msg: &str) -> (r: String)
    ensures
        r@ == hype_reply(emote@, msg@),
{
    let count = count_char(msg, 'e');
    let n = if count < HYPE_LIMIT { count } else { HYPE_LIMIT };
    let mut emotes: Vec<String> = Vec::new();
    let mut i: usize = 0;
    while i < n
        invariant
            i <= n,
            texts(emotes@) == Seq::new(i as nat, |k: int| emote@),
        decreases n - i,
    {
        let e = emote.to_owned();
        let ghost before = emotes@;
        emotes.push(e);
        assert(emotes@ == before.push(e));
        assert(texts(emotes@) =~= texts(before).push(e@));
        i = i + 1;
        assert(texts(emotes@) =~= Seq::new(i as nat, |k: int| emote@));
    }
    join(&emotes, " ")
}

/// `!points`: the points of the user named after the command, or of the
/// caller when none is named; someone the bot has not seen has 0.
pub open spec fn points_reply(r: Roster, name: Seq<char>, rest: Seq<char>) -> Seq<char> {
    let target = name_from(rest);
    let who = if target.len() == 0 { name } else { target };
    "@"@ + who + " currently has "@ + decimal(standing(r, who).points as nat) + " points!"@
}

/// The answer to `!points`; `rest` is what follows the command's name.
pub fn points(data: &Data, name: &str, rest: &str) -> (r: String)
    ensures
        r@ == points_reply(data.roster(), name@, rest@),
{
    let target = get_name_from_string(rest);
    let who: &str = if target.as_str().is_empty() { name } else { target.as_str() };
    let p: u64 = match data.chatter(who) {
        Some(c) => c.points,
        None => 0,
    };
    let mut r = "@".to_owned();
    r.append(who);
    r.append(" currently has ");
    r.append(decimal_text(p).as_str());
    r.append(" points!");
    r
}

/// `!commands`: every command name, then every handler name, each with a
/// `!` in front, separated by ` | `.
pub open spec fn commands_reply(command_names: Seq<Seq<char>>, handler_names: Seq<Seq<char>>) -> Seq<char> {
    joined((command_names + handler_names).map_values(|n: Seq<char>| seq!['!'] + n), " | "@)
}

/// The answer to `!commands`.
pub fn list_commands(commands: &NameMap<String>, handler_names: &Vec<String>) -> (r: String)
    ensures
        r@ == commands_reply(commands.keys(), texts(handler_names@)),
{
    let all = commands.key_list();
    let ghost names = commands.keys() + texts(handler_names@);
    let mut out: Vec<String> = Vec::new();
    let mut i: usize = 0;
    while i < all.len()
        invariant
            texts(all@) == commands.keys(),
            names == commands.keys() + texts(handler_names@),
            i <= all@.len(),
            texts(out@) == names.take(i as int).map_values(|n: Seq<char>| seq!['!'] + n),
        decreases all@.len() - i,
    {
        let mut c = "!".to_owned();
        c.append(all[i].as_str());
        proof {
            reveal_strlit("!");
        }
        assert(c@ =~= seq!['!'] + names[i as int]);
        let ghost before = out@;
        out.push(c);
        assert(out@ == before.push(c));
        assert(texts(out@) =~= texts(before).push(c@));
        assert(names.take(i + 1) =~= names.take(i as int).push(names[i as int]));
        i = i + 1;
        assert(texts(out@) =~= names.take(i as int).map_values(|n: Seq<char>| seq!['!'] + n));
    }
    let mut j: usize = 0;
    while j < handler_names.len()
        invariant
            texts(all@) == commands.keys(),
            names == commands.keys() + texts(handler_names@),
            j <= handler_names@.len(),
            texts(out@) == names.take(all@.len() + j as int).map_values(|n: Seq<char>| seq!['!'] + n),
        decreases handler_names@.len() - j,
    {
        let mut c = "!".to_owned();
        c.append(handler_names[j].as_str());
        proof {
            reveal_strlit("!");
        }
        let ghost at = all@.len() + j;
        assert(names[at] == handler_names@[j as int]@);
        assert(c@ =~= seq!['!'] + names[at]);
        let ghost before = out@;
        out.push(c);
        assert(out@ == before.push(c));
        assert(texts(out@) =~= texts(before).push(c@));
        assert(names.take(at + 1) =~= names.take(at).push(names[at]));
        j = j + 1;
        assert(texts(out@) =~= names.take(all@.len() + j as int).map_values(|n: Seq<char>| seq!['!'] + n));
    }
    assert(names.take((all@.len() + handler_names@.len()) as int) =~= names);
    join(&out, " | ")
}


/// A chatter's standing with other points.
pub open spec fn with_points(c: Chatter, points: u64) -> Chatter {
    Chatter { points: points, remaining_ticks: c.remaining_ticks }
}

/// `!give <receiver> <amount>`: what the roster becomes and what the bot
/// answers. The caller must have the points and the receiver must be known.
pub open spec fn give_outcome(r: Roster, name: Seq<char>, msg: Seq<char>) -> (Roster, Seq<char>) {
    let parts = split_on(msg, ' ');
    if parts.len() == 3 {
        let receiver = name_from(parts[1]);
        match parsed_u64(parts[2]) {
            Some(amount) => match lookup(r, name) {
                None => (r, name + " You do not have any points to spend!"@),
                Some(sender) => if amount > sender.points {
                    (r, name + " you don't have enough points!"@)
                } else if lookup(r, receiver) is None {
                    (r, name + " The receiver "@ + receiver + " is not a registered chatter!"@)
                } else {
                    let r1 = store(r, name, with_points(sender, (sender.points - amount) as u64));
                    let recv = standing(r1, receiver);
                    (
                        store(r1, receiver, with_points(recv, (recv.points + amount) as u64)),
                        name + " sent "@ + decimal(amount as nat) + " points to "@ + receiver + "!"@,
                    )
                },
            },
            None => (r, name + " The amount you specified is not a number!"@),
        }
    } else {
        (r, name + " You need to specify a receiver and an amount! For example: !give iamhardbot 999"@)
    }
}

/// Whether a `!give` would credit the receiver past the largest `u64`.
pub open spec fn give_overflows(r: Roster, name: Seq<char>, msg: Seq<char>) -> bool {
    let parts = split_on(msg, ' ');
    parts.len() == 3 && {
        let receiver = name_from(parts[1]);
        match parsed_u64(parts[2]) {
            Some(amount) => match lookup(r, name) {
                Some(sender) => amount <= sender.points && lookup(r, receiver) is Some && {
                    let r1 = store(r, name, with_points(sender, (sender.points - amount) as u64));
                    standing(r1, receiver).points + amount > u64::MAX
                },
                None => false,
            },
            None => false,
        }
    }
}

/// Whether a `!give` would overflow the receiver's points.
pub fn give_would_overflow(data: &Data, name: &str, msg: &str) -> (r: bool)
    ensures
        r == give_overflows(data.roster(), name@, msg@),
{
    proof {
        use_type_invariant(&data.chatters);
        data.chatters.lemma_view();
    }
    let parts = split_spaces(msg);
    if parts.len() != 3 {
        return false;
    }
    let receiver = get_name_from_string(parts[1].as_str());
    match parse_u64(parts[2].as_str()) {
        Some(amount) => match data.chatter(name) {
            Some(sender) => {
                if amount > sender.points || data.chatter(receiver.as_str()).is_none() {
                    return false;
                }
                if crate::text::same_text(name, receiver.as_str()) {
                    proof {
                        lemma_store_then_lookup(data.roster(), name@, with_points(sender, (sender.points - amount) as u64));
                    }
                    false
                } else {
                    let recv = data.chatter(receiver.as_str()).unwrap();
                    proof {
                        lemma_store_other(data.roster(), name@, with_points(sender, (sender.points - amount) as u64), receiver@);
                    }
                    recv.points > u64::MAX - amount
                }
            },
            None => false,
        },
        None => false,
    }
}

/// `name` followed by `tail`.
fn after_name(name: &str, tail: &str) -> (r: String)
    ensures
        r@ == name@ + tail@,
{
    let mut r = name.to_owned();
    r.append(tail);
    r
}

/// Carries out `!give <receiver> <amount>` and gives the answer.
pub fn give(data: &mut Data, name: &str, msg: &str) -> (r: String)
    requires
        !give_overflows(old(data).roster(), name@, msg@),
    ensures
        (final(data).roster(), r@) == give_outcome(old(data).roster(), name@, msg@),
{
    proof {
        use_type_invariant(&data.chatters);
        data.chatters.lemma_view();
    }
    let parts = split_spaces(msg);
    if parts.len() != 3 {
        return after_name(name, " You need to specify a receiver and an amount! For example: !give iamhardbot 999");
    }
    let receiver = get_name_from_string(parts[1].as_str());
    let amount = match parse_u64(parts[2].as_str()) {
        Some(a) => a,
        None => {
            return after_name(name, " The amount you specified is not a number!");
        },
    };
    let sender = match data.chatter(name) {
        Some(c) => c,
        None => {
            return after_name(name, " You do not have any points to spend!");
        },
    };
    if amount > sender.points {
        return after_name(name, " you don't have enough points!");
    }
    if data.chatter(receiver.as_str()).is_none() {
        let mut r = after_name(name, " The receiver ");
        r.append(receiver.as_str());
        r.append(" is not a registered chatter!");
        return r;
    }
    let ghost r0 = data.roster();
    let lowered = Chatter { points: sender.points - amount, remaining_ticks: sender.remaining_ticks };
    data.store_chatter(name, lowered);
    proof {
        lemma_store_then_lookup(r0, name@, lowered);
        if name@ != receiver@ {
            lemma_store_other(r0, name@, lowered, receiver@);
        }
    }
    let recv = data.chatter(receiver.as_str()).unwrap();
    let raised = Chatter { points: recv.points + amount, remaining_ticks: recv.remaining_ticks };
    data.store_chatter(receiver.as_str(), raised);
    let mut r = after_name(name, " sent ");
    r.append(decimal_text(amount).as_str());
    r.append(" points to ");
    r.append(receiver.as_str());
    r.append("!");
    r
}

/// `!steal <victim>`: what the roster becomes and what the bot answers,
/// when the roll for success came out `wins` and the draw for the amount
/// came out `amount`. A successful theft takes the amount, or all the
/// victim has if that is less, and the thief's points become what was taken.
pub open spec fn steal_outcome(r: Roster, name: Seq<char>, msg: Seq<char>, wins: bool, amount: u64) -> (Roster, Seq<char>) {
    let parts = split_on(msg, ' ');
    if parts.len() == 2 {
        let other = name_from(parts[1]);
        match lookup(r, other) {
            None => (r, "@"@ + name + " can't steal from "@ + other + " because they have no points!"@),
            Some(victim) => if !wins {
                (r, "@"@ + name + " stealing is bad, mkayyy"@)
            } else {
                let taken = if victim.points >= amount { amount } else { victim.points };
                let r1 = store(r, other, with_points(victim, (victim.points - taken) as u64));
                (
                    store(r1, name, with_points(standing(r1, name), taken)),
                    "@"@ + name + " stole "@ + decimal(taken as nat) + " points from "@ + other + "!"@,
                )
            },
        }
    } else {
        (r, name + " You need to specify a person you want to steal from! For example: !steal iamhardbot"@)
    }
}

/// Calls `rand::Rng::gen_range` with the range `min..=max` on the thread's
/// generator from `rand::thread_rng`. The contract states only that the value
/// lies in the range: which one comes is chance. The call panics on an empty
/// range, which `requires` leaves out.
#[verifier::external_body]
fn random_between(min: u64, max: u64) -> (r: u64)
    requires
        min <= max,
    ensures
        min <= r <= max,
{
    rand::thread_rng().gen_range(min..=max)
}

/// Carries out `!steal <victim>` with the given outcome of the roll and of
/// the draw for the amount, and gives the answer.
pub fn steal_with(data: &mut Data, name: &str, msg: &str, wins: bool, amount: u64) -> (r: String)
    ensures
        (final(data).roster(), r@) == steal_outcome(old(data).roster(), name@, msg@, wins, amount),
{
    proof {
        use_type_invariant(&data.chatters);
        data.chatters.lemma_view();
    }
    let parts = split_spaces(msg);
    if parts.len() != 2 {
        return after_name(name, " You need to specify a person you want to steal from! For example: !steal iamhardbot");
    }
    let other = get_name_from_string(parts[1].as_str());
    let victim = match data.chatter(other.as_str()) {
        Some(c) => c,
        None => {
            let mut r = "@".to_owned();
            r.append(name);
            r.append(" can't steal from ");
            r.append(other.as_str());
            r.append(" because they have no points!");
            return r;
        },
    };
    if !wins {
        let mut r = "@".to_owned();
        r.append(name);
        r.append(" stealing is bad, mkayyy");
        return r;
    }
    let taken = if victim.points >= amount { amount } else { victim.points };
    let ghost r0 = data.roster();
    let lowered = Chatter { points: victim.points - taken, remaining_ticks: victim.remaining_ticks };
    data.store_chatter(other.as_str(), lowered);
    proof {
        lemma_store_then_lookup(r0, other@, lowered);
    }
    let thief = match data.chatter(name) {
        Some(c) => c,
        None => Chatter { points: 0, remaining_ticks: 0 },
    };
    data.store_chatter(name, Chatter { points: taken, remaining_ticks: thief.remaining_ticks });
    let mut r = "@".to_owned();
    r.append(name);
    r.append(" stole ");
    r.append(decimal_text(taken).as_str());
    r.append(" points from ");
    r.append(other.as_str());
    r.append("!");
    r
}

/// Whether a `!steal` draws an amount: it names one victim whom the bot
/// knows, and the roll succeeded.
pub open spec fn steal_draws(r: Roster, msg: Seq<char>, wins: bool) -> bool {
    let parts = split_on(msg, ' ');
    parts.len() == 2 && wins && lookup(r, name_from(parts[1])) is Some
}

/// Whether `amount` is a possible draw: within the configured bounds
/// whenever a draw is made.
pub open spec fn drawable(points: Points, draws: bool, amount: u64) -> bool {
    draws ==> points.steal_min <= amount <= points.steal_max
}

/// Whether a `!steal` would draw from an empty range of amounts.
pub fn steal_would_draw(data: &Data, msg: &str, wins: bool) -> (r: bool)
    ensures
        r == steal_draws(data.roster(), msg@, wins),
{
    let parts = split_spaces(msg);
    if parts.len() == 2 && wins {
        let other = get_name_from_string(parts[1].as_str());
        data.chatter(other.as_str()).is_some()
    } else {
        false
    }
}

/// Carries out `!steal <victim>`: `wins` is the outcome of the roll for
/// success; the amount is drawn at random between the configured least and
/// most, and only when a theft succeeds.
pub fn steal(points: &Points, data: &mut Data, name: &str, msg: &str, wins: bool) -> (r: String)
    requires
        steal_draws(old(data).roster(), msg@, wins) ==> points.steal_min <= points.steal_max,
    ensures
        exists|amount: u64| drawable(*points, steal_draws(old(data).roster(), msg@, wins), amount)
            && (final(data).roster(), r@) == steal_outcome(old(data).roster(), name@, msg@, wins, amount),
{
    let amount = if steal_would_draw(data, msg, wins) {
        random_between(points.steal_min, points.steal_max)
    } else {
        points.steal_min
    };
    steal_with(data, name, msg, wins, amount)
}

/// How many chatters `!top` lists at most.
pub const TOP_COUNT: usize = 5;

/// Whether the chatter at `i` ranks above the one at `j`: more points, or as
/// many points and seen later.
pub open spec fn outranks(r: Roster, i: int, j: int) -> bool {
    r.1[i].points > r.1[j].points || (r.1[i].points == r.1[j].points && i > j)
}

/// Whether the leaderboard leaves `k` out.
pub open spec fn ignored(access: Map<Seq<char>, UserAccess>, k: Seq<char>) -> bool {
    access.contains_key(k) && access[k].is_ignored
}

/// Whether the chatter at `i` may still be listed after those in `taken`.
pub open spec fn eligible(r: Roster, access: Map<Seq<char>, UserAccess>, taken: Seq<int>, i: int) -> bool {
    0 <= i < r.0.len() && !ignored(access, r.0[i]) && !taken.contains(i)
}

/// Whether the chatter at `i` ranks above every other one that may still be listed.
pub open spec fn is_best(r: Roster, access: Map<Seq<char>, UserAccess>, taken: Seq<int>, i: int) -> bool {
    eligible(r, access, taken, i)
        && forall|j: int| #[trigger] eligible(r, access, taken, j) && j != i ==> outranks(r, i, j)
}

/// `taken` followed by up to `k` more chatters, each the best of those left.
pub open spec fn leaders_from(r: Roster, access: Map<Seq<char>, UserAccess>, taken: Seq<int>, k: nat) -> Seq<int>
    decreases k,
{
    if k == 0 || !(exists|i: int| #[trigger] eligible(r, access, taken, i)) {
        taken
    } else {
        leaders_from(r, access, taken.push(choose|i: int| is_best(r, access, taken, i)), (k - 1) as nat)
    }
}

/// The positions of the chatters on the leaderboard, best first.
pub open spec fn leaders(r: Roster, access: Map<Seq<char>, UserAccess>) -> Seq<int> {
    leaders_from(r, access, Seq::empty(), TOP_COUNT as nat)
}

/// The leaderboard's lines: rank, a dot, and the name.
pub open spec fn leader_lines(r: Roster, ids: Seq<int>) -> Seq<Seq<char>> {
    Seq::new(ids.len(), |k: int| decimal((k + 1) as nat) + ". "@ + r.0[ids[k]])
}

/// `!top`: the best chatters by points that the leaderboard does not leave out.
pub open spec fn top_reply(r: Roster, access: Map<Seq<char>, UserAccess>, name: Seq<char>) -> Seq<char> {
    "Top 5, requested by @"@ + name + ": "@ + joined(leader_lines(r, leaders(r, access)), " | "@)
}

proof fn lemma_best_is_chosen(r: Roster, access: Map<Seq<char>, UserAccess>, taken: Seq<int>, b: int)
    requires
        is_best(r, access, taken, b),
    ensures
        (choose|i: int| is_best(r, access, taken, i)) == b,
{
    let c = choose|i: int| is_best(r, access, taken, i);
    assert(is_best(r, access, taken, c));
    if c != b {
        assert(eligible(r, access, taken, c));
        assert(eligible(r, access, taken, b));
        assert(outranks(r, b, c));
        assert(outranks(r, c, b));
    }
}

/// Whether the leaderboard leaves the user out.
fn is_ignored(access: &NameMap<UserAccess>, name: &str) -> (r: bool)
    ensures
        r == ignored(access@, name@),
{
    match access.get(name) {
        Some(a) => a.is_ignored,
        None => false,
    }
}

/// Whether the list holds `x`.
fn holds(v: &Vec<usize>, x: usize) -> (r: bool)
    ensures
        r == v@.contains(x),
{
    let mut i: usize = 0;
    while i < v.len()
        invariant
            i <= v@.len(),
            forall|k: int| 0 <= k < i ==> v@[k] != x,
        decreases v@.len() - i,
    {
        if v[i] == x {
            return true;
        }
        i = i + 1;
    }
    false
}

/// The positions in `v`, as integers.
pub open spec fn as_ints(v: Seq<usize>) -> Seq<int> {
    v.map_values(|x: usize| x as int)
}

/// The best chatter that may still be listed after those in `chosen`.
fn best_left(data: &Data, access: &NameMap<UserAccess>, chosen: &Vec<usize>) -> (b: Option<usize>)
    ensures
        match b {
            Some(i) => is_best(data.roster(), access@, as_ints(chosen@), i as int),
            None => !(exists|i: int| #[trigger] eligible(data.roster(), access@, as_ints(chosen@), i)),
        },
{
    let ghost r = data.roster();
    let ghost taken = as_ints(chosen@);
    let n = data.chatters.len();
    let mut best: Option<usize> = None;
    let mut i: usize = 0;
    while i < n
        invariant
            r == data.roster(),
            taken == as_ints(chosen@),
            n == r.0.len() == r.1.len(),
            i <= n,
            match best {
                Some(b) => b < i && eligible(r, access@, taken, b as int)
                    && forall|j: int| 0 <= j < i && #[trigger] eligible(r, access@, taken, j) && j != b ==> outranks(r, b as int, j),
                None => forall|j: int| 0 <= j < i ==> !#[trigger] eligible(r, access@, taken, j),
            },
        decreases n - i,
    {
        let name = data.chatters.key_at(i);
        let skip = is_ignored(access, name.as_str()) || holds(chosen, i);
        assert(taken.contains(i as int) <==> chosen@.contains(i)) by {
            if chosen@.contains(i) {
                let k = choose|k: int| 0 <= k < chosen@.len() && chosen@[k] == i;
                assert(taken[k] == i as int);
            }
            if taken.contains(i as int) {
                let k = choose|k: int| 0 <= k < taken.len() && taken[k] == i as int;
                assert(chosen@[k] == i);
            }
        }
        if !skip {
            match best {
                None => {
                    best = Some(i);
                },
                Some(b) => {
                    let pb = data.chatters.value_at(b).points;
                    let pi = data.chatters.value_at(i).points;
                    if pi >= pb {
                        best = Some(i);
                    }
                },
            }
        }
        i = i + 1;
    }
    best
}

/// The answer to `!top`.
pub fn top(data: &Data, access: &NameMap<UserAccess>, name: &str) -> (r: String)
    ensures
        r@ == top_reply(data.roster(), access@, name@),
{
    let ghost r0 = data.roster();
    let mut chosen: Vec<usize> = Vec::new();
    let mut t: usize = 0;
    assert(as_ints(chosen@) =~= Seq::<int>::empty());
    while t < TOP_COUNT
        invariant
            r0 == data.roster(),
            t <= TOP_COUNT,
            chosen@.len() == t,
            leaders(r0, access@) == leaders_from(r0, access@, as_ints(chosen@), (TOP_COUNT - t) as nat),
            forall|k: int| 0 <= k < chosen@.len() ==> #[trigger] chosen@[k] < r0.0.len(),
        ensures
            leaders(r0, access@) == as_ints(chosen@),
            forall|k: int| 0 <= k < chosen@.len() ==> #[trigger] chosen@[k] < r0.0.len(),
        decreases TOP_COUNT - t,
    {
        match best_left(data, access, &chosen) {
            None => {
                break;
            },
            Some(b) => {
                proof {
                    lemma_best_is_chosen(r0, access@, as_ints(chosen@), b as int);
                }
                let ghost before = chosen@;
                chosen.push(b);
                assert(as_ints(chosen@) =~= as_ints(before).push(b as int));
                t = t + 1;
            },
        }
    }
    let ghost ids = as_ints(chosen@);
    let mut lines: Vec<String> = Vec::new();
    let mut k: usize = 0;
    while k < chosen.len()
        invariant
            r0 == data.roster(),
            ids == as_ints(chosen@),
            chosen@.len() <= TOP_COUNT,
            forall|m: int| 0 <= m < chosen@.len() ==> #[trigger] chosen@[m] < r0.0.len(),
            k <= chosen@.len(),
            texts(lines@) == leader_lines(r0, ids).take(k as int),
        decreases chosen@.len() - k,
    {
        let mut line = decimal_text((k + 1) as u64);
        line.append(". ");
        line.append(data.chatters.key_at(chosen[k]).as_str());
        assert(ids[k as int] == chosen@[k as int] as int);
        assert(line@ == leader_lines(r0, ids)[k as int]);
        let ghost before = lines@;
        lines.push(line);
        assert(lines@ == before.push(line));
        assert(texts(lines@) =~= texts(before).push(line@));
        assert(leader_lines(r0, ids).take(k + 1) =~= leader_lines(r0, ids).take(k as int).push(leader_lines(r0, ids)[k as int]));
        k = k + 1;
    }
    assert(leader_lines(r0, ids).take(chosen@.len() as int) =~= leader_lines(r0, ids));
    let mut r = "Top 5, requested by @".to_owned();
    r.append(name);
    r.append(": ");
    r.append(join(&lines, " | ").as_str());
    r
}


} // verus!
