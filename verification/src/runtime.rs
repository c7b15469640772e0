//! The bot's state: its configuration, its command table and the chatters.

use vstd::prelude::*;
use crate::config::{Config, StringOrCommand};
use crate::names::NameMap;
use crate::text::{replace_all, replaced, texts};

verus! {

/// A chatter's standing.
#[derive(Clone, Copy, Debug, PartialEq, Eq, Structural)]
pub struct Chatter {
    pub points: u64,
    /// Ticks for which the chatter still earns points.
    pub remaining_ticks: i64,
}

impl Default for Chatter {
    fn default() -> (r: Self)
        ensures
            r.points == 0 && r.remaining_ticks == 0,
    {
        Chatter { points: 0, remaining_ticks: 0 }
    }
}

/// What the bot keeps between runs: every chatter it has seen.
pub struct Data {
    pub chatters: NameMap<Chatter>,
}

impl Default for Data {
    fn default() -> (r: Self)
        ensures
            r.chatters@ == Map::<Seq<char>, Chatter>::empty(),
            r.chatters.keys() == Seq::<Seq<char>>::empty(),
    {
        Data { chatters: NameMap::new() }
    }
}

/// The chatters in the order they were first seen, and their standings.
pub type Roster = (Seq<Seq<char>>, Seq<Chatter>);

/// The standing of `k`, if the roster has it.
pub open spec fn lookup(r: Roster, k: Seq<char>) -> Option<Chatter> {
    if r.0.contains(k) {
        Some(r.1[r.0.index_of(k)])
    } else {
        None
    }
}

/// The standing of `k`, or a fresh standing if the roster lacks it.
pub open spec fn standing(r: Roster, k: Seq<char>) -> Chatter {
    match lookup(r, k) {
        Some(c) => c,
        None => Chatter { points: 0, remaining_ticks: 0 },
    }
}

/// The roster with `k` standing at `c`; a new chatter goes to the end.
pub open spec fn store(r: Roster, k: Seq<char>, c: Chatter) -> Roster {
    if r.0.contains(k) {
        (r.0, r.1.update(r.0.index_of(k), c))
    } else {
        (r.0.push(k), r.1.push(c))
    }
}

/// Storing a standing and looking it up again gives it back.
pub proof fn lemma_store_then_lookup(r: Roster, k: Seq<char>, c: Chatter)
    requires
        r.0.no_duplicates(),
        r.0.len() == r.1.len(),
    ensures
        lookup(store(r, k, c), k) == Some(c),
        store(r, k, c).0.no_duplicates(),
        store(r, k, c).0.len() == store(r, k, c).1.len(),
{
    let s = store(r, k, c);
    if r.0.contains(k) {
        let i = r.0.index_of(k);
        assert(s.0.contains(k));
        assert(s.0.index_of(k) == i) by {
            let j = s.0.index_of(k);
            assert(s.0[j] == k);
        }
    } else {
        assert(s.0[r.0.len() as int] == k);
        assert(s.0.contains(k));
        assert(s.0.index_of(k) == r.0.len()) by {
            let j = s.0.index_of(k);
            assert(s.0[j] == k);
            if j < r.0.len() {
                assert(r.0[j] == k);
            }
        }
    }
}

/// Storing a standing leaves every other chatter as they were.
pub proof fn lemma_store_other(r: Roster, k: Seq<char>, c: Chatter, other: Seq<char>)
    requires
        r.0.no_duplicates(),
        r.0.len() == r.1.len(),
        other != k,
    ensures
        lookup(store(r, k, c), other) == lookup(r, other),
{
    let s = store(r, k, c);
    if r.0.contains(other) {
        let i = r.0.index_of(other);
        assert(s.0[i] == other);
        assert(s.0.contains(other));
        assert(s.0.index_of(other) == i) by {
            let j = s.0.index_of(other);
            assert(s.0[j] == other);
            if j < r.0.len() {
                assert(r.0[j] == other);
            }
        }
    } else {
        if s.0.contains(other) {
            let j = s.0.index_of(other);
            assert(s.0[j] == other);
            if j < r.0.len() {
                assert(r.0[j] == other);
            }
        }
    }
}


impl Data {
    /// The chatters and their standings, in order.
    pub open spec fn roster(&self) -> Roster {
        (self.chatters.keys(), self.chatters.values())
    }

    /// The standing of a chatter, if the bot has seen them.
    pub fn chatter(&self, name: &str) -> (r: Option<Chatter>)
        ensures
            r == lookup(self.roster(), name@),
    {
        proof {
            use_type_invariant(&self.chatters);
            self.chatters.lemma_view();
        }
        match self.chatters.position(name) {
            Some(i) => {
                let ghost keys = self.chatters.keys();
                assert(keys.contains(name@));
                assert(keys.index_of(name@) == i) by {
                    let j = keys.index_of(name@);
                    assert(keys[j] == name@);
                }
                Some(*self.chatters.value_at(i))
            },
            None => None,
        }
    }

    /// Sets the standing of a chatter, adding them if they are new.
    pub fn store_chatter(&mut self, name: &str, c: Chatter)
        ensures
            final(self).roster() == store(old(self).roster(), name@, c),
    {
        proof {
            use_type_invariant(&self.chatters);
            self.chatters.lemma_view();
        }
        self.chatters.insert(name.to_owned(), c);
    }
}

/// The configuration, the command table made from it, and the chatters.
pub struct Runtime {
    pub config: Config,
    /// Command names and the texts they answer with.
    pub commands: NameMap<String>,
    pub data: Data,
}

/// `t` with each variable `$name` replaced by its value, the variables taken
/// in order.
pub open spec fn substituted(t: Seq<char>, names: Seq<Seq<char>>, values: Seq<Seq<char>>) -> Seq<char>
    decreases names.len(),
{
    if names.len() == 0 {
        t
    } else {
        replaced(
            substituted(t, names.drop_last(), values.drop_last()),
            seq!['$'] + names.last(),
            values.last(),
        )
    }
}

/// A command table: its names in order, and what each answers.
pub type Table = (Seq<Seq<char>>, Map<Seq<char>, Seq<char>>);

/// A table held in a map from names to texts.
pub open spec fn table_of(m: NameMap<String>) -> Table {
    (m.keys(), m@.map_values(|s: String| s@))
}

/// The table with `k` answering `v`; a new name goes to the end.
pub open spec fn put(t: Table, k: Seq<char>, v: Seq<char>) -> Table {
    (if t.1.contains_key(k) { t.0 } else { t.0.push(k) }, t.1.insert(k, v))
}

/// The table with each alias answering `v`, unless the alias is taken.
pub open spec fn put_aliases(t: Table, aliases: Seq<Seq<char>>, v: Seq<char>) -> Table
    decreases aliases.len(),
{
    if aliases.len() == 0 {
        t
    } else {
        let before = put_aliases(t, aliases.drop_last(), v);
        if before.1.contains_key(aliases.last()) {
            before
        } else {
            put(before, aliases.last(), v)
        }
    }
}

/// The aliases of a configured command.
pub open spec fn aliases_of(e: StringOrCommand) -> Seq<Seq<char>> {
    match e {
        StringOrCommand::Text(_) => Seq::empty(),
        StringOrCommand::Cmd(c) => texts(c.aliases@),
    }
}

/// The table made from the first `names.len()` configured commands.
pub open spec fn command_table(
    names: Seq<Seq<char>>,
    entries: Seq<StringOrCommand>,
    var_names: Seq<Seq<char>>,
    var_values: Seq<Seq<char>>,
) -> Table
    decreases names.len(),
{
    if names.len() == 0 || entries.len() == 0 {
        (Seq::empty(), Map::empty())
    } else {
        let before = command_table(names.drop_last(), entries.drop_last(), var_names, var_values);
        let text = substituted(entries.last().text(), var_names, var_values);
        put_aliases(put(before, names.last(), text), aliases_of(entries.last()), text)
    }
}

/// The command table of a configuration: each command's text with the
/// variables put in, under its name and under those of its aliases that no
/// command before it has taken.
pub open spec fn commands_of(config: Config) -> Table {
    command_table(
        config.commands.keys(),
        config.commands.values(),
        config.variables.keys(),
        texts(config.variables.values()),
    )
}

/// The text with the variables put in.
pub fn substitute(t: &str, variables: &NameMap<String>) -> (r: String)
    ensures
        r@ == substituted(t@, variables.keys(), texts(variables.values())),
{
    let mut r = t.to_owned();
    let mut i: usize = 0;
    let n = variables.len();
    while i < n
        invariant
            n == variables.keys().len() == variables.values().len(),
            i <= n,
            r@ == substituted(t@, variables.keys().take(i as int), texts(variables.values()).take(i as int)),
        decreases n - i,
    {
        let mut pattern = "$".to_owned();
        pattern.append(variables.key_at(i).as_str());
        proof {
            reveal_strlit("$");
        }
        assert(pattern@ =~= seq!['$'] + variables.keys()[i as int]);
        assert(variables.keys().take(i + 1).drop_last() =~= variables.keys().take(i as int));
        assert(texts(variables.values()).take(i + 1).drop_last() =~= texts(variables.values()).take(i as int));
        r = replace_all(r.as_str(), pattern.as_str(), variables.value_at(i).as_str());
        i = i + 1;
    }
    assert(variables.keys().take(n as int) =~= variables.keys());
    assert(texts(variables.values()).take(n as int) =~= texts(variables.values()));
    r
}


/// Puts `text` under `name` in the table.
fn put_command(commands: &mut NameMap<String>, name: &String, text: &String)
    ensures
        table_of(*final(commands)) == put(table_of(*old(commands)), name@, text@),
{
    proof {
        use_type_invariant(&*commands);
        commands.lemma_view();
    }
    let ghost before = commands@;
    let v = text.clone();
    commands.insert(name.clone(), v);
    assert(commands@.map_values(|s: String| s@) =~= before.map_values(|s: String| s@).insert(name@, text@));
}

/// The command table of a configuration.
fn build_commands(config: &Config) -> (commands: NameMap<String>)
    ensures
        table_of(commands) == commands_of(*config),
{
    let mut commands: NameMap<String> = NameMap::new();
    let n = config.commands.len();
    let ghost names = config.commands.keys();
    let ghost entries = config.commands.values();
    let ghost var_names = config.variables.keys();
    let ghost var_values = texts(config.variables.values());
    let mut i: usize = 0;
    assert(names.take(0).len() == 0);
    assert(table_of(commands) =~= command_table(names.take(0), entries.take(0), var_names, var_values));
    while i < n
        invariant
            n == names.len() == entries.len(),
            names == config.commands.keys(),
            entries == config.commands.values(),
            var_names == config.variables.keys(),
            var_values == texts(config.variables.values()),
            i <= n,
            table_of(commands) == command_table(names.take(i as int), entries.take(i as int), var_names, var_values),
        decreases n - i,
    {
        let entry = config.commands.value_at(i);
        let text = substitute(entry.to_string().as_str(), &config.variables);
        assert(names.take(i + 1).drop_last() =~= names.take(i as int));
        assert(entries.take(i + 1).drop_last() =~= entries.take(i as int));
        let ghost before = table_of(commands);
        put_command(&mut commands, config.commands.key_at(i), &text);
        let ghost start = table_of(commands);
        match entry {
            StringOrCommand::Text(_) => {
                assert(aliases_of(*entry) =~= Seq::<Seq<char>>::empty());
            },
            StringOrCommand::Cmd(c) => {
                let ghost aliases = texts(c.aliases@);
                let mut j: usize = 0;
                assert(aliases.take(0) =~= Seq::<Seq<char>>::empty());
                while j < c.aliases.len()
                    invariant
                        aliases == texts(c.aliases@),
                        j <= c.aliases@.len(),
                        table_of(commands) == put_aliases(start, aliases.take(j as int), text@),
                    decreases c.aliases@.len() - j,
                {
                    assert(aliases.take(j + 1).drop_last() =~= aliases.take(j as int));
                    proof {
                        use_type_invariant(&commands);
                    }
                    if !commands.contains_key(c.aliases[j].as_str()) {
                        put_command(&mut commands, &c.aliases[j], &text);
                    }
                    j = j + 1;
                }
                assert(aliases.take(c.aliases@.len() as int) =~= aliases);
            },
        }
        i = i + 1;
    }
    assert(names.take(n as int) =~= names);
    assert(entries.take(n as int) =~= entries);
    commands
}

impl Runtime {
    /// The runtime for a configuration and the chatters known so far: the
    /// command table is made from the configuration.
    pub fn from_config(config: Config, data: Data) -> (rt: Runtime)
        ensures
            rt.config == config,
            rt.data == data,
            table_of(rt.commands) == commands_of(config),
    {
        let commands = build_commands(&config);
        Runtime { config, commands, data }
    }
}


/// A chatter after one tick: one with ticks left earns `per_tick` points and
/// uses up a tick.
pub open spec fn ticked(c: Chatter, per_tick: u64) -> Chatter {
    if c.remaining_ticks > 0 {
        Chatter { points: (c.points + per_tick) as u64, remaining_ticks: (c.remaining_ticks - 1) as i64 }
    } else {
        c
    }
}

/// Whether a tick leaves every earning chatter's points within `u64`.
pub open spec fn tick_fits(chatters: Seq<Chatter>, per_tick: u64) -> bool {
    forall|i: int| 0 <= i < chatters.len() && #[trigger] chatters[i].remaining_ticks > 0
        ==> chatters[i].points + per_tick <= u64::MAX
}

/// Whether a tick can be given without a chatter's points overflowing.
pub fn tick_fits_in(rt: &Runtime) -> (r: bool)
    ensures
        r == tick_fits(rt.data.chatters.values(), rt.config.points.points_per_tick),
{
    let per_tick = rt.config.points.points_per_tick;
    let n = rt.data.chatters.len();
    let mut i: usize = 0;
    while i < n
        invariant
            n == rt.data.chatters.values().len(),
            per_tick == rt.config.points.points_per_tick,
            i <= n,
            forall|k: int| 0 <= k < i && #[trigger] rt.data.chatters.values()[k].remaining_ticks > 0
                ==> rt.data.chatters.values()[k].points + per_tick <= u64::MAX,
        decreases n - i,
    {
        let c = rt.data.chatters.value_at(i);
        if c.remaining_ticks > 0 && c.points > u64::MAX - per_tick {
            return false;
        }
        i = i + 1;
    }
    true
}

/// One tick: every chatter with ticks left earns the configured points per
/// tick and uses up one tick.
pub fn give_points(rt: &mut Runtime)
    requires
        tick_fits(old(rt).data.chatters.values(), old(rt).config.points.points_per_tick),
    ensures
        final(rt).config == old(rt).config,
        final(rt).commands == old(rt).commands,
        final(rt).data.chatters.keys() == old(rt).data.chatters.keys(),
        final(rt).data.chatters.values() == old(rt).data.chatters.values().map_values(
            |c: Chatter| ticked(c, old(rt).config.points.points_per_tick),
        ),
{
    let per_tick = rt.config.points.points_per_tick;
    let n = rt.data.chatters.len();
    let ghost start = rt.data.chatters.values();
    let ghost keys = rt.data.chatters.keys();
    let mut i: usize = 0;
    while i < n
        invariant
            n == start.len(),
            per_tick == rt.config.points.points_per_tick,
            tick_fits(start, per_tick),
            rt.config == old(rt).config,
            rt.commands == old(rt).commands,
            i <= n,
            rt.data.chatters.keys() == keys,
            rt.data.chatters.values().len() == n,
            forall|k: int| 0 <= k < i ==> rt.data.chatters.values()[k] == ticked(#[trigger] start[k], per_tick),
            forall|k: int| i <= k < n ==> rt.data.chatters.values()[k] == #[trigger] start[k],
        decreases n - i,
    {
        let c = *rt.data.chatters.value_at(i);
        assert(c == start[i as int]);
        if c.remaining_ticks > 0 {
            let next = Chatter { points: c.points + per_tick, remaining_ticks: c.remaining_ticks - 1 };
            rt.data.chatters.set_value(i, next);
        }
        i = i + 1;
    }
    assert(rt.data.chatters.values() =~= start.map_values(|c: Chatter| ticked(c, per_tick)));
}


/// A chatter after `j` ticks in a row.
pub open spec fn ticked_times(c: Chatter, per_tick: u64, j: nat) -> Chatter
    decreases j,
{
    if j == 0 {
        c
    } else {
        ticked(ticked_times(c, per_tick, (j - 1) as nat), per_tick)
    }
}

/// How many of `j` ticks in a row a chatter earns from: as many as it has
/// ticks left, at most `j`.
pub open spec fn earning_ticks(c: Chatter, j: nat) -> nat {
    if c.remaining_ticks <= 0 {
        0
    } else if j < c.remaining_ticks {
        j
    } else {
        c.remaining_ticks as nat
    }
}

/// Whether `j` ticks in a row leave every chatter's points within `u64`.
pub open spec fn ticks_fit(chatters: Seq<Chatter>, per_tick: u64, j: nat) -> bool {
    forall|i: int| 0 <= i < chatters.len()
        ==> #[trigger] chatters[i].points + per_tick * earning_ticks(chatters[i], j) <= u64::MAX
}

proof fn lemma_earning_grows(c: Chatter, j: nat, k: nat, per_tick: u64)
    requires
        j <= k,
    ensures
        earning_ticks(c, j) <= earning_ticks(c, k),
        per_tick * earning_ticks(c, j) <= per_tick * earning_ticks(c, k),
{
    let a = earning_ticks(c, j);
    let b = earning_ticks(c, k);
    assert(per_tick * a <= per_tick * b) by (nonlinear_arith)
        requires
            a <= b,
    ;
}

/// `j` ticks in a row: a chatter with `r` ticks left earns the points of
/// `min(j, r)` ticks and uses those ticks up; one without ticks is unchanged.
pub proof fn ticks_in_a_row_pay_remaining_ticks(c: Chatter, per_tick: u64, j: nat)
    requires
        c.points + per_tick * earning_ticks(c, j) <= u64::MAX,
    ensures
        ticked_times(c, per_tick, j).points == c.points + per_tick * earning_ticks(c, j),
        ticked_times(c, per_tick, j).remaining_ticks
            == (if c.remaining_ticks > 0 { c.remaining_ticks - earning_ticks(c, j) } else { c.remaining_ticks as int }),
    decreases j,
{
    if j == 0 {
        assert(earning_ticks(c, j) == 0);
        assert(per_tick * 0 == 0) by (nonlinear_arith);
    } else {
        let e0 = earning_ticks(c, (j - 1) as nat);
        let e1 = earning_ticks(c, j);
        lemma_earning_grows(c, (j - 1) as nat, j, per_tick);
        ticks_in_a_row_pay_remaining_ticks(c, per_tick, (j - 1) as nat);
        let prev = ticked_times(c, per_tick, (j - 1) as nat);
        assert(ticked_times(c, per_tick, j) == ticked(prev, per_tick));
        if c.remaining_ticks > 0 && j - 1 < c.remaining_ticks {
            assert(e0 == j - 1);
            assert(e1 == e0 + 1);
            assert(prev.remaining_ticks > 0);
            assert(per_tick * e1 == per_tick * e0 + per_tick) by (nonlinear_arith)
                requires
                    e1 == e0 + 1,
            ;
        } else {
            assert(e1 == e0);
            assert(prev.remaining_ticks <= 0);
        }
    }
}

/// Whether `times` ticks in a row can be given without a chatter's points
/// overflowing.
pub fn ticks_fit_in(rt: &Runtime, times: u64) -> (r: bool)
    ensures
        r == ticks_fit(rt.data.chatters.values(), rt.config.points.points_per_tick, times as nat),
{
    let per_tick = rt.config.points.points_per_tick;
    let n = rt.data.chatters.len();
    let mut i: usize = 0;
    while i < n
        invariant
            n == rt.data.chatters.values().len(),
            per_tick == rt.config.points.points_per_tick,
            i <= n,
            forall|k: int| 0 <= k < i ==> #[trigger] rt.data.chatters.values()[k].points
                + per_tick * earning_ticks(rt.data.chatters.values()[k], times as nat) <= u64::MAX,
        decreases n - i,
    {
        let c = *rt.data.chatters.value_at(i);
        let e: u64 = if c.remaining_ticks <= 0 {
            0
        } else if (times as i128) < (c.remaining_ticks as i128) {
            times
        } else {
            c.remaining_ticks as u64
        };
        assert(e == earning_ticks(c, times as nat));
        let pt = per_tick as u128;
        let eu = e as u128;
        assert(pt * eu <= 0xffff_ffff_ffff_ffffu128 * 0xffff_ffff_ffff_ffffu128) by (nonlinear_arith)
            requires
                pt <= 0xffff_ffff_ffff_ffffu128,
                eu <= 0xffff_ffff_ffff_ffffu128,
        ;
        let total = (c.points as u128) + pt * eu;
        if total > (u64::MAX as u128) {
            return false;
        }
        i = i + 1;
    }
    true
}

/// `times` ticks in a row.
pub fn give_points_times(rt: &mut Runtime, times: u64)
    requires
        ticks_fit(old(rt).data.chatters.values(), old(rt).config.points.points_per_tick, times as nat),
    ensures
        final(rt).config == old(rt).config,
        final(rt).commands == old(rt).commands,
        final(rt).data.chatters.keys() == old(rt).data.chatters.keys(),
        final(rt).data.chatters.values() == old(rt).data.chatters.values().map_values(
            |c: Chatter| ticked_times(c, old(rt).config.points.points_per_tick, times as nat),
        ),
{
    let ghost start = rt.data.chatters.values();
    let ghost per_tick = rt.config.points.points_per_tick;
    let mut k: u64 = 0;
    assert(start.map_values(|c: Chatter| ticked_times(c, per_tick, 0)) =~= start);
    while k < times
        invariant
            k <= times,
            per_tick == rt.config.points.points_per_tick,
            ticks_fit(start, per_tick, times as nat),
            rt.config == old(rt).config,
            rt.commands == old(rt).commands,
            rt.data.chatters.keys() == old(rt).data.chatters.keys(),
            start == old(rt).data.chatters.values(),
            rt.data.chatters.values() == start.map_values(|c: Chatter| ticked_times(c, per_tick, k as nat)),
        decreases times - k,
    {
        let ghost now = rt.data.chatters.values();
        assert(tick_fits(now, per_tick)) by {
            assert forall|i: int| 0 <= i < now.len() && #[trigger] now[i].remaining_ticks > 0
                implies now[i].points + per_tick <= u64::MAX by {
                let c = start[i];
                assert(now[i] == ticked_times(c, per_tick, k as nat));
                assert(c.points + per_tick * earning_ticks(c, times as nat) <= u64::MAX);
                lemma_earning_grows(c, (k + 1) as nat, times as nat, per_tick);
                lemma_earning_grows(c, k as nat, (k + 1) as nat, per_tick);
                ticks_in_a_row_pay_remaining_ticks(c, per_tick, k as nat);
                let e0 = earning_ticks(c, k as nat);
                let e1 = earning_ticks(c, (k + 1) as nat);
                assert(c.remaining_ticks > 0);
                assert(e0 == k);
                assert(e1 == e0 + 1);
                assert(per_tick * e1 == per_tick * e0 + per_tick) by (nonlinear_arith)
                    requires
                        e1 == e0 + 1,
                ;
            }
        }
        give_points(rt);
        k = k + 1;
        assert(rt.data.chatters.values() =~= start.map_values(|c: Chatter| ticked_times(c, per_tick, k as nat)));
    }
}

proof fn lemma_put_aliases_keeps(t: Table, aliases: Seq<Seq<char>>, v: Seq<char>)
    ensures
        forall|k: Seq<char>| t.1.contains_key(k) ==> #[trigger] put_aliases(t, aliases, v).1.contains_key(k)
            && put_aliases(t, aliases, v).1[k] == t.1[k],
        forall|k: Seq<char>| #[trigger] put_aliases(t, aliases, v).1.contains_key(k)
            <==> (t.1.contains_key(k) || aliases.contains(k)),
        forall|k: Seq<char>| !t.1.contains_key(k) && aliases.contains(k)
            ==> #[trigger] put_aliases(t, aliases, v).1[k] == v,
    decreases aliases.len(),
{
    if aliases.len() > 0 {
        let rest = aliases.drop_last();
        lemma_put_aliases_keeps(t, rest, v);
        let before = put_aliases(t, rest, v);
        let after = put_aliases(t, aliases, v);
        assert forall|k: Seq<char>| t.1.contains_key(k) implies #[trigger] after.1.contains_key(k)
            && after.1[k] == t.1[k] by {
            assert(before.1.contains_key(k));
        }
        assert forall|k: Seq<char>| #[trigger] after.1.contains_key(k)
            <==> (t.1.contains_key(k) || aliases.contains(k)) by {
            assert(before.1.contains_key(k) <==> (t.1.contains_key(k) || rest.contains(k)));
            if rest.contains(k) {
                let j = choose|j: int| 0 <= j < rest.len() && rest[j] == k;
                assert(aliases[j] == k);
            }
            if aliases.contains(k) && k != aliases.last() {
                let j = choose|j: int| 0 <= j < aliases.len() && aliases[j] == k;
                assert(j != aliases.len() - 1);
                assert(rest[j] == k);
            }
            if k == aliases.last() {
                assert(aliases[aliases.len() - 1] == k);
            }
        }
        assert forall|k: Seq<char>| !t.1.contains_key(k) && aliases.contains(k)
            implies #[trigger] after.1[k] == v by {
            if rest.contains(k) {
                assert(before.1[k] == v);
                assert(before.1.contains_key(k));
            } else {
                let j = choose|j: int| 0 <= j < aliases.len() && aliases[j] == k;
                if j < aliases.len() - 1 {
                    assert(rest[j] == k);
                }
                assert(k == aliases.last());
                assert(!before.1.contains_key(k));
            }
        }
    }
}

/// Whether `k` is a command name or one of the aliases among the first
/// entries of a configuration.
pub open spec fn named_in(names: Seq<Seq<char>>, entries: Seq<StringOrCommand>, k: Seq<char>) -> bool {
    exists|i: int| 0 <= i < names.len() && #[trigger] names_at(names, entries, i, k)
}

/// Whether the `i`-th configured command is named `k` or has the alias `k`.
pub open spec fn names_at(names: Seq<Seq<char>>, entries: Seq<StringOrCommand>, i: int, k: Seq<char>) -> bool {
    names[i] == k || aliases_of(entries[i]).contains(k)
}

proof fn lemma_command_table(
    names: Seq<Seq<char>>,
    entries: Seq<StringOrCommand>,
    var_names: Seq<Seq<char>>,
    var_values: Seq<Seq<char>>,
)
    requires
        names.no_duplicates(),
        names.len() == entries.len(),
    ensures
        forall|i: int| 0 <= i < names.len() ==> command_table(names, entries, var_names, var_values).1.contains_key(#[trigger] names[i])
            && command_table(names, entries, var_names, var_values).1[names[i]]
                == substituted(entries[i].text(), var_names, var_values),
        forall|k: Seq<char>| #[trigger] command_table(names, entries, var_names, var_values).1.contains_key(k)
            <==> named_in(names, entries, k),
    decreases names.len(),
{
    if names.len() > 0 {
        let pn = names.drop_last();
        let pe = entries.drop_last();
        lemma_command_table(pn, pe, var_names, var_values);
        let before = command_table(pn, pe, var_names, var_values);
        let text = substituted(entries.last().text(), var_names, var_values);
        let middle = put(before, names.last(), text);
        lemma_put_aliases_keeps(middle, aliases_of(entries.last()), text);
        let table = command_table(names, entries, var_names, var_values);
        assert(pn.len() > 0 ==> pe.len() > 0);
        assert(table == put_aliases(middle, aliases_of(entries.last()), text));
        assert forall|i: int| 0 <= i < names.len() implies table.1.contains_key(#[trigger] names[i])
            && table.1[names[i]] == substituted(entries[i].text(), var_names, var_values) by {
            if i < names.len() - 1 {
                assert(pn[i] == names[i]);
                assert(pe[i] == entries[i]);
                assert(names[i] != names[names.len() - 1]);
                assert(before.1.contains_key(pn[i]));
                assert(middle.1.contains_key(names[i]));
            } else {
                assert(middle.1.contains_key(names.last()));
            }
        }
        assert forall|k: Seq<char>| #[trigger] table.1.contains_key(k) <==> named_in(names, entries, k) by {
            assert(table.1.contains_key(k) <==> (middle.1.contains_key(k) || aliases_of(entries.last()).contains(k)));
            assert(middle.1.contains_key(k) <==> (before.1.contains_key(k) || k == names.last()));
            assert(before.1.contains_key(k) <==> named_in(pn, pe, k));
            if named_in(pn, pe, k) {
                let i = choose|i: int| 0 <= i < pn.len() && #[trigger] names_at(pn, pe, i, k);
                assert(names[i] == pn[i] && entries[i] == pe[i]);
                assert(names_at(names, entries, i, k));
            }
            if k == names.last() {
                assert(names[names.len() - 1] == k);
                assert(names_at(names, entries, names.len() - 1, k));
            }
            if aliases_of(entries.last()).contains(k) {
                assert(aliases_of(entries[names.len() - 1]).contains(k));
                assert(names_at(names, entries, names.len() - 1, k));
            }
            if named_in(names, entries, k) {
                let i = choose|i: int| 0 <= i < names.len() && #[trigger] names_at(names, entries, i, k);
                if i < names.len() - 1 {
                    assert(names[i] == pn[i] && entries[i] == pe[i]);
                    assert(names_at(pn, pe, i, k));
                }
            }
        }
    }
}

/// Every configured command name answers with its own text, the variables
/// put in: an alias of another command never takes a command's name.
pub proof fn command_names_answer_their_text(config: Config)
    requires
        config.commands.well_formed(),
    ensures
        forall|i: int| 0 <= i < config.commands.keys().len()
            ==> commands_of(config).1.contains_key(#[trigger] config.commands.keys()[i])
            && commands_of(config).1[config.commands.keys()[i]] == substituted(
                config.commands.values()[i].text(),
                config.variables.keys(),
                texts(config.variables.values()),
            ),
{
    config.commands.lemma_view();
    lemma_command_table(
        config.commands.keys(),
        config.commands.values(),
        config.variables.keys(),
        texts(config.variables.values()),
    );
}

/// The command table answers to exactly the configured command names and
/// their aliases.
pub proof fn command_table_answers_names_and_aliases(config: Config, k: Seq<char>)
    requires
        config.commands.well_formed(),
    ensures
        commands_of(config).1.contains_key(k) <==> named_in(config.commands.keys(), config.commands.values(), k),
{
    config.commands.lemma_view();
    lemma_command_table(
        config.commands.keys(),
        config.commands.values(),
        config.variables.keys(),
        texts(config.variables.values()),
    );
}


/// Whether the `i`-th configured command has the alias `k`.
pub open spec fn has_alias(entries: Seq<StringOrCommand>, i: int, k: Seq<char>) -> bool {
    aliases_of(entries[i]).contains(k)
}

proof fn lemma_alias_values(
    names: Seq<Seq<char>>,
    entries: Seq<StringOrCommand>,
    var_names: Seq<Seq<char>>,
    var_values: Seq<Seq<char>>,
)
    requires
        names.no_duplicates(),
        names.len() == entries.len(),
    ensures
        forall|k: Seq<char>| #[trigger] command_table(names, entries, var_names, var_values).1.contains_key(k)
            && !names.contains(k) ==> exists|j: int| 0 <= j < names.len() && #[trigger] has_alias(entries, j, k)
            && command_table(names, entries, var_names, var_values).1[k]
                == substituted(entries[j].text(), var_names, var_values)
            && forall|l: int| 0 <= l < j ==> !#[trigger] has_alias(entries, l, k),
    decreases names.len(),
{
    lemma_command_table(names, entries, var_names, var_values);
    if names.len() > 0 {
        let pn = names.drop_last();
        let pe = entries.drop_last();
        lemma_alias_values(pn, pe, var_names, var_values);
        lemma_command_table(pn, pe, var_names, var_values);
        let before = command_table(pn, pe, var_names, var_values);
        let text = substituted(entries.last().text(), var_names, var_values);
        let middle = put(before, names.last(), text);
        lemma_put_aliases_keeps(middle, aliases_of(entries.last()), text);
        let table = command_table(names, entries, var_names, var_values);
        assert(pn.len() > 0 ==> pe.len() > 0);
        assert(table == put_aliases(middle, aliases_of(entries.last()), text));
        assert forall|k: Seq<char>| #[trigger] table.1.contains_key(k) && !names.contains(k)
            implies exists|j: int| 0 <= j < names.len() && #[trigger] has_alias(entries, j, k)
            && table.1[k] == substituted(entries[j].text(), var_names, var_values)
            && forall|l: int| 0 <= l < j ==> !#[trigger] has_alias(entries, l, k) by {
            assert(k != names[names.len() - 1]);
            assert(!pn.contains(k)) by {
                if pn.contains(k) {
                    let q = choose|q: int| 0 <= q < pn.len() && pn[q] == k;
                    assert(names[q] == k);
                }
            }
            if before.1.contains_key(k) {
                let j = choose|j: int| 0 <= j < pn.len() && #[trigger] has_alias(pe, j, k)
                    && before.1[k] == substituted(pe[j].text(), var_names, var_values)
                    && forall|l: int| 0 <= l < j ==> !#[trigger] has_alias(pe, l, k);
                assert(entries[j] == pe[j]);
                assert(has_alias(entries, j, k));
                assert(middle.1.contains_key(k));
                assert forall|l: int| 0 <= l < j implies !#[trigger] has_alias(entries, l, k) by {
                    assert(entries[l] == pe[l]);
                    assert(!has_alias(pe, l, k));
                }
            } else {
                let j = names.len() - 1;
                assert(!middle.1.contains_key(k));
                assert(aliases_of(entries.last()).contains(k));
                assert(has_alias(entries, j, k));
                assert forall|l: int| 0 <= l < j implies !#[trigger] has_alias(entries, l, k) by {
                    assert(entries[l] == pe[l]);
                    if has_alias(pe, l, k) {
                        assert(names_at(pn, pe, l, k));
                        assert(named_in(pn, pe, k));
                    }
                }
            }
        }
    }
}

/// An alias that is no command name answers with the text of the first
/// command that has it as an alias, the variables put in: the same text that
/// command's own name answers.
pub proof fn aliases_answer_their_command_text(config: Config, k: Seq<char>)
    requires
        config.commands.well_formed(),
        commands_of(config).1.contains_key(k),
        !config.commands.keys().contains(k),
    ensures
        exists|j: int| 0 <= j < config.commands.keys().len()
            && #[trigger] has_alias(config.commands.values(), j, k)
            && commands_of(config).1[k] == substituted(
                config.commands.values()[j].text(),
                config.variables.keys(),
                texts(config.variables.values()),
            )
            && commands_of(config).1[k] == commands_of(config).1[config.commands.keys()[j]]
            && forall|l: int| 0 <= l < j ==> !#[trigger] has_alias(config.commands.values(), l, k),
{
    config.commands.lemma_view();
    let names = config.commands.keys();
    let entries = config.commands.values();
    let vn = config.variables.keys();
    let vv = texts(config.variables.values());
    lemma_alias_values(names, entries, vn, vv);
    lemma_command_table(names, entries, vn, vv);
    let j = choose|j: int| 0 <= j < names.len() && #[trigger] has_alias(entries, j, k)
        && command_table(names, entries, vn, vv).1[k] == substituted(entries[j].text(), vn, vv)
        && forall|l: int| 0 <= l < j ==> !#[trigger] has_alias(entries, l, k);
    assert(command_table(names, entries, vn, vv).1[names[j]] == substituted(entries[j].text(), vn, vv));
}

} // verus!
