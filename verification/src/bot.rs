//! The bot: how a chat line is routed, and what it answers.

use vstd::prelude::*;
use crate::config::{Config, Group, UserAccess};
use crate::handlers::{
    commands_reply, drawable, get_name_from_string, steal_draws, steal_would_draw, give, give_outcome, give_overflows, give_would_overflow,
    hi, hi_reply, hype, hype_reply, list_commands, lurk, lurk_reply, moderator, mod_reply, points,
    points_reply, steal, steal_outcome, top, top_reply, unlurk, unlurk_reply,
};
use crate::names::NameMap;
use crate::runtime::{commands_of, standing, store, table_of, Chatter, Data, Roster, Runtime};
use crate::text::{
    contains_text, first_word, first_word_of, lowercase, skip_leading, starts_with, strip_leading,
    text_starts_with, texts, to_lowercase, trim, trimmed,
};

verus! {

/// What a handler does when its command comes.
pub enum HandlerKind {
    /// Repeats the hype emote for each `e` in the command.
    Hype,
    /// Tells a chatter's points.
    Points,
    /// Answers moderators and admins.
    Mod,
    /// Lists the chatters with the most points.
    Top,
    /// Takes points from another chatter, if a roll succeeds.
    Steal,
    /// Gives points to another chatter.
    Give,
    Lurk,
    Unlurk,
    Hi,
    /// Lists the commands; it holds the handler names to list.
    Commands(Vec<String>),
}

/// A registered handler, and who may use it: everyone when there is no
/// allow list; otherwise `@user` entries and `#group` entries.
pub struct Handler {
    pub kind: HandlerKind,
    pub allow_list: Option<Vec<String>>,
}

/// The bot: its handlers by command prefix, and its state.
pub struct Bot {
    pub handlers: NameMap<Handler>,
    pub runtime: Runtime,
}

/// Where a chat line goes, as the bot decides it.
pub enum Route {
    /// A chat line that is no command, from this chatter.
    Chat { name: String },
    /// A command answered with this text.
    Answer { text: String },
    /// A handler's command from someone it does not allow.
    Denied,
    /// A command for the handler at `index`, from `name`, reading `msg`.
    Handle { index: usize, name: String, msg: String },
}

/// Where a chat line goes, in terms of texts.
pub enum RouteView {
    Chat(Seq<char>),
    Answer(Seq<char>),
    Denied,
    Handle(int, Seq<char>, Seq<char>),
}

impl View for Route {
    type V = RouteView;

    open spec fn view(&self) -> RouteView {
        match self {
            Route::Chat { name } => RouteView::Chat(name@),
            Route::Answer { text } => RouteView::Answer(text@),
            Route::Denied => RouteView::Denied,
            Route::Handle { index, name, msg } => RouteView::Handle(*index as int, name@, msg@),
        }
    }
}

/// The answer to a command that no handler takes.
pub open spec fn no_hacking() -> Seq<char> {
    "No hacking allowed!\nUse !commands to see available commands."@
}

/// A name or a chat line as the bot reads it: trimmed, then in lower case.
pub open spec fn normalized(s: Seq<char>) -> Seq<char> {
    lowercase(trimmed(s))
}

/// A line that starts with `$` stands for `!so` and the rest of the line.
pub open spec fn expanded(m: Seq<char>) -> Seq<char> {
    if starts_with(m, "$"@) {
        "!so "@ + m.drop_first()
    } else {
        m
    }
}

/// The first of the prefixes with which `word` begins.
pub open spec fn first_match(prefixes: Seq<Seq<char>>, word: Seq<char>) -> Option<int>
    decreases prefixes.len(),
{
    if prefixes.len() == 0 {
        None
    } else {
        match first_match(prefixes.drop_last(), word) {
            Some(i) => Some(i),
            None => if starts_with(word, prefixes.last()) {
                Some(prefixes.len() - 1)
            } else {
                None
            },
        }
    }
}

/// Whether the group at `i` holds the user and the allow list names it.
pub open spec fn group_opens(allow: Seq<Seq<char>>, groups: NameMap<Group>, i: int, name: Seq<char>) -> bool {
    texts(groups.values()[i].users@).contains(name) && allow.contains("#"@ + groups.keys()[i])
}

/// Whether an allow list lets the user in.
pub open spec fn allowed(allow: Option<Vec<String>>, groups: NameMap<Group>, name: Seq<char>) -> bool {
    match allow {
        None => true,
        Some(l) => texts(l@).contains("@"@ + name) || exists|i: int|
            0 <= i < groups.keys().len() && #[trigger] group_opens(texts(l@), groups, i, name),
    }
}

/// Where the bot sends a chat line.
pub open spec fn route_of(bot: Bot, name: Seq<char>, message: Seq<char>) -> RouteView {
    let n = normalized(name);
    let m1 = expanded(normalized(message));
    if !starts_with(m1, "!"@) {
        RouteView::Chat(n)
    } else {
        let m = skip_leading(m1, '!');
        let table = table_of(bot.runtime.commands);
        if table.1.contains_key(m) {
            RouteView::Answer(table.1[m])
        } else {
            match first_match(bot.handlers.keys(), first_word(m)) {
                None => RouteView::Answer(no_hacking()),
                Some(i) => if allowed(bot.handlers.values()[i].allow_list, bot.runtime.config.groups, n) {
                    RouteView::Handle(i, n, m)
                } else {
                    RouteView::Denied
                },
            }
        }
    }
}

/// The rights of a user: none unless configured.
pub open spec fn access_of(access: Map<Seq<char>, UserAccess>, name: Seq<char>) -> UserAccess {
    if access.contains_key(name) {
        access[name]
    } else {
        UserAccess { is_mod: false, is_admin: false, is_ignored: false }
    }
}

/// What a handler does: the roster after it, and its answer. `wins` is the
/// roll for a theft and `amount` the draw for its size.
pub open spec fn run_handler(
    kind: HandlerKind,
    prefix: Seq<char>,
    rt: Runtime,
    n: Seq<char>,
    m: Seq<char>,
    wins: bool,
    amount: u64,
) -> (Roster, Option<Seq<char>>) {
    let r = rt.data.roster();
    match kind {
        HandlerKind::Hype => (r, Some(hype_reply(rt.config.general.hype_emote@, m))),
        HandlerKind::Points => (r, Some(points_reply(r, n, m.skip(prefix.len() as int)))),
        HandlerKind::Mod => (r, mod_reply(access_of(rt.config.user_access@, n), n)),
        HandlerKind::Top => (r, Some(top_reply(r, rt.config.user_access@, n))),
        HandlerKind::Steal => {
            let o = steal_outcome(r, n, m, wins, amount);
            (o.0, Some(o.1))
        },
        HandlerKind::Give => {
            let o = give_outcome(r, n, m);
            (o.0, Some(o.1))
        },
        HandlerKind::Lurk => (r, Some(lurk_reply(n))),
        HandlerKind::Unlurk => (r, Some(unlurk_reply(n))),
        HandlerKind::Hi => (r, Some(hi_reply(n))),
        HandlerKind::Commands(names) => (r, Some(commands_reply(rt.commands.keys(), texts(names@)))),
    }
}

/// What the bot does with a chat line: the roster after it, and its answer.
/// A chat line that is no command gives its sender the configured ticks of
/// earning; a command's text answers it; otherwise the first handler whose
/// prefix begins the command takes it, if it allows the sender.
pub open spec fn respond(bot: Bot, name: Seq<char>, message: Seq<char>, wins: bool, amount: u64) -> (Roster, Option<Seq<char>>) {
    let r = bot.runtime.data.roster();
    match route_of(bot, name, message) {
        RouteView::Chat(n) => (
            store(r, n, Chatter {
                points: standing(r, n).points,
                remaining_ticks: bot.runtime.config.points.ticks_per_message,
            }),
            None,
        ),
        RouteView::Answer(t) => (r, Some(t)),
        RouteView::Denied => (r, None),
        RouteView::Handle(i, n, m) => run_handler(
            bot.handlers.values()[i].kind,
            bot.handlers.keys()[i],
            bot.runtime,
            n,
            m,
            wins,
            amount,
        ),
    }
}

/// Whether a chat line would make `!give` credit past the largest `u64`.
pub open spec fn overflows(bot: Bot, name: Seq<char>, message: Seq<char>) -> bool {
    match route_of(bot, name, message) {
        RouteView::Handle(i, n, m) => bot.handlers.values()[i].kind is Give
            && give_overflows(bot.runtime.data.roster(), n, m),
        _ => false,
    }
}

/// Whether a chat line makes a theft draw an amount.
pub open spec fn draws(bot: Bot, name: Seq<char>, message: Seq<char>, wins: bool) -> bool {
    match route_of(bot, name, message) {
        RouteView::Handle(i, n, m) => bot.handlers.values()[i].kind is Steal
            && steal_draws(bot.runtime.data.roster(), m, wins),
        _ => false,
    }
}

/// An optional text as a view.
pub open spec fn opt_view(o: Option<String>) -> Option<Seq<char>> {
    match o {
        Some(s) => Some(s@),
        None => None,
    }
}


/// Whether an allow list lets the user in.
fn is_allowed(allow: &Option<Vec<String>>, groups: &NameMap<Group>, name: &str) -> (r: bool)
    ensures
        r == allowed(*allow, *groups, name@),
{
    match allow {
        None => true,
        Some(l) => {
            let mut at = "@".to_owned();
            at.append(name);
            if contains_text(l, at.as_str()) {
                return true;
            }
            let n = groups.len();
            let mut i: usize = 0;
            while i < n
                invariant
                    n == groups.keys().len() == groups.values().len(),
                    *allow == Some(*l),
                    i <= n,
                    forall|j: int| 0 <= j < i ==> !#[trigger] group_opens(texts(l@), *groups, j, name@),
                decreases n - i,
            {
                let mut hash = "#".to_owned();
                hash.append(groups.key_at(i).as_str());
                let g = groups.value_at(i);
                if contains_text(&g.users, name) && contains_text(l, hash.as_str()) {
                    assert(hash@ == "#"@ + groups.keys()[i as int]);
                    assert(texts(groups.values()[i as int].users@).contains(name@));
                    assert(group_opens(texts(l@), *groups, i as int, name@));
                    assert(allowed(*allow, *groups, name@));
                    return true;
                }
                i = i + 1;
            }
            false
        },
    }
}

/// The first handler whose prefix begins `word`.
fn find_handler(handlers: &NameMap<Handler>, word: &str) -> (r: Option<usize>)
    ensures
        match r {
            Some(i) => first_match(handlers.keys(), word@) == Some(i as int) && i < handlers.keys().len()
                && i < handlers.values().len(),
            None => first_match(handlers.keys(), word@) is None,
        },
{
    let ghost keys = handlers.keys();
    let n = handlers.len();
    assert(n == handlers.values().len());
    let mut i: usize = 0;
    assert(keys.take(0) =~= Seq::<Seq<char>>::empty());
    while i < n
        invariant
            keys == handlers.keys(),
            n == keys.len(),
            n == handlers.values().len(),
            i <= n,
            first_match(keys.take(i as int), word@) is None,
        decreases n - i,
    {
        assert(keys.take(i + 1).drop_last() =~= keys.take(i as int));
        if text_starts_with(word, handlers.key_at(i).as_str()) {
            proof {
                lemma_first_match_prefix(keys, word@, i as int + 1);
            }
            return Some(i);
        }
        i = i + 1;
    }
    assert(keys.take(n as int) =~= keys);
    None
}

proof fn lemma_first_match_prefix(keys: Seq<Seq<char>>, word: Seq<char>, k: int)
    requires
        0 < k <= keys.len(),
        first_match(keys.take(k), word) is Some,
    ensures
        first_match(keys, word) == first_match(keys.take(k), word),
    decreases keys.len() - k,
{
    if k < keys.len() {
        assert(keys.take(k + 1).drop_last() =~= keys.take(k));
        lemma_first_match_prefix(keys, word, k + 1);
    } else {
        assert(keys.take(k) =~= keys);
    }
}

proof fn lemma_first_match_sound(prefixes: Seq<Seq<char>>, word: Seq<char>)
    ensures
        first_match(prefixes, word) matches Some(i) ==> 0 <= i < prefixes.len()
            && starts_with(word, prefixes[i]),
    decreases prefixes.len(),
{
    if prefixes.len() > 0 {
        lemma_first_match_sound(prefixes.drop_last(), word);
    }
}

proof fn lemma_first_word_prefix(m: Seq<char>)
    ensures
        first_word(m).len() <= m.len(),
        m.take(first_word(m).len() as int) == first_word(m),
    decreases m.len(),
{
    if m.len() > 0 && m[0] != ' ' {
        lemma_first_word_prefix(m.drop_first());
        assert(m.take(first_word(m).len() as int) =~= first_word(m));
    } else {
        assert(m.take(0) =~= first_word(m));
    }
}

/// The rights of a user.
fn user_access(access: &NameMap<UserAccess>, name: &str) -> (r: UserAccess)
    ensures
        r == access_of(access@, name@),
{
    match access.get(name) {
        Some(a) => *a,
        None => UserAccess::default(),
    }
}

/// Runs a handler on a command.
fn run(kind: &HandlerKind, prefix: &String, rt: &mut Runtime, n: &str, m: &str, wins: bool) -> (r: Option<String>)
    requires
        (*kind is Steal && steal_draws(old(rt).data.roster(), m@, wins))
            ==> old(rt).config.points.steal_min <= old(rt).config.points.steal_max,
        !(*kind is Give && give_overflows(old(rt).data.roster(), n@, m@)),
        prefix@.len() <= m@.len(),
    ensures
        final(rt).config == old(rt).config,
        final(rt).commands == old(rt).commands,
        exists|amount: u64| drawable(old(rt).config.points, *kind is Steal && steal_draws(old(rt).data.roster(), m@, wins), amount)
            && (final(rt).data.roster(), opt_view(r)) == run_handler(*kind, prefix@, *old(rt), n@, m@, wins, amount),
{
    let ghost min = rt.config.points.steal_min;
    match kind {
        HandlerKind::Hype => {
            let r = hype(rt.config.general.hype_emote.as_str(), m);
            assert((rt.data.roster(), opt_view(Some(r))) == run_handler(*kind, prefix@, *old(rt), n@, m@, wins, min));
            Some(r)
        },
        HandlerKind::Points => {
            let rest = m.substring_char(prefix.as_str().unicode_len(), m.unicode_len());
            let r = points(&rt.data, n, rest);
            assert((rt.data.roster(), opt_view(Some(r))) == run_handler(*kind, prefix@, *old(rt), n@, m@, wins, min));
            Some(r)
        },
        HandlerKind::Mod => {
            let access = user_access(&rt.config.user_access, n);
            let r = moderator(access, n);
            assert((rt.data.roster(), opt_view(r)) == run_handler(*kind, prefix@, *old(rt), n@, m@, wins, min));
            r
        },
        HandlerKind::Top => {
            let r = top(&rt.data, &rt.config.user_access, n);
            assert((rt.data.roster(), opt_view(Some(r))) == run_handler(*kind, prefix@, *old(rt), n@, m@, wins, min));
            Some(r)
        },
        HandlerKind::Steal => {
            let r = steal(&rt.config.points, &mut rt.data, n, m, wins);
            proof {
                let a = choose|a: u64| drawable(old(rt).config.points, steal_draws(old(rt).data.roster(), m@, wins), a)
                    && (rt.data.roster(), r@) == steal_outcome(old(rt).data.roster(), n@, m@, wins, a);
                assert((rt.data.roster(), opt_view(Some(r))) == run_handler(*kind, prefix@, *old(rt), n@, m@, wins, a));
            }
            Some(r)
        },
        HandlerKind::Give => {
            let r = give(&mut rt.data, n, m);
            assert((rt.data.roster(), opt_view(Some(r))) == run_handler(*kind, prefix@, *old(rt), n@, m@, wins, min));
            Some(r)
        },
        HandlerKind::Lurk => {
            let r = lurk(n);
            assert((rt.data.roster(), opt_view(Some(r))) == run_handler(*kind, prefix@, *old(rt), n@, m@, wins, min));
            Some(r)
        },
        HandlerKind::Unlurk => {
            let r = unlurk(n);
            assert((rt.data.roster(), opt_view(Some(r))) == run_handler(*kind, prefix@, *old(rt), n@, m@, wins, min));
            Some(r)
        },
        HandlerKind::Hi => {
            let r = hi(n);
            assert((rt.data.roster(), opt_view(Some(r))) == run_handler(*kind, prefix@, *old(rt), n@, m@, wins, min));
            Some(r)
        },
        HandlerKind::Commands(names) => {
            let r = list_commands(&rt.commands, names);
            assert((rt.data.roster(), opt_view(Some(r))) == run_handler(*kind, prefix@, *old(rt), n@, m@, wins, min));
            Some(r)
        },
    }
}

impl Bot {
    /// A bot without handlers, for a configuration and the chatters known so far.
    pub fn new(config: Config, data: Data) -> (bot: Bot)
        ensures
            bot.handlers@ == Map::<Seq<char>, Handler>::empty(),
            bot.handlers.keys() == Seq::<Seq<char>>::empty(),
            bot.runtime.config == config,
            bot.runtime.data == data,
            table_of(bot.runtime.commands) == commands_of(config),
    {
        Bot { handlers: NameMap::new(), runtime: Runtime::from_config(config, data) }
    }

    /// Registers a handler for commands that begin with `prefix`; one
    /// registered before under the same prefix is replaced.
    pub fn register(&mut self, prefix: &str, allow_list: Option<Vec<String>>, kind: HandlerKind)
        ensures
            final(self).runtime == old(self).runtime,
            final(self).handlers@ == old(self).handlers@.insert(prefix@, Handler { kind, allow_list }),
            final(self).handlers.keys() == (if old(self).handlers.keys().contains(prefix@) {
                old(self).handlers.keys()
            } else {
                old(self).handlers.keys().push(prefix@)
            }),
            final(self).handlers.values() == (if old(self).handlers.keys().contains(prefix@) {
                old(self).handlers.values().update(old(self).handlers.keys().index_of(prefix@), Handler { kind, allow_list })
            } else {
                old(self).handlers.values().push(Handler { kind, allow_list })
            }),
    {
        self.handlers.insert(prefix.to_owned(), Handler { kind, allow_list });
    }

    /// The prefixes of the registered handlers, in order.
    pub fn handler_names(&self) -> (r: Vec<String>)
        ensures
            texts(r@) == self.handlers.keys(),
    {
        self.handlers.key_list()
    }

    /// Where a chat line goes.
    pub fn route(&self, name: &str, message: &str) -> (r: Route)
        ensures
            r@ == route_of(*self, name@, message@),
            r matches Route::Handle { index, .. } ==> index < self.handlers.keys().len()
                && index < self.handlers.values().len(),
    {
        let n = to_lowercase(trim(name).as_str());
        let m0 = to_lowercase(trim(message).as_str());
        let m1 = if text_starts_with(m0.as_str(), "$") {
            proof {
                reveal_strlit("$");
            }
            let rest = m0.as_str().substring_char(1, m0.as_str().unicode_len());
            assert(rest@ =~= m0@.drop_first());
            let mut e = "!so ".to_owned();
            e.append(rest);
            e
        } else {
            m0
        };
        if !text_starts_with(m1.as_str(), "!") {
            return Route::Chat { name: n };
        }
        let m = strip_leading(m1.as_str(), '!');
        proof {
            use_type_invariant(&self.runtime.commands);
            self.runtime.commands.lemma_view();
        }
        match self.runtime.commands.get(m.as_str()) {
            Some(t) => {
                return Route::Answer { text: t.clone() };
            },
            None => {},
        }
        let word = first_word_of(m.as_str());
        match find_handler(&self.handlers, word.as_str()) {
            None => Route::Answer { text: "No hacking allowed!\nUse !commands to see available commands.".to_owned() },
            Some(i) => {
                if is_allowed(&self.handlers.value_at(i).allow_list, &self.runtime.config.groups, n.as_str()) {
                    Route::Handle { index: i, name: n, msg: m }
                } else {
                    Route::Denied
                }
            },
        }
    }
}


impl Bot {
    /// Whether a chat line would make `!give` overflow a chatter's points.
    pub fn would_overflow(&self, name: &str, message: &str) -> (r: bool)
        ensures
            r == overflows(*self, name@, message@),
    {
        match self.route(name, message) {
            Route::Handle { index, name: n, msg: m } => {
                match self.handlers.value_at(index).kind {
                    HandlerKind::Give => give_would_overflow(&self.runtime.data, n.as_str(), m.as_str()),
                    _ => false,
                }
            },
            _ => false,
        }
    }

    /// Whether a chat line makes a theft draw an amount.
    pub fn would_draw(&self, name: &str, message: &str, steal_wins: bool) -> (r: bool)
        ensures
            r == draws(*self, name@, message@, steal_wins),
    {
        match self.route(name, message) {
            Route::Handle { index, name: _, msg: m } => {
                match self.handlers.value_at(index).kind {
                    HandlerKind::Steal => steal_would_draw(&self.runtime.data, m.as_str(), steal_wins),
                    _ => false,
                }
            },
            _ => false,
        }
    }

    /// Takes a chat line from `name` and gives the bot's answer, if any.
    /// `steal_wins` is the outcome of the roll for success that a theft
    /// takes; the amount of a theft is drawn at random within the configured
    /// bounds.
    pub fn handle_message(&mut self, name: &str, message: &str, steal_wins: bool) -> (r: Option<String>)
        requires
            draws(*old(self), name@, message@, steal_wins)
                ==> old(self).runtime.config.points.steal_min <= old(self).runtime.config.points.steal_max,
            !overflows(*old(self), name@, message@),
        ensures
            final(self).handlers == old(self).handlers,
            final(self).runtime.config == old(self).runtime.config,
            final(self).runtime.commands == old(self).runtime.commands,
            exists|amount: u64| drawable(old(self).runtime.config.points, draws(*old(self), name@, message@, steal_wins), amount)
                && (final(self).runtime.data.roster(), opt_view(r)) == respond(
                    *old(self),
                    name@,
                    message@,
                    steal_wins,
                    amount,
                ),
    {
        let ghost min = self.runtime.config.points.steal_min;
        match self.route(name, message) {
            Route::Chat { name: n } => {
                let c = match self.runtime.data.chatter(n.as_str()) {
                    Some(c) => c,
                    None => Chatter { points: 0, remaining_ticks: 0 },
                };
                let ticks = self.runtime.config.points.ticks_per_message;
                self.runtime.data.store_chatter(n.as_str(), Chatter { points: c.points, remaining_ticks: ticks });
                assert((self.runtime.data.roster(), opt_view(None)) == respond(*old(self), name@, message@, steal_wins, min));
                None
            },
            Route::Answer { text } => {
                assert((self.runtime.data.roster(), opt_view(Some(text))) == respond(*old(self), name@, message@, steal_wins, min));
                Some(text)
            },
            Route::Denied => {
                assert((self.runtime.data.roster(), opt_view(None)) == respond(*old(self), name@, message@, steal_wins, min));
                None
            },
            Route::Handle { index, name: n, msg: m } => {
                proof {
                    let word = first_word(m@);
                    lemma_first_match_sound(self.handlers.keys(), word);
                    lemma_first_word_prefix(m@);
                }
                let r = run(&self.handlers.value_at(index).kind, self.handlers.key_at(index), &mut self.runtime, n.as_str(), m.as_str(), steal_wins);
                proof {
                    let i = index as int;
                    let a = choose|a: u64| drawable(
                        old(self).runtime.config.points,
                        old(self).handlers.values()[i].kind is Steal && steal_draws(old(self).runtime.data.roster(), m@, steal_wins),
                        a,
                    )
                        && (self.runtime.data.roster(), opt_view(r)) == run_handler(
                            old(self).handlers.values()[i].kind,
                            old(self).handlers.keys()[i],
                            old(self).runtime,
                            n@,
                            m@,
                            steal_wins,
                            a,
                        );
                    assert((self.runtime.data.roster(), opt_view(r)) == respond(*old(self), name@, message@, steal_wins, a));
                }
                r
            },
        }
    }
}

} // verus!
