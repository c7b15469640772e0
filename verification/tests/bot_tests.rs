use hardbot::bot::{Bot, HandlerKind, Route};
use hardbot::handlers::steal_with;
use hardbot::config::{AutoCommands, Command, Config, General, Group, Points, StringOrCommand, UserAccess};
use hardbot::names::NameMap;
use hardbot::runtime::{give_points, give_points_times, tick_fits_in, ticks_fit_in, Chatter, Data, Runtime};

fn points_config(steal_min: u64, steal_max: u64) -> Points {
    Points { ticks_per_message: 3, points_per_tick: 10, tick_speed: 60, steal_min, steal_max }
}

fn config() -> Config {
    let mut variables = NameMap::new();
    variables.insert("discord".to_string(), "https://discord.gg/x".to_string());
    let mut commands = NameMap::new();
    commands.insert("discord".to_string(), StringOrCommand::Text("Join us: $discord".to_string()));
    commands.insert(
        "so".to_string(),
        StringOrCommand::Cmd(Command { aliases: vec!["shoutout".to_string(), "discord".to_string()], value: "Go follow them!".to_string() }),
    );
    let mut groups = NameMap::new();
    groups.insert("vips".to_string(), Group { users: vec!["carol".to_string()] });
    let mut user_access = NameMap::new();
    user_access.insert("modman".to_string(), UserAccess { is_mod: true, is_admin: false, is_ignored: false });
    user_access.insert("nightbot".to_string(), UserAccess { is_mod: false, is_admin: false, is_ignored: true });
    Config {
        general: General { hype_emote: "PogChamp".to_string(), message_timeout: Some(1), ignored_users: Vec::new() },
        points: points_config(5, 5),
        variables,
        commands,
        auto_commands: AutoCommands::default(),
        groups,
        user_access,
    }
}

fn bot_with(chatters: &[(&str, u64)]) -> Bot {
    let mut data = Data::default();
    for (name, points) in chatters {
        data.chatters.insert(name.to_string(), Chatter { points: *points, remaining_ticks: 0 });
    }
    let mut bot = Bot::new(config(), data);
    bot.register("hype", None, HandlerKind::Hype);
    bot.register("points", None, HandlerKind::Points);
    bot.register("mod", None, HandlerKind::Mod);
    bot.register("top", None, HandlerKind::Top);
    bot.register("steal", None, HandlerKind::Steal);
    bot.register("give", None, HandlerKind::Give);
    bot.register("lurk", None, HandlerKind::Lurk);
    bot.register("unlurk", None, HandlerKind::Unlurk);
    bot.register("hi", None, HandlerKind::Hi);
    let names = bot.handler_names();
    bot.register("commands", None, HandlerKind::Commands(names));
    bot
}

fn points_of(bot: &Bot, name: &str) -> Option<u64> {
    bot.runtime.data.chatter(name).map(|c| c.points)
}

#[test]
fn variables_are_put_into_command_texts() {
    let bot = bot_with(&[]);
    assert_eq!(bot.runtime.commands.get("discord").map(|s| s.as_str()), Some("Join us: https://discord.gg/x"));
}

#[test]
fn aliases_answer_but_do_not_take_command_names() {
    let bot = bot_with(&[]);
    assert_eq!(bot.runtime.commands.get("shoutout").map(|s| s.as_str()), Some("Go follow them!"));
    assert_eq!(bot.runtime.commands.get("so").map(|s| s.as_str()), Some("Go follow them!"));
    assert_eq!(bot.runtime.commands.get("discord").map(|s| s.as_str()), Some("Join us: https://discord.gg/x"));
    assert_eq!(bot.runtime.commands.len(), 3);
}

#[test]
fn chat_lines_give_ticks_not_points() {
    let mut bot = bot_with(&[("alice", 7)]);
    assert_eq!(bot.handle_message("  Alice ", "hello there", false), None);
    let c = bot.runtime.data.chatter("alice").unwrap();
    assert_eq!(c.points, 7);
    assert_eq!(c.remaining_ticks, 3);
    assert_eq!(bot.handle_message("Newbie", "hi all", false), None);
    let n = bot.runtime.data.chatter("newbie").unwrap();
    assert_eq!((n.points, n.remaining_ticks), (0, 3));
}

#[test]
fn command_texts_answer() {
    let mut bot = bot_with(&[]);
    assert_eq!(bot.handle_message("bob", "!discord", false).as_deref(), Some("Join us: https://discord.gg/x"));
    assert_eq!(bot.handle_message("bob", "  !!SHOUTOUT  ", false).as_deref(), Some("Go follow them!"));
    assert_eq!(bot.runtime.data.chatter("bob"), None);
}

#[test]
fn dollar_stands_for_shoutout() {
    let mut bot = bot_with(&[]);
    assert_eq!(bot.handle_message("bob", "$", false).as_deref(), Some("No hacking allowed!\nUse !commands to see available commands."));
    let mut bot2 = bot_with(&[]);
    bot2.runtime.commands.insert("so someone".to_string(), "shouted".to_string());
    assert_eq!(bot2.handle_message("bob", "$Someone", false).as_deref(), Some("shouted"));
}

#[test]
fn unknown_commands_are_refused() {
    let mut bot = bot_with(&[]);
    assert_eq!(bot.handle_message("bob", "!nosuch", false).as_deref(), Some("No hacking allowed!\nUse !commands to see available commands."));
}

#[test]
fn greetings() {
    let mut bot = bot_with(&[]);
    assert_eq!(bot.handle_message("Bob", "!hi", false).as_deref(), Some("Hello, bob!"));
    assert_eq!(bot.handle_message("bob", "!lurk", false).as_deref(), Some("Have fun lurking @bob! iamhar2Bob"));
    assert_eq!(bot.handle_message("bob", "!unlurk", false).as_deref(), Some("Welcome back from lurking @bob! iamhar2Bob"));
}

#[test]
fn hype_repeats_the_emote_per_e() {
    let mut bot = bot_with(&[]);
    assert_eq!(bot.handle_message("bob", "!hype", false).as_deref(), Some("PogChamp"));
    assert_eq!(bot.handle_message("bob", "!hype ee", false).as_deref(), Some("PogChamp PogChamp PogChamp"));
    let long = format!("!hype {}", "e".repeat(100));
    let r = bot.handle_message("bob", &long, false).unwrap();
    assert_eq!(r.split(' ').count(), 30);
}

#[test]
fn points_of_self_and_others() {
    let mut bot = bot_with(&[("alice", 42), ("bob", 3)]);
    assert_eq!(bot.handle_message("bob", "!points", false).as_deref(), Some("@bob currently has 3 points!"));
    assert_eq!(bot.handle_message("bob", "!points @Alice", false).as_deref(), Some("@alice currently has 42 points!"));
    assert_eq!(bot.handle_message("bob", "!points zed", false).as_deref(), Some("@zed currently has 0 points!"));
}

#[test]
fn mod_answers_moderators_only() {
    let mut bot = bot_with(&[]);
    assert_eq!(bot.handle_message("ModMan", "!mod", false).as_deref(), Some("@modman you are a mod!"));
    assert_eq!(bot.handle_message("bob", "!mod", false), None);
}

#[test]
fn give_moves_points() {
    let mut bot = bot_with(&[("alice", 10), ("bob", 1)]);
    assert_eq!(bot.handle_message("alice", "!give bob 4", false).as_deref(), Some("alice sent 4 points to bob!"));
    assert_eq!(points_of(&bot, "alice"), Some(6));
    assert_eq!(points_of(&bot, "bob"), Some(5));
}

#[test]
fn give_errors() {
    let mut bot = bot_with(&[("alice", 10), ("bob", 1)]);
    assert_eq!(bot.handle_message("alice", "!give bob", false).as_deref(),
        Some("alice You need to specify a receiver and an amount! For example: !give iamhardbot 999"));
    assert_eq!(bot.handle_message("alice", "!give bob lots", false).as_deref(),
        Some("alice The amount you specified is not a number!"));
    assert_eq!(bot.handle_message("zed", "!give bob 1", false).as_deref(),
        Some("zed You do not have any points to spend!"));
    assert_eq!(bot.handle_message("bob", "!give alice 2", false).as_deref(),
        Some("bob you don't have enough points!"));
    assert_eq!(bot.handle_message("alice", "!give carl 2", false).as_deref(),
        Some("alice The receiver carl is not a registered chatter!"));
    assert_eq!(points_of(&bot, "alice"), Some(10));
    assert_eq!(points_of(&bot, "bob"), Some(1));
}

#[test]
fn give_overflow_is_detected() {
    let bot = bot_with(&[("alice", 10), ("bob", u64::MAX)]);
    assert!(bot.would_overflow("alice", "!give bob 1"));
    assert!(!bot.would_overflow("alice", "!give bob 0"));
    assert!(!bot.would_overflow("bob", "!give bob 5"));
}

#[test]
fn steal_takes_the_drawn_amount() {
    let mut bot = bot_with(&[("alice", 10), ("bob", 100)]);
    assert_eq!(bot.handle_message("alice", "!steal @bob", true).as_deref(), Some("@alice stole 5 points from bob!"));
    assert_eq!(points_of(&bot, "bob"), Some(95));
    assert_eq!(points_of(&bot, "alice"), Some(5));
}

#[test]
fn steal_takes_at_most_what_the_victim_has() {
    let mut bot = bot_with(&[("bob", 2)]);
    assert_eq!(bot.handle_message("alice", "!steal bob", true).as_deref(), Some("@alice stole 2 points from bob!"));
    assert_eq!(points_of(&bot, "bob"), Some(0));
    assert_eq!(points_of(&bot, "alice"), Some(2));
}

#[test]
fn steal_failures() {
    let mut bot = bot_with(&[("alice", 10), ("bob", 100)]);
    assert_eq!(bot.handle_message("alice", "!steal bob", false).as_deref(), Some("@alice stealing is bad, mkayyy"));
    assert_eq!(bot.handle_message("alice", "!steal zed", true).as_deref(), Some("@alice can't steal from zed because they have no points!"));
    assert_eq!(bot.handle_message("alice", "!steal", true).as_deref(),
        Some("alice You need to specify a person you want to steal from! For example: !steal iamhardbot"));
    assert_eq!(points_of(&bot, "alice"), Some(10));
    assert_eq!(points_of(&bot, "bob"), Some(100));
}

#[test]
fn steal_amount_stays_in_the_configured_range() {
    let mut c = config();
    c.points = points_config(3, 9);
    let mut data = Data::default();
    data.chatters.insert("bob".to_string(), Chatter { points: 1000, remaining_ticks: 0 });
    let mut bot = Bot::new(c, data);
    bot.register("steal", None, HandlerKind::Steal);
    for _ in 0..20 {
        bot.handle_message("alice", "!steal bob", true);
        let got = points_of(&bot, "alice").unwrap();
        assert!((3..=9).contains(&got));
    }
}

#[test]
fn top_lists_five_by_points() {
    let mut bot = bot_with(&[("a", 1), ("b", 50), ("nightbot", 1000), ("c", 50), ("d", 7), ("e", 3), ("f", 2)]);
    assert_eq!(bot.handle_message("x", "!top", false).as_deref(),
        Some("Top 5, requested by @x: 1. c | 2. b | 3. d | 4. e | 5. f"));
}

#[test]
fn top_with_few_chatters() {
    let mut bot = bot_with(&[("a", 1)]);
    assert_eq!(bot.handle_message("x", "!top", false).as_deref(), Some("Top 5, requested by @x: 1. a"));
    let mut empty = bot_with(&[]);
    assert_eq!(empty.handle_message("x", "!top", false).as_deref(), Some("Top 5, requested by @x: "));
}

#[test]
fn commands_lists_commands_then_handlers() {
    let mut bot = bot_with(&[]);
    assert_eq!(bot.handle_message("bob", "!commands", false).as_deref(),
        Some("!discord | !so | !shoutout | !hype | !points | !mod | !top | !steal | !give | !lurk | !unlurk | !hi"));
}

#[test]
fn allow_lists_let_users_and_groups_in() {
    let mut bot = bot_with(&[]);
    bot.register("secret", Some(vec!["@dave".to_string(), "#vips".to_string()]), HandlerKind::Hi);
    assert_eq!(bot.handle_message("Dave", "!secret", false).as_deref(), Some("Hello, dave!"));
    assert_eq!(bot.handle_message("carol", "!secret", false).as_deref(), Some("Hello, carol!"));
    assert_eq!(bot.handle_message("bob", "!secret", false), None);
}

#[test]
fn ticks_pay_points() {
    let mut data = Data::default();
    data.chatters.insert("a".to_string(), Chatter { points: 1, remaining_ticks: 2 });
    data.chatters.insert("b".to_string(), Chatter { points: 5, remaining_ticks: 0 });
    let mut rt = Runtime::from_config(config(), data);
    assert!(tick_fits_in(&rt));
    give_points(&mut rt);
    give_points(&mut rt);
    give_points(&mut rt);
    let a = rt.data.chatter("a").unwrap();
    let b = rt.data.chatter("b").unwrap();
    assert_eq!((a.points, a.remaining_ticks), (21, 0));
    assert_eq!((b.points, b.remaining_ticks), (5, 0));
}

#[test]
fn tick_overflow_is_detected() {
    let mut data = Data::default();
    data.chatters.insert("a".to_string(), Chatter { points: u64::MAX - 3, remaining_ticks: 1 });
    let rt = Runtime::from_config(config(), data);
    assert!(!tick_fits_in(&rt));
}

#[test]
fn giving_keeps_the_total_on_values() {
    let mut bot = bot_with(&[("alice", 10), ("bob", 1), ("carl", 4)]);
    let total = |b: &Bot| ["alice", "bob", "carl"].iter().map(|n| points_of(b, n).unwrap()).sum::<u64>();
    let before = total(&bot);
    bot.handle_message("alice", "!give carl 7", false);
    bot.handle_message("carl", "!give carl 3", false);
    assert_eq!(total(&bot), before);
}

#[test]
fn stealing_never_adds_points_on_values() {
    let mut bot = bot_with(&[("alice", 10), ("bob", 100)]);
    bot.handle_message("alice", "!steal bob", true);
    assert!(points_of(&bot, "alice").unwrap() + points_of(&bot, "bob").unwrap() <= 110);
}

#[test]
fn string_or_command_text() {
    assert_eq!(StringOrCommand::Text("a".to_string()).to_string(), "a");
    assert_eq!(StringOrCommand::Cmd(Command { aliases: vec![], value: "v".to_string() }).to_string(), "v");
}

#[test]
fn routes_of_lines() {
    let bot = bot_with(&[]);
    assert!(matches!(bot.route(" Bob ", "hello"), Route::Chat { ref name } if name == "bob"));
    assert!(matches!(bot.route("bob", "!so"), Route::Answer { ref text } if text == "Go follow them!"));
    assert!(matches!(bot.route("bob", "!hi there"), Route::Handle { ref name, ref msg, .. } if name == "bob" && msg == "hi there"));
}

#[test]
fn draws_only_for_a_known_victim_on_a_won_roll() {
    let bot = bot_with(&[("bob", 3)]);
    assert!(bot.would_draw("alice", "!steal bob", true));
    assert!(!bot.would_draw("alice", "!steal bob", false));
    assert!(!bot.would_draw("alice", "!steal zed", true));
    assert!(!bot.would_draw("alice", "!hi", true));
}

#[test]
fn steal_needs_a_range_only_when_it_draws() {
    let mut c = config();
    c.points = points_config(9, 3);
    let mut data = Data::default();
    data.chatters.insert("bob".to_string(), Chatter { points: 10, remaining_ticks: 0 });
    let mut bot = Bot::new(c, data);
    bot.register("steal", None, HandlerKind::Steal);
    assert_eq!(bot.handle_message("alice", "!steal bob", false).as_deref(), Some("@alice stealing is bad, mkayyy"));
}

#[test]
fn steal_with_a_given_draw() {
    let mut data = Data::default();
    data.chatters.insert("bob".to_string(), Chatter { points: 10, remaining_ticks: 4 });
    data.chatters.insert("alice".to_string(), Chatter { points: 50, remaining_ticks: 2 });
    assert_eq!(steal_with(&mut data, "alice", "steal bob", true, 7), "@alice stole 7 points from bob!");
    assert_eq!(data.chatter("bob"), Some(Chatter { points: 3, remaining_ticks: 4 }));
    assert_eq!(data.chatter("alice"), Some(Chatter { points: 7, remaining_ticks: 2 }));
    assert_eq!(steal_with(&mut data, "bob", "steal bob", true, 100), "@bob stole 3 points from bob!");
    assert_eq!(data.chatter("bob"), Some(Chatter { points: 3, remaining_ticks: 4 }));
}

#[test]
fn ticks_in_a_row_pay_remaining_ticks() {
    let mut data = Data::default();
    data.chatters.insert("a".to_string(), Chatter { points: 1, remaining_ticks: 2 });
    data.chatters.insert("b".to_string(), Chatter { points: 5, remaining_ticks: 0 });
    data.chatters.insert("c".to_string(), Chatter { points: 0, remaining_ticks: 9 });
    data.chatters.insert("d".to_string(), Chatter { points: 3, remaining_ticks: -2 });
    let mut rt = Runtime::from_config(config(), data);
    assert!(ticks_fit_in(&rt, 5));
    give_points_times(&mut rt, 5);
    assert_eq!(rt.data.chatter("a"), Some(Chatter { points: 21, remaining_ticks: 0 }));
    assert_eq!(rt.data.chatter("b"), Some(Chatter { points: 5, remaining_ticks: 0 }));
    assert_eq!(rt.data.chatter("c"), Some(Chatter { points: 50, remaining_ticks: 4 }));
    assert_eq!(rt.data.chatter("d"), Some(Chatter { points: 3, remaining_ticks: -2 }));
}

#[test]
fn ticks_in_a_row_overflow_is_detected() {
    let mut data = Data::default();
    data.chatters.insert("a".to_string(), Chatter { points: u64::MAX - 25, remaining_ticks: 5 });
    let rt = Runtime::from_config(config(), data);
    assert!(ticks_fit_in(&rt, 2));
    assert!(!ticks_fit_in(&rt, 3));
    assert!(ticks_fit_in(&rt, 0));
}

#[test]
fn dollar_and_shoutout_on_values() {
    let mut b1 = bot_with(&[]);
    let mut b2 = bot_with(&[]);
    b1.runtime.commands.insert("so bob".to_string(), "follow bob".to_string());
    b2.runtime.commands.insert("so bob".to_string(), "follow bob".to_string());
    assert_eq!(b1.handle_message("x", " $Bob ", false), b2.handle_message("x", "!so bob", false));
    assert_eq!(b1.handle_message("x", "$Bob", false).as_deref(), Some("follow bob"));
}

#[test]
fn repeated_bangs_and_case_on_values() {
    let mut b1 = bot_with(&[("alice", 9)]);
    let mut b2 = bot_with(&[("alice", 9)]);
    assert_eq!(b1.handle_message(" ALICE", "  !!!POINTS  ", false), b2.handle_message("alice", "!points", false));
    assert_eq!(b1.handle_message("alice", "!!!Hi", false).as_deref(), Some("Hello, alice!"));
}
