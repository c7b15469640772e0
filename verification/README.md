# hardbot

A chat bot for a streaming channel. Viewers earn points while they chat;
`!`-commands answer with configured texts (with `$variables` put in) or run
the bot's own handlers: `!points`, `!give`, `!steal`, `!top`, `!hype`,
`!commands`, `!mod`, `!hi`, `!lurk`, `!unlurk`.

- `src/` is the library, verified with Verus: text operations (`text`), an
  ordered name map (`names`), the configuration (`config`), the bot's state and
  command table (`runtime`), the handlers (`handlers`), routing and answering
  chat lines (`bot`), and properties proved of them (`laws`).
- `app/` is the program: it reads `~/.config/hardbot/config.toml` and the saved
  chatters, connects to the chat, hands each line to the library and runs the
  timed work (point ticks, saving, automatic commands).
- `tests/` runs the library on concrete values.
