# owo_bot

A Discord chat client that runs in the terminal: it logs and learns from the
messages it sees, answers a few commands, and lets its user send messages in
which `@user`, `#channel` and `:emoji:` tokens become Discord markup. It can
also "yap": babble a reply by a random walk over five-character n-grams
learnt from chat input.

- `src/` is the verified library (Verus):
  - `text` — character-sequence operations (`str::replace`, substring search,
    decimal rendering and id parsing) with their specifications;
  - `matching` — the calls into the `regex` crate and slicing by the byte
    offsets it reports;
  - `patterns` — rewriting of mentions, channels and emojis;
  - `yapping` — learning n-grams and babbling over them;
  - `bot` — what the bot does about each incoming message, the command
    line, and the steps of composing an outgoing message;
  - `terminal` — the input line, the panels, and the message report;
  - `brackets` — why hidden bracketed spans come back unchanged.
- `app/` is the program around it: Discord, the terminal, files.
- `tests/` exercises the library on concrete values.
