# ankiquest

XP, levels, streaks, daily quests, achievements and a leaderboard for Anki, with
notifications between players. The rules of the game and of the server are a
library that Verus verifies; the server around it is ordinary Rust.

## Layout

- `src/` is the library. What is stored, what is shown and what is sent are
  plain values, and each public function states in its contract exactly what it
  returns or changes. Public proof functions named `law_...` state what holds of
  several functions together.
  - The game: `quests`, `days`, `replay`, `levels`, `achievements`, `records`,
    `freezes`, `nudges`, `feedback` and `game`, which puts them together. `limits`
    tells which histories can be computed.
  - Time: `calendar` for a player's own days, `week` for the shared week.
  - What is stored: `store` and `soundness`, with `inbox`, `decks`, `sharing`,
    `completions` and `subscriptions` working on it.
  - Requests: `uploads`, `preferences`, `friend_nudges`, `boards`, `competition`,
    `avatars`, `i18n`, `command`, `config`, `delivery` and `sync`.
  - Groundwork: `double` computes as IEEE 754 doubles do, `text`, `pieces` and
    `order` handle texts, and `table`, `day_table` and `ranking` handle lists.
- `app/` is the server: HTTP, the database, pushes, and the copies of the
  library's types that have a wire format. It tests what the library requires
  before it calls it.
- `tests/` runs the library.

## What is trusted

Time zones and dates come from `chrono` and `chrono-tz`, pictures from `image`,
and the catalog of translations is read by `serde_json`. Each such call stands in
a small function whose comment says what is claimed of it.
