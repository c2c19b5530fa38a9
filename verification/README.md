# typing_english

A terminal game for learning English vocabulary by typing it. Cards come from an
Anki deck; the player types the word (and an example sentence) several times.

- `src/` is the verified library (Verus): the highlighting of typed words
  (`highlight`), the typing speed (`scoring`), which note of the deck comes next
  and how a note becomes a passage (`passage`), the decisions of a round
  (`game`), the terminal size check (`term_check`) and string helpers (`text`,
  `numbers`).
- `app/` is the program around it: command line, SQLite queries, terminal
  drawing and key input.
