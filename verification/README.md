# resume

A web server that hands out a resume as a PDF. Everything the page shows besides its texts
comes from the link that asked for it: the theme, whether the settings are open, a secret
that shows the phone number, and a game of 2048 packed into one integer.

- `src/` is the library, verified with Verus:
  - `minigame.rs`: the 2048 board (read and write a cell, slide, place a new tile, win,
    the moves on offer) and the table of tile colors;
  - `board.rs`: the model the board's contracts speak of (lines, slides, merges, empty
    cells) and its lemmas;
  - `score.rs`: the sum of the numbers on the board, kept by every slide;
  - `state.rs`: what a link asks for, the colors of each theme, and where each settings
    switch leads;
  - `link.rs`: links that carry an encoded state in URL-safe Base64, the way back, and the
    secret read in standard Base64;
  - `localization.rs`: the shape of the resume's texts.
- `app/` is the server around it: reading the environment, the bilrost encoding of a state,
  the PDF layout with laser-pdf, and the English texts.
- `tests/` runs the library on concrete boards, states and links.
