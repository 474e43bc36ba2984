# wordle

A helper for word games in which a guess is answered letter by letter: green for a letter in its
place, yellow for one in another place, black for one that is not there.

The library in `src/` is written in Verus. It holds the games, what players type and what they are
shown, the words, and the planning of scores that are computed beforehand. What to guess is chosen
by the crate `rs_wordle_solver`; what is taken from it for granted stands beside each call.

| module     | what it holds                                                          |
|------------|------------------------------------------------------------------------|
| `text`     | white space, numbers, ASCII letters and UTF-8 lengths                  |
| `letters`  | the results of letters, and how they are typed and shown               |
| `response` | how a word answers a guess, and every answer that there can be         |
| `bank`     | the words of a text or file, and the bank made of them                 |
| `guesser`  | the guessers, and the trace of what they were told and asked           |
| `dispatch` | a guesser that scores words by one guess or by two                     |
| `entry`    | what is typed for a guess                                              |
| `report`   | what is said: lists, durations, the end of a game                      |
| `play`     | a game by hand                                                         |
| `scores`   | stored scores and the words that they belong to                        |
| `solve`    | a game by baked scores, also against a simulated target                |
| `bake`     | the states whose scores are baked, and what is left to do for each     |
| `laws`     | what holds of all this as a whole                                      |

The program in `app/` has a command for each use:

    wordle play [FIRST_N] [NEXT_N] [-t] [--bank FILE]
    wordle bake [--bank FILE]
    wordle solve [FIRST_N] [NEXT_N] [--simulate WORD]

`FILE` holds one word on each line. Guesses are asked for by word, by their number in the list, or
`!more 10` for ten guesses more; results are typed as `b`, `y` and `g`.
