# mazeweb

A maze generator for the web whose logic is verified with Verus.

A maze is a grid of one-byte cells: the lower four bits are the walls (north,
east, south, west), the upper four the cell's type. Four generators build a
maze (Aldous-Broder, recursive division, Kruskal's and Prim's algorithms) and
record every cell change they make, grouped into steps, so that a builder can
replay the construction forwards and backwards.

## Layout

- `src/` — the verified library.
  - `cell.rs`, `maze.rs`: cells and the grid.
  - `utils.rs`: `Draws`, the supply of random words that every random choice
    is taken from, and the random picks built on it.
  - `generators/`: the generator trait with its shared cell operations and the
    builder (`generator.rs`), the four generators, and the specifications the
    generators are proved against: recorded changes and their replay
    (`trace.rs`), walls (`walls.rs`), passages, reachability and perfect mazes
    (`paths.rs`).
- `tests/` — tests of the library on concrete values.
- `app/` — the WebAssembly bindings: JavaScript-visible copies of the types,
  random words from `Math.random`, and the panic hook.

## Randomness

The library draws no random numbers itself. A caller hands a generator a
`Draws` value holding 32-bit words; a word `w` stands for the fraction
`w / 2^32`, so a random index below `n` is `floor(w * n / 2^32)`. A generator
returns `None` when the words run out, and the bindings then retry with a
larger supply.

## What is proved

Among other things:

- every generator's steps are a faithful record of the changes from the
  starting maze, and leave the walls on both sides of every boundary in
  agreement;
- what each generator builds is tied to the words it draws: the walls that
  Kruskal's algorithm knocks down come, in order, from the list its shuffle
  leaves, each exactly when its two cells do not yet reach each other; the splits of recursive division, the walls Prim's algorithm opens
  and the cells the Aldous-Broder walk moves to are those of a specification
  that reads the same words;
- recursive division succeeds with 1 + 4 * (cells) words, Prim's algorithm with
  2 + 4 * (cells), Kruskal's algorithm exactly when the shuffle has its words,
  and Aldous-Broder whenever no cell but its first starts `Visited` and its
  walk reaches every cell within the words;
- whenever they succeed, Kruskal's algorithm, recursive division and
  Aldous-Broder build a perfect maze (every cell reaches every other, with one
  fewer open boundary than cells), and so does Prim's algorithm when every cell
  but its random first one is `Default`;
- Kruskal's algorithm and recursive division change only wall bits, never a
  cell's type bits, and every step of recursive division is fixed: the
  clearing pass, then for each split its wall and its gap;
- stepping back over a step restores the maze exactly when the step's last
  change at each cell records that cell's earlier value, which holds for every
  step of Kruskal's algorithm and recursive division.
