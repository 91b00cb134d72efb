# justice

A paragraph justifier: it chooses every break of a paragraph together, and the
spacing of each line with them, so that the whole paragraph costs least. The
host supplies word widths; the engine never measures or rasterizes a font.

The library under `src/` is verified with Verus. Its numbers are IEEE-754
doubles held as bits (`Binary64`), with correctly rounded arithmetic, so that
costs, spacings and residuals are exact in the contracts.

| Modules | What they hold |
| --- | --- |
| `rounding`, `binary64`, `signs`, `exact`, `errors`, `numeric` | rounding, arithmetic, order, sign, whole numbers and rounding errors |
| `text`, `words` | words, punctuation, quotes, hyphens and graphemes by byte offset |
| `model` | policies, measures, prepared paragraphs, lines and layouts |
| `gauge`, `fragments`, `prepare` | measuring a paragraph through a callback |
| `hyphenation`, `margins` | dictionary breaks and optical margins |
| `fit`, `bounds`, `accounting`, `completion` | one candidate line, its limits, and where its width goes |
| `search`, `solver`, `optimum` | the search over breaks, its tables, and what it finds |
| `overflow`, `pruning` | when the search over words may stop early, and why it loses nothing |
| `solve`, `hyphenated` | solving words, and words with fragments |
| `costs`, `laws`, `extra`, `strict` | what holds of every line and layout |
| `render` | the text of a line |
| `numerals`, `sampling`, `statics`, `plans` | static plans for width bands |
| `ffi` | what a host asks, on plain values |

`app/` holds the C interface and the printing of machine floating-point
numbers; `tests/` the tests.
