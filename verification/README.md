# stream-observer

A small local model reads a token stream, measures how much each token surprised it, and now and then
says something about what it reads.

- `src/` is the library, written in Verus. It holds the decisions: when a token fires, how the context
  is kept within its limits, how an aside is asked for and grows alongside the stream, what counts as a
  repeat, how a text is searched, and what each frontend shows.
- `tests/` runs the library on a model without weights.
- `app/` is the program: the llama.cpp backend, the floating-point arithmetic, the terminal and the
  command line.

| module | what it holds |
|---|---|
| `backend` | the seam to an inference engine |
| `lobe` | the observer: `observe` (scoring and stepping), `interject` and `rag` (asides and searches), `window` (resets), `firing`, `novelty`, `sampling`, `fused`, `showing`, `debug` |
| `lobe::model`, `lobe::laws` | the observer as a value, and what holds of every run |
| `lobe::replies`, `lobe::reproducing` | what holds of a whole reply, and that equal states and inputs give equal outcomes |
| `headless`, `present`, `present_scene`, `present_worker`, `tui` | the frontends |
| `options`, `startup`, `feed` | the choices of a run, its start, and its input |
| `retrieval` | searching a text by words and by embeddings |
| `sprite`, `json` | half-block sprites and how they are read |
| `prompt`, `text`, `stats`, `number`, `numerics`, `trace` | the smaller parts |

Numbers are carried as the patterns of their floating-point form. The library compares them; it leaves
computing them to an implementation of `numerics::Numerics` and `retrieval::Scoring`, and each contract
says which question a number answers. What an engine does is known by the calls made on it:
`backend::Session` keeps their history and what each call answered. The contracts say which row of which
pass scores a token or gives the next token of a reply, and the laws speak of the cells that a history
leaves behind.

What is believed without proof: the contracts on the traits `Backend` and `Session`, of the engines
that `app/` and the tests bring; those that `text` gives to a few functions of the standard library; and
those that `json` gives to `serde_json`.
