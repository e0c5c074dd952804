# mustache

Mustache templates, verified with Verus.

The library (`src/`) compiles template text into tokens and renders tokens
against data. Each step is stated as a mathematical model and the
executable code is proved to follow it:

- `text`: whitespace, trimming, dotted names, HTML escaping.
- `token`: tokens, their model, and the tokenizer's errors.
- `parser_spec`: the tokenizer as a state machine over characters.
- `parser`: the tokenizer itself, proved to run that state machine.
- `data`: the values templates are rendered against, and name lookup
  through a stack of contexts.
- `render`: rendering as a function of tokens, context stack, partials and
  indentation; a lambda's output is compiled and rendered by
  `render_compiled`.
- `render_rel`: what rendering may give with lambdas: along a trace of the
  texts the lambdas returned (each one that its lambda may return),
  rendering is a function; every renderer's contract says its result is
  what some such trace gives.
- `template`: contexts, compiled templates, and the bookkeeping of
  compiling partials.
- `laws`: properties that hold for all inputs (plain text compiles to
  itself and renders to itself, sections cache their source, escaping
  removes markup, sections and inverted sections complement each other
  over booleans, lists, maps and missing names (also as compiled
  templates), rendering distributes over concatenation (with lambdas,
  along traces), more depth never changes an output,
  the partial to load next is one not known yet, and once none is left
  every partial referred to is known).
- `source_laws`: the sources of the tokens a template compiles to give the
  template back (for templates without newlines, comments or delimiter
  changes), and what `{{#a}}x{{/a}}` compiles to.

A lambda is any type implementing `data::Lambda`; what it may return for
an input is stated by its `called` relation, and the renderer's contracts
say what comes of whatever text it returns.

`app/` reads templates and partials from disk (the loop that loads
partials, `CompileContextExt::compile`, asks `CompileContext` which one to
load next) and turns `Encodable` values
into `Data` through `rustc-serialize`.
