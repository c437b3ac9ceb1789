# rcss3

A CSS parser, selector matcher and cascade engine written in Verus, with
every function of the library proved against its contract.

- `src/parser.rs`: stylesheets into rules (comments, selector lists,
  declarations with `!important`, `@media` blocks).
- `src/selector.rs`: compound selectors, combinators (descendant, `>`, `+`,
  `~`), specificity, and matching against any element type that implements
  `ElementLike`.
- `src/media.rs`: the supported `@media` subset and its evaluation.
- `src/cascade.rs`: the computed style of an element and its text form.
- `src/text.rs`: the character scanning the parsers share.

Each parser is specified by a spec function over the input's characters
(`stylesheet_of`, `selector_of`, `compound_of`, `media_query_of`), and the
cascade by `cascade`, which gives each property the value of the declaration
that outranks all other candidates (`!important` first, then specificity,
then source order). The `law_*` proof functions state properties of the
library as a whole, such as the irrelevance of rules that do not apply and
the uniqueness of the text form of a style.

The tests under `tests/` run the library on concrete stylesheets.
