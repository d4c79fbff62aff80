# resmack

A grammar-based generator of random data. Rules are named choices over
items (fixed strings, sequences, choices, references to other rules, random
strings and integers, optional and repeated items, identifiers that become
options of a rule once written, definitions written ahead of the output, and
scopes that drop the identifiers created inside them). A rule set resolves
its rules, prunes the ones that cannot be built, computes how many nested
references each rule needs at least, and then builds random output from any
rule, falling back to the shortest options once a recursion depth is reached.

What is proved of pruning: resolving leaves every rule that keeps its own
name as its original resolved against the final names (up to the marker
positions that each pass records again) and removes exactly as many names as
it counts; every set of rules that can build each other survives it. The
length computation is stated exactly (`length_outcome`: passes in name order
until a pass finds no more shortest options), and a name is removed exactly
when a rule that is not kept carries it without a length. Every rule left
with a name is, unless kept, productive. Across all the rounds of
`finalize`, rules that need no other rule keep their names, and so does every
`name_chain`: rules that are not kept and can each be built from the rules of
the chain before them in name order. Later rounds can prune more than
productivity asks: the length passes stop as soon as the counts of shortest
options repeat, and counts left by an earlier round can end them before a
rule that needs a rule after it in name order gets its length. When
`finalize` succeeds, resolving any named rule again asks for no new rule. It
succeeds whenever no rule is kept at the start and every identifier aimed at
the name of a rule is aimed at a name of a chain (`ids_in_chain`); it can
only fail once a name has been taken over by an identifier rule.

The library is written in Verus and verified:

- `src/fields.rs`: the items, their mathematical model (`SItem`, `SOr`) and
  their constructors.
- `src/generate.rs`: building. `build_spec` states what building any item
  writes as a function of the random values it draws; every build function is
  proved to do exactly that.
- `src/resolve.rs`: resolving rule names to indices.
- `src/lengths.rs`: shortest reference lengths and shortest options.
- `src/rules.rs`: rule lists and rule sets, including the pruning rounds of
  `finalize`, proved to terminate.
- `src/rulemap.rs`: the map from rule names to indices, kept in name order.
- `src/describe.rs`: readable descriptions of items.
- `src/random.rs`: the seeded random source (a PCG generator of `rand_pcg`).
- `src/laws.rs`: what building promises for every state it starts from.
- `src/text.rs`: decimal rendering and byte order.
- `src/types.rs`: interfaces for builders that look rules up by category.

`app/` holds the benchmark program and the parts that print or use floats;
`tests/` holds the tests.
