# cddl_validate

A verified library that holds data against schemas in CDDL, the concise data
definition language.

A schema is a tree of `ivt::Node`s. Rules are referred to by name and looked up
in a `context::Context`. Data is a tree of `value::Value`s. `validate::validate`,
`validate::validate_choice` and `validate::validate_rule` say whether the data
matches, and if not, what was expected.

A schema may refer to itself, so matching need not come to an end. The functions
whose names end in `_within` take a number of nested steps and give `None` where
that does not suffice. The others ask that matching comes to an end.

| Module | What it holds |
| --- | --- |
| `ivt`, `value`, `float`, `util`, `context` | schemas, data, outcomes, rules |
| `order`, `entries` | the order of values, and the entries of a map |
| `text` | how messages quote a schema |
| `semantics` | what it means for data to match |
| `working` | copies of arrays and maps that are used up as they are matched |
| `validate`, `scalar`, `array`, `map`, `runs` | validation |
| `laws`, `plain_laws`, `option_laws`, `splice_laws` | what matching comes to |
| `key_laws`, `cut_laws`, `occur_laws` | keys, cuts and occurrences |
| `array_laws`, `map_laws`, `rewind_laws` | what becomes of items and entries |
| `depth`, `settling` | how many nested steps are needed |
| `arrangement` | lemmas on entries in any order |
