# tailcall_config

The configuration side of a GraphQL gateway, written in Verus: the model of a
schema configuration (types, fields, arguments, unions, enums, resolvers), the
settings read from configuration files and how two of them merge, the
detection of N + 1 queries, and the transformations applied to a
configuration (renaming types and arguments, flattening unions, replacing
unions used by arguments, consolidating base URLs, merging similar types,
giving types used both as input and as output a name for each use, adding
the entity resolver and the federation service field, linting names).

Layout:

- `src/` is the verified library. `strings`, `strmap`, `strset` and `valid`
  hold the string operations, the ordered maps and sets, and the causes of a
  failed validation that the rest is written with. `config/` holds the
  configuration model, `config/npo` the N + 1 detection, `config/static_config`
  the settings, and `config/transformer` the transformations, each with its
  contract and the laws proved about it.
- `tests/` runs the library on concrete configurations.
- `app/` holds what decides with floating-point thresholds and similarity
  ratios, around the library.
