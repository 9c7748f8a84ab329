# openapi-struct-gen

Generates Rust structures from OpenAPI 3.0 definitions, with the logic
verified by Verus.

The run (`run::generate_from_text`) has three steps after parsing, each a
verified function with a contract:

* `parse::parse_schema` gathers the schemas of a document into one map:
  the component schemas, and the schemas given in place in responses and
  request bodies, each under a name made from where it stands.
* `normalize::normalize` lifts the complex schemas nested in others (objects
  with properties, string enums, `allOf`/`anyOf`/`oneOf`) out into schemas of
  their own, each referred to from where it stood.
* `generate::generate` writes the Rust source: a struct for each object and
  `allOf`, an enum for each string enum and `oneOf`/`anyOf`, a type alias for
  any other type, with doc comments, derives and annotations as asked.

Layout:

* `src/model.rs`: the parts of an OpenAPI document that the generator reads.
* `src/name_map.rs`: a map keyed by names, walked in the names' byte order.
* `src/text.rs`, `src/names.rs`: text helpers, and case conversion (`heck`)
  and keyword escaping (`check_keyword`).
* `src/parse.rs`, `src/normalize.rs`, `src/merge.rs` (the merged properties of
  an `allOf`, kept in an `indexmap::IndexMap`), `src/types.rs` (the Rust type
  written for a schema), `src/emit.rs` (the `codegen` items the source is
  built from), `src/generate.rs`, `src/error.rs`.
* `src/document.rs`, `src/outside_types.rs`: the schema file's text parsed
  with `serde_json` or `serde_yaml` into `openapiv3` types, taken over into
  the library's model.
* `src/run.rs`: a whole run on the text of a schema file, from the choice
  of the syntax by the extension to the generated source.
* `app/`: reading the schema file and writing the generated file.
