//! A whole run on the text of a schema file: the syntax chosen by the
//! file's extension, the document parsed, its schemas gathered, normalized
//! and written out as Rust source.
use vstd::prelude::*;
use crate::document::{json_document, parse_json, parse_yaml, yaml_document};
use crate::emit::rendered;
use crate::error::{format_of, schema_format, GenError, SchemaFormat};
use crate::generate::{
    can_generate, gen_options, generate, imports_added, imports_view, map_items, map_renders,
    schema_names, GenOptions,
};
use crate::model::OpenApi;
use crate::normalize::{name_bound, normalize_if_fits, normalized, weight};
use crate::parse::{check_document, document_ok, gathered_schemas, insert_all, parse_schema, SchemaMap};

verus! {

/// The document that a text holds in a syntax, `None` where the parser
/// reports an error.
pub open spec fn document_of(text: Seq<char>, format: SchemaFormat) -> Option<OpenApi> {
    match format {
        SchemaFormat::Json => json_document(text),
        SchemaFormat::Yaml => yaml_document(text),
    }
}

/// One way a run on the document `doc` can go: `s0` holds the schemas
/// gathered from it, and, where they fit, `s1` is what normalizing them
/// gives. `out` is `None` where the run cannot go on (a media type name
/// without a `/`, more schemas than can be named, or a reference that is
/// not to a component schema, or an array without items, left after
/// normalizing), else the Rust source generated for `s1` with the imports
/// and options.
pub open spec fn run_steps(
    doc: OpenApi,
    s0: SchemaMap,
    s1: SchemaMap,
    imports: Seq<(Seq<char>, Seq<char>)>,
    opts: GenOptions,
    out: Option<String>,
) -> bool {
    if !document_ok(doc) {
        out is None
    } else {
        &&& s0.wf()
        &&& s0@ == insert_all(Map::empty(), gathered_schemas(doc))
        &&& if s0.entries().len() + s0.total(weight()) >= name_bound() {
            out is None
        } else {
            &&& normalized(s0, s1)
            &&& if map_renders(s1@) {
                out matches Some(t) && t@ == rendered(
                    imports_added(Seq::empty(), imports),
                    map_items(schema_names(s1), s1@, opts),
                )
            } else {
                out is None
            }
        }
    }
}

/// Generates the Rust source for the schema file whose text is `text` and
/// whose extension is `extension`, with the options of
/// `generate::generate`.
///
/// An extension other than `json`, `yaml` and `yml` (or none) is the error
/// that carries it; a text that the parser for the extension's syntax
/// refuses is that parser's error. Otherwise the result is `Ok`: `None`
/// where the document holds what the generator does not take, else the
/// source generated for the normalized schemas of the document (see
/// `run_steps`).
pub fn generate_from_text(
    text: &str,
    extension: Option<&str>,
    derivatives: Option<&[&str]>,
    imports: Option<&[(&str, &str)]>,
    annotations_before: Option<&[(&str, Option<&[&str]>)]>,
    annotations_after: Option<&[(&str, Option<&[&str]>)]>,
    field_annotations: Option<&[(&str, &str, &str)]>,
    skip_none: bool,
) -> (r: Result<Option<String>, GenError>)
    ensures
        match format_of(extension) {
            None => match extension {
                Some(e) => r matches Err(GenError::WrongFileExtension(Some(x))) && x@ == e@,
                None => r matches Err(GenError::WrongFileExtension(None)),
            },
            Some(f) => match document_of(text@, f) {
                None => if f == SchemaFormat::Json {
                    r matches Err(GenError::Json(_))
                } else {
                    r matches Err(GenError::Yaml(_))
                },
                Some(doc) => r matches Ok(out) && exists|s0: SchemaMap, s1: SchemaMap|
                    #[trigger] run_steps(
                        doc,
                        s0,
                        s1,
                        imports_view(imports),
                        gen_options(derivatives, annotations_before, annotations_after, field_annotations, skip_none),
                        out,
                    ),
            },
        },
{
    let ghost opts = gen_options(derivatives, annotations_before, annotations_after, field_annotations, skip_none);
    let ghost iv = imports_view(imports);
    let format = match schema_format(extension) {
        Ok(f) => f,
        Err(e) => {
            assert(format_of(extension) is None);
            return Err(e);
        },
    };
    assert(format_of(extension) == Some(format));
    let doc = match format {
        SchemaFormat::Json => match parse_json(text) {
            Ok(d) => d,
            Err(e) => return Err(GenError::Json(e)),
        },
        SchemaFormat::Yaml => match parse_yaml(text) {
            Ok(d) => d,
            Err(e) => return Err(GenError::Yaml(e)),
        },
    };
    let ghost gdoc = doc;
    if !check_document(&doc) {
        let ghost any: SchemaMap = vstd::pervasive::arbitrary();
        assert(run_steps(gdoc, any, any, iv, opts, None));
        return Ok(None);
    }
    let (mut schemas, _aliases) = parse_schema(doc);
    let ghost s0 = schemas;
    if !normalize_if_fits(&mut schemas) {
        assert(run_steps(gdoc, s0, s0, iv, opts, None));
        return Ok(None);
    }
    if !can_generate(&schemas) {
        assert(run_steps(gdoc, s0, schemas, iv, opts, None));
        return Ok(None);
    }
    let ghost s1 = schemas;
    let out = generate(schemas, derivatives, imports, annotations_before, annotations_after, field_annotations, skip_none);
    assert(run_steps(gdoc, s0, s1, iv, opts, Some(out)));
    Ok(Some(out))
}

} // verus!
