//! The errors of a run, and the choice of the parser by the schema file's
//! extension.
use vstd::prelude::*;

verus! {

/// An error of a run.
#[derive(Debug)]
pub enum GenError {
    /// The schema file's extension is none of `json`, `yaml` and `yml`
    /// (the extension it has, if any).
    WrongFileExtension(Option<String>),
    /// The schema file is not a JSON OpenAPI document.
    Json(serde_json::Error),
    /// The schema file is not a YAML OpenAPI document.
    Yaml(serde_yaml::Error),
}

/// The syntax of a schema file.
#[derive(PartialEq, Eq, Structural, Clone, Copy, Debug)]
pub enum SchemaFormat {
    Json,
    Yaml,
}

/// The syntax that an extension names: JSON for `json`, YAML for `yaml`
/// and `yml`, none for any other extension or none.
pub open spec fn format_of(extension: Option<&str>) -> Option<SchemaFormat> {
    match extension {
        Some(e) => if e@ == "json"@ {
            Some(SchemaFormat::Json)
        } else if e@ == "yaml"@ || e@ == "yml"@ {
            Some(SchemaFormat::Yaml)
        } else {
            None
        },
        None => None,
    }
}

/// The syntax of a schema file, by its extension: JSON for `json`, YAML for
/// `yaml` and `yml`; any other extension, or none, is an error that carries
/// it.
pub fn schema_format(extension: Option<&str>) -> (r: Result<SchemaFormat, GenError>)
    ensures
        match extension {
            Some(e) => if e@ == "json"@ {
                r == Ok::<SchemaFormat, GenError>(SchemaFormat::Json)
            } else if e@ == "yaml"@ || e@ == "yml"@ {
                r == Ok::<SchemaFormat, GenError>(SchemaFormat::Yaml)
            } else {
                r matches Err(GenError::WrongFileExtension(Some(x))) && x@ == e@
            },
            None => r matches Err(GenError::WrongFileExtension(None)),
        },
{
    match extension {
        Some(e) => {
            if crate::name_map::compare_names(e, "json") == 0 {
                Ok(SchemaFormat::Json)
            } else if crate::name_map::compare_names(e, "yaml") == 0 || crate::name_map::compare_names(
                e,
                "yml",
            ) == 0 {
                Ok(SchemaFormat::Yaml)
            } else {
                Err(GenError::WrongFileExtension(Some(e.to_owned())))
            }
        },
        None => Err(GenError::WrongFileExtension(None)),
    }
}

} // verus!
