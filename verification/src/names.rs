//! Case conversion (crate `heck`) and keyword escaping (crate
//! `check_keyword`) of identifiers.
use vstd::prelude::*;
use crate::text::unicode_alphanumeric;

verus! {

/// What `heck::ToUpperCamelCase::to_upper_camel_case` makes of a string.
pub uninterp spec fn upper_camel_case(s: Seq<char>) -> Seq<char>;

/// `heck::ToUpperCamelCase::to_upper_camel_case`. Its result depends on the
/// argument alone, and it is not empty where the argument has an
/// alphanumeric character (each run of alphanumeric characters is written
/// as a word, its first character in upper case); more is not said of it.
#[verifier::external_body]
pub(crate) fn to_upper_camel_case(s: &str) -> (r: String)
    ensures
        r@ == upper_camel_case(s@),
        (exists|i: int| 0 <= i < s@.len() && unicode_alphanumeric(#[trigger] s@[i])) ==> r@.len() > 0,
{
    heck::ToUpperCamelCase::to_upper_camel_case(s)
}

/// `heck::ToPascalCase::to_pascal_case`, which heck implements as
/// `to_upper_camel_case`: the same result.
#[verifier::external_body]
pub(crate) fn to_pascal_case(s: &str) -> (r: String)
    ensures
        r@ == upper_camel_case(s@),
{
    heck::ToPascalCase::to_pascal_case(s)
}

/// What `heck::ToSnekCase::to_snek_case` makes of a string.
pub uninterp spec fn snake_case(s: Seq<char>) -> Seq<char>;

/// `heck::ToSnekCase::to_snek_case`. Its result depends on the argument
/// alone; this contract names it and says nothing more of it.
#[verifier::external_body]
pub(crate) fn to_snek_case(s: &str) -> (r: String)
    ensures
        r@ == snake_case(s@),
{
    heck::ToSnekCase::to_snek_case(s)
}

/// What `check_keyword::CheckKeyword::into_safe` makes of a string.
pub uninterp spec fn safe_identifier(s: Seq<char>) -> Seq<char>;

/// `check_keyword::CheckKeyword::into_safe`: a keyword gets `r#` in front
/// of it or `_` behind it, any other string is handed back unchanged. Which
/// strings are keywords (a table of the crate) is left unsaid.
#[verifier::external_body]
pub(crate) fn into_safe(s: String) -> (r: String)
    ensures
        r@ == safe_identifier(s@),
        r@ == s@ || r@ == "r#"@ + s@ || r@ == s@ + "_"@,
{
    check_keyword::CheckKeyword::into_safe(s)
}

} // verus!
