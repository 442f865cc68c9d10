//! The records that the tablet keeps of its documents and folders: loosely
//! written text from which single fields are picked by a pattern.
use crate::directory::Uuid;
use regex::Regex;
use vstd::prelude::*;
use vstd::string::StringExecFns;

verus! {

/// Whether `Regex::new` accepts `pattern`.
pub uninterp spec fn regex_compiles(pattern: Seq<char>) -> bool;

/// What the first group of `pattern` holds in the leftmost match of `pattern`
/// in `text`: `None` where nothing matches or the group took no part in the
/// match.
pub uninterp spec fn regex_first_group(pattern: Seq<char>, text: Seq<char>) -> Option<Seq<char>>;

/// What an optional piece of text holds.
pub open spec fn text_view(text: Option<&str>) -> Option<Seq<char>> {
    match text {
        Some(s) => Some(s@),
        None => None,
    }
}

/// `Regex::new`, then `Regex::captures`, `Captures::get` with 1 and
/// `Match::as_str`: compiles `pattern` and hands out what its first group
/// holds in the leftmost match in `text`. Whether a pattern compiles and what
/// it matches is not described here, only given a name.
#[verifier::external_body]
fn first_group<'a>(pattern: &str, text: &'a str) -> (r: Result<Option<&'a str>, ()>)
    ensures
        r is Ok <==> regex_compiles(pattern@),
        r matches Ok(found) ==> text_view(found) == regex_first_group(pattern@, text@),
{
    let compiled = match Regex::new(pattern) {
        Ok(compiled) => compiled,
        Err(_) => {
            return Err(());
        },
    };
    match compiled.captures(text) {
        Some(groups) => match groups.get(1) {
            Some(found) => Ok(Some(found.as_str())),
            None => Ok(None),
        },
        None => Ok(None),
    }
}

/// The pattern that finds the field `field` of a record: the field's name in
/// quotes, a colon, at most one blank, then a quoted value, which is what the
/// first group holds, or an unquoted one, and behind it a comma, a line end or
/// a closing brace.
pub open spec fn field_pattern(field: Seq<char>) -> Seq<char> {
    "\""@ + field + "\": ?(?:\"(.*?)\"|.*?)(?:,|\n|})"@
}

/// Whether the pattern for `field` compiles.
pub open spec fn field_readable(field: Seq<char>) -> bool {
    regex_compiles(field_pattern(field))
}

/// What a record says in its field `field`, if it says it in quotes.
pub open spec fn field_value(text: Seq<char>, field: Seq<char>) -> Option<Seq<char>> {
    regex_first_group(field_pattern(field), text)
}

/// The pattern for `field` as a string.
fn pattern_for(field: &str) -> (pattern: String)
    ensures
        pattern@ == field_pattern(field@),
{
    let mut pattern = String::from_str("\"");
    pattern.append(field);
    pattern.append("\": ?(?:\"(.*?)\"|.*?)(?:,|\n|})");
    pattern
}

/// Why a field could not be looked for.
#[derive(Clone, Copy, Debug, PartialEq, Eq, Structural)]
pub enum FieldError {
    /// The field's name does not make a pattern.
    BadName,
}

/// Looks for the field `field` in `metadata`, for any name of a field.
pub fn try_extract_field<'a>(metadata: &'a str, field: &str) -> (r: Result<
    Option<&'a str>,
    FieldError,
>)
    ensures
        r is Ok <==> field_readable(field@),
        r matches Ok(found) ==> text_view(found) == field_value(metadata@, field@),
        r matches Err(why) ==> why == FieldError::BadName,
{
    let pattern = pattern_for(field);
    match first_group(pattern.as_str(), metadata) {
        Ok(found) => Ok(found),
        Err(_) => Err(FieldError::BadName),
    }
}

/// What `metadata` says in its field `field`, if it says it in quotes.
pub fn extract_field<'a>(metadata: &'a str, field: &str) -> (found: Option<&'a str>)
    requires
        field_readable(field@),
    ensures
        text_view(found) == field_value(metadata@, field@),
{
    match try_extract_field(metadata, field) {
        Ok(found) => found,
        Err(_) => None,
    }
}

/// The identifier of the folder that the item lies in.
pub fn parent(metadata: &str) -> (found: Option<&str>)
    requires
        field_readable("parent"@),
    ensures
        text_view(found) == field_value(metadata@, "parent"@),
{
    extract_field(metadata, "parent")
}

/// The name that the item shows.
pub fn name(metadata: &str) -> (found: Option<&str>)
    requires
        field_readable("visibleName"@),
    ensures
        text_view(found) == field_value(metadata@, "visibleName"@),
{
    extract_field(metadata, "visibleName")
}

/// What kind of item a record describes.
#[derive(Clone, Copy, Debug, PartialEq, Eq, Structural)]
pub enum Kind {
    /// A document: a leaf.
    Document,
    /// A folder, which can hold other items.
    Collection,
}

/// The kind that a record's `type` field names, if it names one.
pub open spec fn kind_named(doc_type: Seq<char>) -> Option<Kind> {
    if doc_type == "DocumentType"@ {
        Some(Kind::Document)
    } else if doc_type == "CollectionType"@ {
        Some(Kind::Collection)
    } else {
        None
    }
}

/// The kind that `doc_type` names: `DocumentType` a document, `CollectionType`
/// a folder, anything else none.
pub fn kind_of(doc_type: &str) -> (kind: Option<Kind>)
    ensures
        kind == kind_named(doc_type@),
{
    let given = doc_type.to_owned();
    if given == "DocumentType".to_owned() {
        Some(Kind::Document)
    } else if given == "CollectionType".to_owned() {
        Some(Kind::Collection)
    } else {
        None
    }
}

/// Whether `metadata` has a `type` field that names a kind.
pub open spec fn has_kind(text: Seq<char>) -> bool {
    field_value(text, "type"@) matches Some(doc_type) && kind_named(doc_type) is Some
}

/// Whether the record describes a folder. The record must name its kind.
pub fn is_folder(metadata: &str) -> (folder: bool)
    requires
        field_readable("type"@),
        has_kind(metadata@),
    ensures
        folder == (kind_named(field_value(metadata@, "type"@)->0) == Some(Kind::Collection)),
{
    match extract_field(metadata, "type") {
        Some(doc_type) => match kind_of(doc_type) {
            Some(Kind::Collection) => true,
            _ => false,
        },
        None => false,
    }
}

} // verus!
