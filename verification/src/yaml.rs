//! Reading YAML text into documents, by way of the `yaml_rust` loader.

use crate::document::{Document, DocumentView, Entry};
use vstd::prelude::*;
use yaml_rust::{Yaml, YamlLoader};

verus! {

/// A YAML node as `yaml_rust` holds it. Nothing of it is visible here but
/// through `yaml_content`.
#[verifier::external_type_specification]
#[verifier::external_body]
pub struct ExYaml(Yaml);

/// The document that a YAML node stands for: a hash is a mapping with its
/// entries in the order in which the hash iterates, a string scalar is a
/// text, and every other node is `Other`.
pub uninterp spec fn yaml_content(yaml: Yaml) -> DocumentView;

/// What `YamlLoader::load_from_str` makes of a text: the documents in it, in
/// order, or the scanner's message where the text is not well-formed YAML.
pub uninterp spec fn yaml_load(text: Seq<char>) -> Result<Seq<DocumentView>, Seq<char>>;

/// The documents that a list of YAML nodes stands for.
pub open spec fn yaml_contents(yamls: Seq<Yaml>) -> Seq<DocumentView> {
    Seq::new(yamls.len(), |i: int| yaml_content(yamls[i]))
}

/// What a list of documents holds.
pub open spec fn document_views(docs: Seq<Document>) -> Seq<DocumentView> {
    Seq::new(docs.len(), |i: int| docs[i]@)
}

/// Loads the YAML documents of `text`.
///
/// Trusted: calls `YamlLoader::load_from_str`, which returns the nodes of
/// the documents in the text, or a `ScanError` where the text is malformed.
/// The error is handed on as its displayed message. The contract only names
/// the outcome; it claims that the same text always loads the same way.
#[verifier::external_body]
pub(crate) fn load_yaml(text: &str) -> (loaded: Result<Vec<Yaml>, String>)
    ensures
        match loaded {
            Ok(yamls) => yaml_load(text@) == Ok::<Seq<DocumentView>, Seq<char>>(
                yaml_contents(yamls@),
            ),
            Err(message) => yaml_load(text@) == Err::<Seq<DocumentView>, Seq<char>>(message@),
        },
{
    match YamlLoader::load_from_str(text) {
        Ok(yamls) => Ok(yamls),
        Err(error) => Err(format!("{}", error)),
    }
}

/// Copies a YAML node into a document.
///
/// Trusted: tells the variants of `yaml_rust::Yaml` apart and walks a hash
/// with `LinkedHashMap::iter`, which visits the entries in insertion order.
/// The contract says that the copy is what `yaml_content` names.
#[verifier::external_body]
pub(crate) fn document_of(yaml: &Yaml) -> (doc: Document)
    ensures
        doc@ == yaml_content(*yaml),
{
    match yaml {
        Yaml::Hash(hash) => Document::Mapping(
            hash.iter().map(|(k, v)| Entry { key: document_of(k), value: document_of(v) }).collect(),
        ),
        Yaml::String(text) => Document::Text(text.clone()),
        Yaml::Real(_) | Yaml::Integer(_) | Yaml::Boolean(_) | Yaml::Array(_) => Document::Other,
        Yaml::Alias(_) | Yaml::Null | Yaml::BadValue => Document::Other,
    }
}

} // verus!
