use vstd::prelude::*;

use crate::json::{
    entries_view, find_key, lemma_entries_view, lemma_lookup_first, lookup, put, put_entry, Json,
    Tree,
};
use crate::json::{has_key, well_formed};
use crate::resolver::{Env, Resolver};

verus! {

#[verifier::external_type_specification]
#[verifier::external_body]
pub struct ExValue(serde_json::Value);

/// Whether a document decodes as an OpenAPI description (see [`openapi_accepts`]).
pub uninterp spec fn openapi_valid(t: Tree) -> bool;

/// The tree as a `serde_json::Value`, node for node; a number goes back to a
/// JSON number from its text (to a string should the text be no JSON number).
#[verifier::external_body]
fn value_of(j: &Json) -> serde_json::Value {
    match j {
        Json::Null => serde_json::Value::Null,
        Json::Bool(b) => serde_json::Value::Bool(*b),
        Json::Number(n) => n.parse().map(serde_json::Value::Number).unwrap_or_else(|_| serde_json::Value::String(n.clone())),
        Json::Str(s) => serde_json::Value::String(s.clone()),
        Json::Array(xs) => serde_json::Value::Array(xs.iter().map(value_of).collect()),
        Json::Object(es) => serde_json::Value::Object(es.iter().map(|(k, v)| (k.clone(), value_of(v))).collect()),
    }
}

/// Relies on `serde_json::from_value::<openapiv3::OpenAPI>`: whether the tree
/// decodes into openapiv3's OpenAPI model. The answer depends on the tree alone.
#[verifier::external_body]
fn openapi_accepts(j: &Json) -> (r: bool)
    ensures
        r == openapi_valid(j@),
{
    serde_json::from_value::<openapiv3::OpenAPI>(value_of(j)).is_ok()
}

/// The placeholder `info` object: an empty title and version.
pub open spec fn blank_info() -> Tree {
    Tree::Object(seq![("title"@, Tree::Str(Seq::empty())), ("version"@, Tree::Str(Seq::empty()))])
}

/// A document fragment patched with the fields that a whole document needs, so
/// that it can be checked as one: `openapi` set to the root's version, a blank
/// `info` and empty `paths`. Anything but an object is left as it is.
pub open spec fn patched(t: Tree, version: Seq<char>) -> Tree {
    match t {
        Tree::Object(es) => Tree::Object(
            put(
                put(put(es, "openapi"@, Tree::Str(version)), "info"@, blank_info()),
                "paths"@,
                Tree::Object(Seq::empty()),
            ),
        ),
        _ => t,
    }
}

/// The `openapi` version string of the root document, once it is loaded.
pub open spec fn root_version(docs: Seq<(Seq<char>, Tree)>, root: Seq<char>) -> Option<Seq<char>> {
    match lookup(docs, root) {
        Some(Tree::Object(es)) => match lookup(es, "openapi"@) {
            Some(Tree::Str(v)) => Some(v),
            _ => None,
        },
        _ => None,
    }
}

/// A copy of `value` patched for checking as a whole document (see [`patched`]).
pub fn relaxed_probe(value: &Json, version: &String) -> (r: Json)
    ensures
        r@ == patched(value@, version@),
{
    let copy = value.copy();
    match copy {
        Json::Object(es) => {
            let mut es = es;
            put_entry(&mut es, String::from_str("openapi"), Json::Str(version.clone()));
            let mut info: Vec<(String, Json)> = Vec::new();
            info.push((String::from_str("title"), Json::Str(String::new())));
            info.push((String::from_str("version"), Json::Str(String::new())));
            proof {
                lemma_entries_view(info@);
                assert(entries_view(info@) =~= seq![("title"@, Tree::Str(Seq::empty())), ("version"@, Tree::Str(Seq::empty()))]);
            }
            put_entry(&mut es, String::from_str("info"), Json::Object(info));
            let empty: Vec<(String, Json)> = Vec::new();
            proof {
                assert(entries_view(empty@) =~= Seq::empty());
            }
            put_entry(&mut es, String::from_str("paths"), Json::Object(empty));
            Json::Object(es)
        },
        other => other,
    }
}

impl Resolver {
    /// The `openapi` version string of the root document, once it is loaded.
    pub fn version(&self) -> (r: Option<String>)
        ensures
            match r {
                Some(v) => root_version(self.env().docs, self.file@) == Some(v@),
                None => root_version(self.env().docs, self.file@) is None,
            },
    {
        let ghost docs = self.env().docs;
        let found = find_key(&self.files, &self.file);
        proof {
            lemma_entries_view(self.files@);
            let i: int = match found {
                Some(i) => i as int,
                None => self.files@.len() as int,
            };
            assert forall|j: int| 0 <= j < i implies (#[trigger] docs[j]).0 != self.file@ by {
                assert(docs[j].0 == self.files@[j].0@);
            }
            lemma_lookup_first(docs, self.file@, i);
        }
        match found {
            Some(i) => match self.files[i].1.get(&String::from_str("openapi")) {
                Some(Json::Str(v)) => Some(v.clone()),
                _ => None,
            },
            None => None,
        }
    }
}

/// Whether a loaded document is accepted: well formed, and decoding as a whole
/// OpenAPI description once patched with the root's version, when the root is
/// loaded; as it stands otherwise.
pub open spec fn accepted(docs: Seq<(Seq<char>, Tree)>, root: Seq<char>, doc: Tree) -> bool {
    well_formed(doc) && match root_version(docs, root) {
        Some(v) => openapi_valid(patched(doc, v)),
        None => openapi_valid(doc),
    }
}

impl Resolver {
    /// A session on the canonical root `file`, whose document must be well
    /// formed and decode as a whole OpenAPI description; else the file, refused.
    pub fn open(file: String, doc: Json) -> (r: Result<Resolver, String>)
        ensures
            r is Ok <==> well_formed(doc@) && openapi_valid(doc@),
            match r {
                Ok(s) => s.wf() && s.env() == (Env {
                    docs: seq![(file@, doc@)],
                    paths: Seq::empty(),
                    root: file@,
                }),
                Err(f) => f@ == file@,
            },
    {
        if doc.well_formed() && openapi_accepts(&doc) {
            Ok(Resolver::new(file, doc))
        } else {
            Err(file)
        }
    }

    /// Records the document of a canonical file once it is accepted: checked
    /// as a fragment patched with the root's version, while the unpatched
    /// document is what is kept. A refused file leaves the session as it was.
    pub fn load(&mut self, file: String, doc: Json) -> (r: Result<(), String>)
        requires
            old(self).wf(),
        ensures
            final(self).wf(),
            r is Ok <==> accepted(old(self).env().docs, old(self).file@, doc@),
            r is Ok ==> final(self).env().docs == if has_key(old(self).env().docs, file@) {
                old(self).env().docs
            } else {
                old(self).env().docs.push((file@, doc@))
            } && final(self).env().paths == old(self).env().paths && final(self).file
                == old(self).file,
            r matches Err(f) ==> final(self).env() == old(self).env() && f@ == file@,
    {
        if !doc.well_formed() {
            return Err(file);
        }
        let ok = match self.version() {
            Some(v) => openapi_accepts(&relaxed_probe(&doc, &v)),
            None => openapi_accepts(&doc),
        };
        if ok {
            self.add_file(file, doc);
            Ok(())
        } else {
            Err(file)
        }
    }
}

} // verus!
