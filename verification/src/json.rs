//! Writing the cached tree as a JSON document.
//!
//! Every node is an object with its `path` and the list of its
//! `children`; every node but the root has its `name` too. The children
//! of a node stand in ascending order of their names.

use vstd::prelude::*;
use vstd::string::*;
use crate::cache::{DiskCache, DiskCacheView};
use crate::entry::DirEntryView;
use crate::error::PTreeError;
use crate::order::{sorted_copy, sorted_names};
use crate::path::{join, path_join};
use crate::render::at_limit;
use crate::text::texts;

verus! {

/// A JSON value of serde_json.
#[verifier::external_type_specification]
#[verifier::external_body]
pub struct ExJsonValue(serde_json::Value);

/// The error of serde_json.
#[verifier::external_type_specification]
#[verifier::external_body]
pub struct ExJsonError(serde_json::Error);

/// What a JSON value holds: nothing, a truth value, a number (by the
/// characters that write it), a text, a list of values, or an object with
/// a value for each of its keys.
pub enum JsonModel {
    Null,
    Bool(bool),
    Number(Seq<char>),
    Text(Seq<char>),
    List(Seq<JsonModel>),
    Object(Map<Seq<char>, JsonModel>),
}

/// What the JSON value holds.
pub uninterp spec fn json_model(v: serde_json::Value) -> JsonModel;

/// The compact text of a JSON value.
pub uninterp spec fn compact_json_text(m: JsonModel) -> Seq<char>;

/// The indented text of a JSON value.
pub uninterp spec fn pretty_json_text(m: JsonModel) -> Seq<char>;

/// What each value of a list holds.
pub open spec fn models_of(values: Seq<serde_json::Value>) -> Seq<JsonModel> {
    Seq::new(values.len(), |i: int| json_model(values[i]))
}

/// No key occurs in two fields.
pub open spec fn distinct_fields(fields: Seq<(String, serde_json::Value)>) -> bool {
    forall|i: int, j: int| 0 <= i < j < fields.len() ==> fields[i].0@ != fields[j].0@
}

/// The object with the given fields, each under its key.
pub open spec fn fields_model(fields: Seq<(String, serde_json::Value)>) -> Map<Seq<char>, JsonModel>
    decreases fields.len(),
{
    if fields.len() == 0 {
        Map::empty()
    } else {
        fields_model(fields.drop_last()).insert(fields.last().0@, json_model(fields.last().1))
    }
}

/// `Value::String` of serde_json holds the text given.
#[verifier::external_body]
fn json_string(s: &str) -> (v: serde_json::Value)
    ensures
        json_model(v) == JsonModel::Text(s@),
{
    serde_json::Value::String(s.to_string())
}

/// `Value::Array` of serde_json holds the values given, in order.
#[verifier::external_body]
fn json_array(items: Vec<serde_json::Value>) -> (v: serde_json::Value)
    ensures
        json_model(v) == JsonModel::List(models_of(items@)),
{
    serde_json::Value::Array(items)
}

/// `Value::Object` of serde_json, over a `Map` collected from fields
/// with distinct keys, holds for each key the value of its field.
#[verifier::external_body]
fn json_object(fields: Vec<(String, serde_json::Value)>) -> (v: serde_json::Value)
    ensures
        distinct_fields(fields@) ==> json_model(v) == JsonModel::Object(fields_model(fields@)),
{
    serde_json::Value::Object(fields.into_iter().collect())
}

/// `Value::to_string` of serde_json writes the value as compact JSON.
#[verifier::external_body]
fn json_compact(v: &serde_json::Value) -> (text: String)
    ensures
        text@ == compact_json_text(json_model(*v)),
{
    v.to_string()
}

/// `serde_json::to_string_pretty` writes the value as indented JSON. On
/// a `Value` it does not fail: it writes into memory, and the keys of a
/// `Value`'s objects are strings.
#[verifier::external_body]
fn json_pretty(v: &serde_json::Value) -> (r: Result<String, serde_json::Error>)
    ensures
        r is Ok,
        r->Ok_0@ == pretty_json_text(json_model(*v)),
{
    serde_json::to_string_pretty(v)
}

/// The object of a node below the root: its name, its path and the list
/// of its children.
pub open spec fn child_model(name: Seq<char>, path: Seq<char>, children: Seq<JsonModel>) -> JsonModel {
    JsonModel::Object(
        Map::empty().insert("name"@, JsonModel::Text(name)).insert("path"@, JsonModel::Text(path)).insert(
            "children"@,
            JsonModel::List(children),
        ),
    )
}

/// The object of the root: its path and the list of its children.
pub open spec fn root_model(path: Seq<char>, children: Seq<JsonModel>) -> JsonModel {
    JsonModel::Object(
        Map::empty().insert("path"@, JsonModel::Text(path)).insert("children"@, JsonModel::List(children)),
    )
}

fn json_child(name: &str, path: &str, children: Vec<serde_json::Value>) -> (v: serde_json::Value)
    ensures
        json_model(v) == child_model(name@, path@, models_of(children@)),
{
    let mut fields: Vec<(String, serde_json::Value)> = Vec::new();
    fields.push((String::from_str("name"), json_string(name)));
    fields.push((String::from_str("path"), json_string(path)));
    fields.push((String::from_str("children"), json_array(children)));
    proof {
        let f = fields@;
        assert(f.drop_last().drop_last().drop_last() =~= Seq::empty());
        reveal_with_fuel(fields_model, 4);
        reveal_strlit("name");
        reveal_strlit("path");
        reveal_strlit("children");
        assert("name"@[0] != "path"@[0]);
        assert("name"@.len() != "children"@.len());
        assert("path"@.len() != "children"@.len());
    }
    json_object(fields)
}

fn json_root(path: &str, children: Vec<serde_json::Value>) -> (v: serde_json::Value)
    ensures
        json_model(v) == root_model(path@, models_of(children@)),
{
    let mut fields: Vec<(String, serde_json::Value)> = Vec::new();
    fields.push((String::from_str("path"), json_string(path)));
    fields.push((String::from_str("children"), json_array(children)));
    proof {
        let f = fields@;
        assert(f.drop_last().drop_last() =~= Seq::empty());
        reveal_with_fuel(fields_model, 3);
        reveal_strlit("path");
        reveal_strlit("children");
        assert("path"@.len() != "children"@.len());
    }
    json_object(fields)
}

/// The documents of the children of the node at `path`, in ascending
/// order of their names; none at the depth limit, where the node has no
/// entry, or when the budget is used up.
pub open spec fn json_children(
    entries: Map<Seq<char>, DirEntryView>,
    path: Seq<char>,
    depth: nat,
    max_depth: Option<usize>,
    budget: nat,
) -> Seq<JsonModel>
    decreases budget, 1nat, 0nat,
{
    if budget == 0 || at_limit(depth, max_depth) || !entries.dom().contains(path) {
        Seq::empty()
    } else {
        json_children_from(entries, path, sorted_names(entries[path].children), 0, depth, max_depth, budget)
    }
}

/// The documents of the children `names[from..]` of the node at `path`.
pub open spec fn json_children_from(
    entries: Map<Seq<char>, DirEntryView>,
    path: Seq<char>,
    names: Seq<Seq<char>>,
    from: nat,
    depth: nat,
    max_depth: Option<usize>,
    budget: nat,
) -> Seq<JsonModel>
    decreases budget, 0nat, names.len() - from,
{
    if from >= names.len() || budget == 0 {
        Seq::empty()
    } else {
        let name = names[from as int];
        let child_path = path_join(path, name);
        seq![
            child_model(
                name,
                child_path,
                json_children(entries, child_path, depth + 1, max_depth, (budget - 1) as nat),
            ),
        ] + json_children_from(entries, path, names, from + 1, depth, max_depth, budget)
    }
}

/// The document of a cache: the root with its path, and below it the
/// tree down to the depth limit. A cache without entries gives the root
/// alone.
pub open spec fn json_document(c: DiskCacheView, max_depth: Option<usize>) -> JsonModel {
    if c.entries.dom().len() == 0 {
        root_model(c.root, Seq::empty())
    } else {
        root_model(c.root, json_children(c.entries, c.root, 0, max_depth, c.entries.dom().len()))
    }
}

/// The values of the children of the node at `path`.
fn populate_json(cache: &DiskCache, path: &str, current_depth: usize, max_depth: Option<usize>, budget: usize) -> (r:
    Vec<serde_json::Value>)
    requires
        current_depth + budget <= usize::MAX,
    ensures
        models_of(r@) == json_children(cache@.entries, path@, current_depth as nat, max_depth, budget as nat),
    decreases budget,
{
    let mut out: Vec<serde_json::Value> = Vec::new();
    if budget == 0 {
        assert(models_of(out@) =~= Seq::<JsonModel>::empty());
        return out;
    }
    if let Some(max) = max_depth {
        if current_depth >= max {
            assert(models_of(out@) =~= Seq::<JsonModel>::empty());
            return out;
        }
    }
    match cache.get_entry(path) {
        None => {
            assert(models_of(out@) =~= Seq::<JsonModel>::empty());
        },
        Some(entry) => {
            let children = sorted_copy(&entry.children, true);
            let ghost names = texts(children@);
            let ghost entries = cache@.entries;
            let n = children.len();
            let mut i: usize = 0;
            assert(models_of(out@) =~= Seq::<JsonModel>::empty());
            while i < n
                invariant
                    i <= n,
                    n == children@.len(),
                    names == texts(children@),
                    entries == cache@.entries,
                    budget > 0,
                    current_depth + budget <= usize::MAX,
                    models_of(out@) + json_children_from(
                        entries,
                        path@,
                        names,
                        i as nat,
                        current_depth as nat,
                        max_depth,
                        budget as nat,
                    ) == json_children_from(entries, path@, names, 0, current_depth as nat, max_depth, budget as nat),
                decreases n - i,
            {
                let name = &children[i];
                let child_path = join(path, name.as_str());
                let below = populate_json(cache, child_path.as_str(), current_depth + 1, max_depth, budget - 1);
                let value = json_child(name.as_str(), child_path.as_str(), below);
                let ghost before = models_of(out@);
                out.push(value);
                proof {
                    assert(names[i as int] == name@);
                    assert(models_of(out@) =~= before + seq![json_model(value)]);
                    let rest = json_children_from(
                        entries,
                        path@,
                        names,
                        (i + 1) as nat,
                        current_depth as nat,
                        max_depth,
                        budget as nat,
                    );
                    assert(before + (seq![json_model(value)] + rest) =~= (before + seq![json_model(value)]) + rest);
                }
                i += 1;
            }
            assert(models_of(out@) + Seq::<JsonModel>::empty() =~= models_of(out@));
        },
    }
    out
}

/// What becomes of the outcome of writing the document: the text, or a
/// serialization error.
pub fn json_output_from(outcome: Result<String, serde_json::Error>) -> (r: Result<String, PTreeError>)
    ensures
        match outcome {
            Ok(text) => r == Ok::<String, PTreeError>(text),
            Err(_) => r is Err && r->Err_0 is Serialization,
        },
{
    match outcome {
        Ok(text) => Ok(text),
        Err(_) => Err(PTreeError::Serialization(String::from_str("the JSON document could not be written"))),
    }
}

impl DiskCache {
    /// The tree as a JSON document, down to `max_depth` levels below the
    /// root where a limit is given. A cache without entries gives the root
    /// alone, written compactly; any other is written indented.
    pub fn build_json_output_with_depth(&self, max_depth: Option<usize>) -> (r: Result<String, PTreeError>)
        ensures
            r is Ok,
            self@.entries.dom().len() == 0 ==> r->Ok_0@ == compact_json_text(json_document(self@, max_depth)),
            self@.entries.dom().len() != 0 ==> r->Ok_0@ == pretty_json_text(json_document(self@, max_depth)),
    {
        if self.entries.is_empty() {
            let none: Vec<serde_json::Value> = Vec::new();
            assert(models_of(none@) =~= Seq::<JsonModel>::empty());
            let root = json_root(self.root.as_str(), none);
            return Ok(json_compact(&root));
        }
        let budget = self.entries.len();
        let children = populate_json(self, self.root.as_str(), 0, max_depth, budget);
        let root = json_root(self.root.as_str(), children);
        json_output_from(json_pretty(&root))
    }

    /// The whole tree as a JSON document.
    pub fn build_json_output(&self) -> (r: Result<String, PTreeError>)
        ensures
            r is Ok,
            self@.entries.dom().len() == 0 ==> r->Ok_0@ == compact_json_text(json_document(self@, None)),
            self@.entries.dom().len() != 0 ==> r->Ok_0@ == pretty_json_text(json_document(self@, None)),
    {
        self.build_json_output_with_depth(None)
    }
}

} // verus!
