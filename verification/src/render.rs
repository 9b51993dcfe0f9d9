//! Rendering of the manifest as a pretty-printed JSON document.
//!
//! The document is built with `serde_json`'s own values and written by its
//! pretty printer. What is trusted of that crate is stated here; how the
//! manifest becomes a JSON value is proved against it.

use vstd::prelude::*;
use crate::manifest::Manifest;
use crate::placement::{is_tree, lemma_tree_prefix, NodeView};
use crate::text::key_below;

verus! {

/// `serde_json::Value`, a JSON value of any kind.
#[verifier::external_type_specification]
#[verifier::external_body]
pub struct ExJsonValue(serde_json::Value);

/// `serde_json::Map`, the key/value map of a JSON object.
#[verifier::external_type_specification]
#[verifier::external_body]
#[verifier::reject_recursive_types(K)]
#[verifier::reject_recursive_types(V)]
pub struct ExJsonMap<K, V>(serde_json::Map<K, V>);

/// `serde_json::Error`, the error of a failed serialization.
#[verifier::external_type_specification]
#[verifier::external_body]
pub struct ExJsonError(serde_json::Error);

/// What a JSON value holds, by key path from the value itself: `None`
/// where an object stands, `Some` text where a string stands. The empty
/// path is the value itself. Nothing is said of other kinds of values.
pub uninterp spec fn json_entries(v: serde_json::Value) -> Map<Seq<Seq<char>>, Option<Seq<char>>>;

/// What the map of a JSON object holds, by key path from the object: the
/// entries of each of its values, behind the key of that value.
pub uninterp spec fn object_entries(m: serde_json::Map<String, serde_json::Value>) -> Map<
    Seq<Seq<char>>,
    Option<Seq<char>>,
>;

/// What `serde_json::to_string_pretty` gives for a JSON value that holds
/// these entries: the text it writes, or `None` where it fails. It writes
/// into memory and walks the value alone, and the crate keeps the keys of an
/// object in a sorted map, so neither the text nor the failure depends on
/// anything but the entries.
pub uninterp spec fn pretty_text(entries: Map<Seq<Seq<char>>, Option<Seq<char>>>) -> Option<
    Seq<char>,
>;

/// No entries at all.
pub open spec fn no_entries() -> Map<Seq<Seq<char>>, Option<Seq<char>>> {
    Map::empty()
}

/// The entries of a JSON string.
pub open spec fn text_entries(s: Seq<char>) -> Map<Seq<Seq<char>>, Option<Seq<char>>> {
    no_entries().insert(Seq::empty(), Some(s))
}

/// The entries of an object's map after `key` is set to a value with the
/// entries `sub`: whatever stood behind `key` is replaced, the rest stays.
pub open spec fn entries_with(
    entries: Map<Seq<Seq<char>>, Option<Seq<char>>>,
    key: Seq<char>,
    sub: Map<Seq<Seq<char>>, Option<Seq<char>>>,
) -> Map<Seq<Seq<char>>, Option<Seq<char>>> {
    Map::new(
        |q: Seq<Seq<char>>|
            if q.len() > 0 && q[0] == key {
                sub.contains_key(q.drop_first())
            } else {
                entries.contains_key(q)
            },
        |q: Seq<Seq<char>>|
            if q.len() > 0 && q[0] == key {
                sub[q.drop_first()]
            } else {
                entries[q]
            },
    )
}

/// Makes a JSON string with `serde_json::Value::String`. Trusted: the value
/// holds that string and nothing else.
#[verifier::external_body]
fn json_text(s: String) -> (v: serde_json::Value)
    ensures
        json_entries(v) == text_entries(s@),
{
    serde_json::Value::String(s)
}

/// Makes an empty map with `serde_json::Map::new`. Trusted: it holds
/// nothing.
#[verifier::external_body]
fn object_new() -> (object: serde_json::Map<String, serde_json::Value>)
    ensures
        object_entries(object) == no_entries(),
{
    serde_json::Map::new()
}

/// Sets a key with `serde_json::Map::insert`. Trusted: the value takes the
/// place of whatever the key held before, and no other key changes.
#[verifier::external_body]
fn object_insert(
    m: &mut serde_json::Map<String, serde_json::Value>,
    key: String,
    value: serde_json::Value,
)
    ensures
        object_entries(*final(m)) == entries_with(
            object_entries(*old(m)),
            key@,
            json_entries(value),
        ),
{
    m.insert(key, value);
}

/// Makes a JSON object with `serde_json::Value::Object`. Trusted: the value
/// is an object and holds what the map holds.
#[verifier::external_body]
fn json_object(m: serde_json::Map<String, serde_json::Value>) -> (v: serde_json::Value)
    ensures
        json_entries(v) == object_entries(m).insert(Seq::empty(), None),
{
    serde_json::Value::Object(m)
}

/// Calls `serde_json::to_string_pretty`. Trusted: what it gives is, by
/// definition, `pretty_text` of what the value holds, the text where it
/// succeeds and `None` where it fails. Nothing is said of when it succeeds.
#[verifier::external_body]
fn to_pretty(v: &serde_json::Value) -> (r: Result<String, serde_json::Error>)
    ensures
        r matches Ok(s) ==> pretty_text(json_entries(*v)) == Some(s@),
        r is Err ==> pretty_text(json_entries(*v)) is None,
{
    serde_json::to_string_pretty(v)
}

/// The message of a serialization error, by its `to_string`.
#[verifier::external_body]
fn error_message(e: &serde_json::Error) -> (message: String) {
    e.to_string()
}

/// What a node writes under one of the two reserved keys: its class under
/// `$className`, its source path under `$path`.
pub open spec fn marker_of(node: NodeView, key: Seq<char>) -> Option<Seq<char>> {
    if key == "$className"@ {
        node.class_name
    } else if key == "$path"@ {
        node.source
    } else {
        None
    }
}

/// The entries of the JSON object written for the node at `at`: an object
/// for the node and for each node below it, and the reserved keys of each of
/// them. A child that bears the name of a reserved key takes its place.
pub open spec fn node_entries(m: Map<Seq<Seq<char>>, NodeView>, at: Seq<Seq<char>>) -> Map<
    Seq<Seq<char>>,
    Option<Seq<char>>,
> {
    Map::new(
        |q: Seq<Seq<char>>|
            m.contains_key(at + q) || (q.len() > 0 && m.contains_key(at + q.drop_last())
                && marker_of(m[at + q.drop_last()], q.last()) is Some),
        |q: Seq<Seq<char>>|
            if m.contains_key(at + q) {
                None
            } else {
                marker_of(m[at + q.drop_last()], q.last())
            },
    )
}

/// The entries of the whole document: the project's name, and the manifest
/// under `tree`.
pub open spec fn document_entries(m: Map<Seq<Seq<char>>, NodeView>) -> Map<
    Seq<Seq<char>>,
    Option<Seq<char>>,
> {
    entries_with(
        entries_with(no_entries(), "name"@, text_entries("RojoTree"@)),
        "tree"@,
        node_entries(m, Seq::empty()),
    ).insert(Seq::empty(), None)
}

/// The entries of a node's object while it is being filled: the reserved
/// keys, and the children in `done`.
spec fn partial_entries(
    m: Map<Seq<Seq<char>>, NodeView>,
    at: Seq<Seq<char>>,
    done: Set<Seq<char>>,
) -> Map<Seq<Seq<char>>, Option<Seq<char>>> {
    Map::new(
        |q: Seq<Seq<char>>|
            q.len() > 0 && if done.contains(q[0]) {
                node_entries(m, at.push(q[0])).contains_key(q.drop_first())
            } else {
                q.len() == 1 && marker_of(m[at], q[0]) is Some
            },
        |q: Seq<Seq<char>>|
            if done.contains(q[0]) {
                node_entries(m, at.push(q[0]))[q.drop_first()]
            } else {
                marker_of(m[at], q[0])
            },
    )
}

proof fn lemma_reserved_keys_differ()
    ensures
        "$className"@ != "$path"@,
{
    reveal_strlit("$className");
    reveal_strlit("$path");
    assert("$className"@.len() == 10);
    assert("$path"@.len() == 5);
}

/// With the reserved keys written and no child yet, the object holds the
/// partial entries for the empty set.
proof fn lemma_markers_written(
    m: Map<Seq<Seq<char>>, NodeView>,
    at: Seq<Seq<char>>,
    written: Map<Seq<Seq<char>>, Option<Seq<char>>>,
)
    requires
        written == ({
            let e = no_entries();
            let e = match m[at].class_name {
                Some(c) => entries_with(e, "$className"@, text_entries(c)),
                None => e,
            };
            match m[at].source {
                Some(s) => entries_with(e, "$path"@, text_entries(s)),
                None => e,
            }
        }),
    ensures
        written == partial_entries(m, at, Set::empty()),
{
    lemma_reserved_keys_differ();
    let target = partial_entries(m, at, Set::empty());
    assert forall|q: Seq<Seq<char>>| #[trigger]
        written.dom().contains(q) == target.dom().contains(q) by {
        if q.len() > 0 {
            assert(q.len() == 1 <==> q.drop_first().len() == 0);
            assert(q.drop_first().len() == 0 <==> q.drop_first() =~= Seq::<Seq<char>>::empty());
        }
    }
    assert forall|q: Seq<Seq<char>>| written.dom().contains(q) implies #[trigger] written[q]
        == target[q] by {
        assert(q.drop_first() =~= Seq::<Seq<char>>::empty());
    }
    assert(written =~= target);
}

/// Setting the key of one more child extends the partial entries by it.
proof fn lemma_child_written(
    m: Map<Seq<Seq<char>>, NodeView>,
    at: Seq<Seq<char>>,
    done: Set<Seq<char>>,
    key: Seq<char>,
)
    ensures
        entries_with(partial_entries(m, at, done), key, node_entries(m, at.push(key)))
            == partial_entries(m, at, done.insert(key)),
{
    let left = entries_with(partial_entries(m, at, done), key, node_entries(m, at.push(key)));
    let right = partial_entries(m, at, done.insert(key));
    assert forall|q: Seq<Seq<char>>| #[trigger] left.dom().contains(q) == right.dom().contains(
        q,
    ) by {}
    assert forall|q: Seq<Seq<char>>| left.dom().contains(q) implies #[trigger] left[q]
        == right[q] by {}
    assert(left =~= right);
}

/// With every child written, the object holds the entries of the node.
proof fn lemma_all_written(
    m: Map<Seq<Seq<char>>, NodeView>,
    at: Seq<Seq<char>>,
    done: Set<Seq<char>>,
)
    requires
        is_tree(m),
        m.contains_key(at),
        forall|k: Seq<char>| done.contains(k) <==> #[trigger] m.contains_key(at.push(k)),
    ensures
        partial_entries(m, at, done).insert(Seq::empty(), None) == node_entries(m, at),
{
    let left = partial_entries(m, at, done).insert(Seq::empty(), None);
    let right = node_entries(m, at);
    assert forall|q: Seq<Seq<char>>| #[trigger] left.dom().contains(q) == right.dom().contains(
        q,
    ) by {
        lemma_entry_written(m, at, done, q);
    }
    assert forall|q: Seq<Seq<char>>| left.dom().contains(q) implies #[trigger] left[q]
        == right[q] by {
        lemma_entry_written(m, at, done, q);
    }
    assert(left =~= right);
}

proof fn lemma_entry_written(
    m: Map<Seq<Seq<char>>, NodeView>,
    at: Seq<Seq<char>>,
    done: Set<Seq<char>>,
    q: Seq<Seq<char>>,
)
    requires
        is_tree(m),
        m.contains_key(at),
        forall|k: Seq<char>| done.contains(k) <==> #[trigger] m.contains_key(at.push(k)),
    ensures
        partial_entries(m, at, done).insert(Seq::empty(), None).dom().contains(q) == node_entries(
            m,
            at,
        ).dom().contains(q),
        node_entries(m, at).dom().contains(q) ==> partial_entries(m, at, done).insert(
            Seq::empty(),
            None,
        )[q] == node_entries(m, at)[q],
{
    if q.len() == 0 {
        assert(q =~= Seq::<Seq<char>>::empty());
        assert(at + q =~= at);
    } else {
        let k = q[0];
        let rest = q.drop_first();
        let child = at.push(k);
        assert(child + rest =~= at + q);
        assert((at + q).take(at.len() as int + 1) =~= child);
        if rest.len() > 0 {
            assert(child + rest.drop_last() =~= at + q.drop_last());
            assert(rest.last() == q.last());
            assert((at + q.drop_last()).take(at.len() as int + 1) =~= child);
        } else {
            assert(at + q.drop_last() =~= at);
            assert(q.last() == k);
        }
        if !done.contains(k) {
            if m.contains_key(at + q) {
                lemma_tree_prefix(m, at + q, at.len() as int + 1);
            }
            if rest.len() > 0 && m.contains_key(at + q.drop_last()) {
                lemma_tree_prefix(m, at + q.drop_last(), at.len() as int + 1);
            }
        }
    }
}

/// The JSON object for the node at `path`, with all that stands below it.
fn node_value(m: &Manifest, path: &Vec<String>) -> (v: serde_json::Value)
    requires
        m.wf(),
        m@.contains_key(path.deep_view()),
    ensures
        json_entries(v) == node_entries(m@, path.deep_view()),
    decreases m.size() - path.len(),
{
    let ghost at = path.deep_view();
    let mut object = object_new();
    match m.node_at(path) {
        Some(info) => {
            match info.class_name {
                Some(c) => {
                    object_insert(&mut object, String::from_str("$className"), json_text(c));
                },
                None => {},
            }
            match info.source {
                Some(s) => {
                    object_insert(&mut object, String::from_str("$path"), json_text(s));
                },
                None => {},
            }
        },
        None => {},
    }
    proof {
        lemma_markers_written(m@, at, object_entries(object));
    }
    let names = m.child_names(path);
    let mut t: usize = 0;
    assert(names.deep_view().take(0).to_set() =~= Set::<Seq<char>>::empty());
    while t < names.len()
        invariant
            m.wf(),
            at == path.deep_view(),
            m@.contains_key(at),
            t <= names.len(),
            forall|k: Seq<char>|
                names.deep_view().contains(k) <==> #[trigger] m@.contains_key(at.push(k)),
            object_entries(object) == partial_entries(
                m@,
                at,
                names.deep_view().take(t as int).to_set(),
            ),
        decreases names.len() - t,
    {
        let ghost key = names[t as int]@;
        let ghost done = names.deep_view().take(t as int).to_set();
        let child = key_below(path, &names[t]);
        proof {
            assert(names.deep_view()[t as int] == key);
            assert(names.deep_view().contains(key));
            assert(m@.contains_key(at.push(key)));
            m.lemma_depth_below_size(child.deep_view());
        }
        let sub = node_value(m, &child);
        object_insert(&mut object, names[t].clone(), sub);
        proof {
            lemma_child_written(m@, at, done, key);
            let longer = names.deep_view().take(t + 1);
            assert(longer =~= names.deep_view().take(t as int).push(key));
            assert forall|k: Seq<char>| #[trigger]
                longer.to_set().contains(k) == done.insert(key).contains(k) by {
                if longer.contains(k) {
                    let i = choose|i: int| 0 <= i < longer.len() && longer[i] == k;
                    if i < t {
                        assert(names.deep_view().take(t as int)[i] == k);
                    }
                }
                if names.deep_view().take(t as int).contains(k) {
                    let i = choose|i: int|
                        0 <= i < t && names.deep_view().take(t as int)[i] == k;
                    assert(longer[i] == k);
                }
                if k == key {
                    assert(longer[t as int] == k);
                }
            }
            assert(longer.to_set() =~= done.insert(key));
        }
        t += 1;
    }
    proof {
        assert(names.deep_view().take(names.len() as int) =~= names.deep_view());
        m.lemma_is_tree();
        lemma_all_written(m@, at, names.deep_view().to_set());
    }
    json_object(object)
}

/// The JSON value of the whole document.
fn document_value(m: &Manifest) -> (v: serde_json::Value)
    requires
        m.wf(),
    ensures
        json_entries(v) == document_entries(m@),
{
    let top: Vec<String> = Vec::new();
    assert(top.deep_view() =~= Seq::<Seq<char>>::empty());
    proof {
        m.lemma_is_tree();
    }
    let tree = node_value(m, &top);
    let mut object = object_new();
    object_insert(&mut object, String::from_str("name"), json_text(String::from_str("RojoTree")));
    object_insert(&mut object, String::from_str("tree"), tree);
    json_object(object)
}

/// The manifest could not be written as JSON.
#[derive(Debug)]
pub struct SerializationError {
    /// What the serializer reported.
    pub message: String,
}

/// Turns the serializer's answer into the library's: the text as it is, an
/// error by its message.
pub fn finish_render(answer: Result<String, serde_json::Error>) -> (r: Result<
    String,
    SerializationError,
>)
    ensures
        answer is Ok ==> r is Ok && r->Ok_0 == answer->Ok_0,
        answer is Err ==> r is Err,
{
    match answer {
        Ok(text) => Ok(text),
        Err(e) => Err(SerializationError { message: error_message(&e) }),
    }
}

/// Writes the manifest as a pretty-printed JSON document: the project's
/// name, and under `tree` one object per node, with `$className` for a
/// node's class, `$path` for its source path, and its children by name.
/// The document is handed to the serializer whole; the result is the text
/// the serializer writes for it, and an error exactly where the serializer
/// fails on it.
pub fn render_manifest(m: &Manifest) -> (r: Result<String, SerializationError>)
    requires
        m.wf(),
    ensures
        r matches Ok(text) ==> pretty_text(document_entries(m@)) == Some(text@),
        r is Err ==> pretty_text(document_entries(m@)) is None,
{
    let value = document_value(m);
    finish_render(to_pretty(&value))
}

} // verus!
