//! One full pass: the files that the walk found are classified, folded into
//! a fresh manifest, and the manifest is rendered. Nothing is written here;
//! a pass that fails hands back no text at all.

use vstd::prelude::*;
use crate::builder::{build_manifest, built, views};
use crate::classify::{classify, get_virtual_path, VirtualPath, VirtualPathView};
use crate::manifest::NamingCollision;
use crate::placement::CollisionView;
use crate::render::{document_entries, pretty_text, render_manifest, SerializationError};
use crate::walker::Walker;

verus! {

/// Why a pass failed.
#[derive(Debug)]
pub enum GenerateError {
    /// A path segment cannot be represented as text.
    PathEncoding,
    /// Two source files resolve to the same key of the manifest.
    NamingCollision(NamingCollision),
    /// The manifest could not be rendered.
    Serialization(SerializationError),
}

/// The classifications of the files, in their order.
pub open spec fn classified(files: Seq<Seq<Seq<char>>>) -> Seq<VirtualPathView> {
    Seq::new(files.len(), |i: int| classify(files[i]))
}

/// What a pass over the files comes to: the collision that fails it, or
/// what the serializer gives for the document of its manifest, the text or
/// `None` where the serializer fails.
pub open spec fn document_of(files: Seq<Seq<Seq<char>>>) -> Result<
    Option<Seq<char>>,
    CollisionView,
> {
    match built(classified(files)) {
        Ok(m) => Ok(pretty_text(document_entries(m))),
        Err(c) => Err(c),
    }
}

/// What a pass over the files hands back: the document; the collision that
/// fails the pass; or, for a pass without a collision, a serialization
/// error exactly where the serializer fails on the document.
pub open spec fn is_pass_result(files: Seq<Seq<Seq<char>>>, r: Result<String, GenerateError>) -> bool {
    match document_of(files) {
        Ok(Some(text)) => r matches Ok(written) && written@ == text,
        Ok(None) => r matches Err(e) && e is Serialization,
        Err(c) => r matches Err(GenerateError::NamingCollision(e)) && e@ == c,
    }
}

/// Two passes over the same files, in the same order, write the same text.
pub proof fn lemma_same_files_same_text(
    files: Seq<Seq<Seq<char>>>,
    first: Result<String, GenerateError>,
    second: Result<String, GenerateError>,
)
    requires
        is_pass_result(files, first),
        is_pass_result(files, second),
        first is Ok,
        second is Ok,
    ensures
        first->Ok_0@ == second->Ok_0@,
{
}

/// A pass over files that collide writes nothing, however often it is run.
pub proof fn lemma_collision_fails_every_pass(
    files: Seq<Seq<Seq<char>>>,
    r: Result<String, GenerateError>,
)
    requires
        is_pass_result(files, r),
        document_of(files) is Err,
    ensures
        r is Err,
        r->Err_0 is NamingCollision,
{
}

/// Classifies every file, in the order given.
pub fn classify_all(files: &Vec<Vec<String>>) -> (items: Vec<VirtualPath>)
    requires
        forall|i: int| 0 <= i < files.len() ==> (#[trigger] files[i]).len() > 0,
    ensures
        views(items@) == classified(files.deep_view()),
{
    let mut items: Vec<VirtualPath> = Vec::new();
    let mut i: usize = 0;
    while i < files.len()
        invariant
            i <= files.len(),
            items.len() == i,
            forall|k: int| 0 <= k < files.len() ==> (#[trigger] files[k]).len() > 0,
            forall|k: int| 0 <= k < i ==> (#[trigger] items[k])@ == classify(files[k].deep_view()),
        decreases files.len() - i,
    {
        items.push(get_virtual_path(&files[i]));
        i += 1;
    }
    assert(views(items@) =~= classified(files.deep_view()));
    items
}

/// Generates the project document for the given script files, each by its
/// path segments below the source root, in the order of the walk. Two
/// passes over the same files give the same text.
pub fn generate_project_file(files: &Vec<Vec<String>>) -> (r: Result<String, GenerateError>)
    requires
        forall|i: int| 0 <= i < files.len() ==> (#[trigger] files[i]).len() > 0,
    ensures
        is_pass_result(files.deep_view(), r),
{
    let items = classify_all(files);
    match build_manifest(&items) {
        Ok(manifest) => match render_manifest(&manifest) {
            Ok(text) => Ok(text),
            Err(e) => Err(GenerateError::Serialization(e)),
        },
        Err(c) => Err(GenerateError::NamingCollision(c)),
    }
}

/// Generates the project document for the files that a walk has found. A
/// walk that failed on a name that is no text fails the pass.
pub fn generate_from_walk(walker: Walker) -> (r: Result<String, GenerateError>)
    requires
        walker.wf(),
    ensures
        walker@.failed ==> r matches Err(GenerateError::PathEncoding),
        !walker@.failed ==> is_pass_result(walker@.files, r),
{
    if walker.has_failed() {
        return Err(GenerateError::PathEncoding);
    }
    let files = walker.into_files();
    assert forall|i: int| 0 <= i < files.len() implies (#[trigger] files[i]).len() > 0 by {
        assert(files.deep_view()[i].len() > 0);
    }
    generate_project_file(&files)
}

} // verus!
