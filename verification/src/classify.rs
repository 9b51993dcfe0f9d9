//! Classification of one script file: where it is mounted and under what
//! name, decided from its path below the source root alone.

use vstd::prelude::*;
use crate::text::{
    has_infix, has_suffix, lowercase_of, pascal_case, slash_join, contains_text, ends_with_text,
    join_onto, lower_of, same_text, to_pascal_case,
};

verus! {

/// The top-level group a file is deployed to.
#[derive(Clone, Copy, PartialEq, Eq, Structural, Debug)]
pub enum Target {
    /// Server-only code.
    ServerGroup,
    /// Code shared between server and clients.
    SharedGroup,
}

/// Where a source file is mounted, and under what name.
#[derive(Clone, Debug)]
pub struct VirtualPath {
    /// The file stands for its folder.
    pub is_init: bool,
    /// The group the file is deployed to.
    pub target: Target,
    /// The pascal-cased folders between the root and the file.
    pub folder: Vec<String>,
    /// The logical name of the entry.
    pub name: String,
    /// The declared source path, written with forward slashes.
    pub file: String,
}

/// The mathematical value of a `VirtualPath`.
pub struct VirtualPathView {
    pub is_init: bool,
    pub target: Target,
    pub folder: Seq<Seq<char>>,
    pub name: Seq<char>,
    pub file: Seq<char>,
}

impl View for VirtualPath {
    type V = VirtualPathView;

    open spec fn view(&self) -> VirtualPathView {
        VirtualPathView {
            is_init: self.is_init,
            target: self.target,
            folder: self.folder.deep_view(),
            name: self.name@,
            file: self.file@,
        }
    }
}

/// A file name carries the script extension when it ends in `.luau` and has
/// at least one character before that.
pub open spec fn has_script_extension(name: Seq<char>) -> bool {
    name.len() > 5 && has_suffix(name, ".luau"@)
}

/// The file name without its script extension.
pub open spec fn stem_of(name: Seq<char>) -> Seq<char> {
    if has_script_extension(name) {
        name.take(name.len() - 5)
    } else {
        name
    }
}

/// The folder chain in canonical form: empty segments and `.` are dropped,
/// and `..` cancels the folder before it (at the root it is dropped).
pub open spec fn resolve_dots(dirs: Seq<Seq<char>>) -> Seq<Seq<char>>
    decreases dirs.len(),
{
    if dirs.len() == 0 {
        Seq::empty()
    } else {
        let before = resolve_dots(dirs.drop_last());
        let seg = dirs.last();
        if seg.len() == 0 || seg == "."@ {
            before
        } else if seg == ".."@ {
            if before.len() > 0 {
                before.drop_last()
            } else {
                before
            }
        } else {
            before.push(seg)
        }
    }
}

/// Every folder of the chain, pascal-cased.
pub open spec fn pascal_each(dirs: Seq<Seq<char>>) -> Seq<Seq<char>> {
    Seq::new(dirs.len(), |i: int| pascal_case(dirs[i]))
}

/// The group chosen by a lowercased stem: the server group when it mentions
/// `server`, the shared group otherwise.
pub open spec fn target_of(lowered_stem: Seq<char>) -> Target {
    if has_infix(lowered_stem, "server"@) {
        Target::ServerGroup
    } else {
        Target::SharedGroup
    }
}

/// The lowercased stem is one of the role names that take the folder's name
/// in front.
pub open spec fn is_role(lowered_stem: Seq<char>) -> bool {
    lowered_stem == "server"@ || lowered_stem == "client"@ || lowered_stem == "utils"@
        || lowered_stem == "types"@
}

/// The logical name, decided from the stem, its lowercase and pascal-case
/// forms, and the pascal-cased name of the containing folder.
pub open spec fn name_from(
    stem: Seq<char>,
    lowered_stem: Seq<char>,
    pascal_stem: Seq<char>,
    folder_name: Seq<char>,
) -> Seq<char> {
    if stem == "init"@ {
        folder_name
    } else if is_role(lowered_stem) {
        folder_name + pascal_stem
    } else {
        stem
    }
}

/// The declared source path: `src`, then the segments as they were given. An
/// init file is declared by its folder, so its own name is left out.
pub open spec fn source_path(segments: Seq<Seq<char>>, is_init: bool) -> Seq<char> {
    slash_join(
        seq!["src"@] + if is_init {
            segments.drop_last()
        } else {
            segments
        },
    )
}

/// The classification of the file with the given path segments below the
/// root, the file's own name last.
pub open spec fn classify(segments: Seq<Seq<char>>) -> VirtualPathView {
    let stem = stem_of(segments.last());
    let folder = pascal_each(resolve_dots(segments.drop_last()));
    let folder_name = if folder.len() > 0 {
        folder.last()
    } else {
        Seq::empty()
    };
    VirtualPathView {
        is_init: stem == "init"@,
        target: target_of(lowercase_of(stem)),
        folder,
        name: name_from(stem, lowercase_of(stem), pascal_case(stem), folder_name),
        file: source_path(segments, stem == "init"@),
    }
}

/// Whether a file name carries the script extension.
pub fn is_script_file(name: &str) -> (b: bool)
    ensures
        b == has_script_extension(name@),
{
    name.unicode_len() > 5 && ends_with_text(name, ".luau")
}

/// The file name without its script extension.
pub fn file_stem(name: &str) -> (stem: String)
    ensures
        stem@ == stem_of(name@),
{
    if is_script_file(name) {
        let n = name.unicode_len();
        let kept = name.substring_char(0, n - 5);
        assert(name@.subrange(0, n - 5) =~= name@.take(n - 5));
        String::from_str(kept)
    } else {
        String::from_str(name)
    }
}

/// The group for a stem, given in lowercase.
pub fn target_for(lowered_stem: &str) -> (t: Target)
    ensures
        t == target_of(lowered_stem@),
{
    if contains_text(lowered_stem, "server") {
        Target::ServerGroup
    } else {
        Target::SharedGroup
    }
}

/// Whether a stem, given in lowercase, is one of the role names.
pub fn is_role_stem(lowered_stem: &str) -> (b: bool)
    ensures
        b == is_role(lowered_stem@),
{
    same_text(lowered_stem, "server") || same_text(lowered_stem, "client") || same_text(
        lowered_stem,
        "utils",
    ) || same_text(lowered_stem, "types")
}

/// The logical name of a file from its stem, the stem's lowercase and
/// pascal-case forms, and the pascal-cased name of its folder.
pub fn pick_name(stem: &str, lowered_stem: &str, pascal_stem: &str, folder_name: &str) -> (name:
    String)
    ensures
        name@ == name_from(stem@, lowered_stem@, pascal_stem@, folder_name@),
{
    if same_text(stem, "init") {
        String::from_str(folder_name)
    } else if is_role_stem(lowered_stem) {
        String::from_str(folder_name).concat(pascal_stem)
    } else {
        String::from_str(stem)
    }
}

/// The canonical folder chain of the first `upto` segments.
pub fn resolve_folders(segments: &Vec<String>, upto: usize) -> (out: Vec<String>)
    requires
        upto <= segments.len(),
    ensures
        out.deep_view() == resolve_dots(segments.deep_view().take(upto as int)),
{
    let mut out: Vec<String> = Vec::new();
    let mut i: usize = 0;
    assert(out.deep_view() =~= Seq::<Seq<char>>::empty());
    while i < upto
        invariant
            i <= upto <= segments.len(),
            out.deep_view() == resolve_dots(segments.deep_view().take(i as int)),
        decreases upto - i,
    {
        let ghost before = segments.deep_view().take(i as int);
        let ghost after = segments.deep_view().take(i + 1);
        let ghost old_out = out.deep_view();
        assert(after.drop_last() =~= before);
        assert(after.last() == segments[i as int]@);
        let seg = &segments[i];
        if seg.as_str().is_empty() || same_text(seg.as_str(), ".") {
        } else if same_text(seg.as_str(), "..") {
            if out.len() > 0 {
                out.pop();
                assert(out.deep_view() =~= old_out.drop_last());
            }
        } else {
            out.push(seg.clone());
            assert(out.deep_view() =~= old_out.push(seg@));
        }
        i += 1;
    }
    out
}

/// Pascal-cases every folder of a chain.
pub fn pascal_folders(dirs: &Vec<String>) -> (out: Vec<String>)
    ensures
        out.deep_view() == pascal_each(dirs.deep_view()),
{
    let mut out: Vec<String> = Vec::new();
    let mut i: usize = 0;
    while i < dirs.len()
        invariant
            i <= dirs.len(),
            out.len() == i,
            forall|k: int| 0 <= k < i ==> out[k]@ == pascal_case(dirs[k]@),
        decreases dirs.len() - i,
    {
        out.push(to_pascal_case(dirs[i].as_str()));
        i += 1;
    }
    assert(out.deep_view() =~= pascal_each(dirs.deep_view()));
    out
}

/// Classifies the file with the given path segments below the source root,
/// the file's own name last.
pub fn get_virtual_path(segments: &Vec<String>) -> (vp: VirtualPath)
    requires
        segments.len() > 0,
    ensures
        vp@ == classify(segments.deep_view()),
{
    let n = segments.len();
    let stem = file_stem(segments[n - 1].as_str());
    let lowered = lower_of(stem.as_str());
    let pascal_stem = to_pascal_case(stem.as_str());
    assert(segments.deep_view().take(n - 1) =~= segments.deep_view().drop_last());
    let dirs = resolve_folders(segments, n - 1);
    let folder = pascal_folders(&dirs);
    let folder_name = if folder.len() > 0 {
        folder[folder.len() - 1].clone()
    } else {
        String::new()
    };
    let is_init = same_text(stem.as_str(), "init");
    let name = pick_name(stem.as_str(), lowered.as_str(), pascal_stem.as_str(), folder_name.as_str());
    let file = if is_init {
        join_onto("src", segments, n - 1)
    } else {
        assert(segments.deep_view().take(n as int) =~= segments.deep_view());
        join_onto("src", segments, n)
    };
    VirtualPath { is_init, target: target_for(lowered.as_str()), folder, name, file }
}

/// A folder that is neither empty nor `.` nor `..`.
pub open spec fn is_plain(seg: Seq<char>) -> bool {
    seg.len() > 0 && seg != "."@ && seg != ".."@
}

/// For a file below plain folders, the folder chain is every segment but
/// the file's own, pascal-cased, and the name is decided with the pascal-
/// cased segment before the file's, or with nothing where there is none.
pub proof fn lemma_classify_plain(segments: Seq<Seq<char>>)
    requires
        segments.len() > 0,
        forall|i: int| 0 <= i < segments.len() - 1 ==> is_plain(#[trigger] segments[i]),
    ensures
        classify(segments).folder == pascal_each(segments.drop_last()),
        classify(segments).name == name_from(
            stem_of(segments.last()),
            lowercase_of(stem_of(segments.last())),
            pascal_case(stem_of(segments.last())),
            if segments.len() >= 2 {
                pascal_case(segments[segments.len() - 2])
            } else {
                Seq::empty()
            },
        ),
{
    let dirs = segments.drop_last();
    assert forall|i: int| 0 <= i < dirs.len() implies dirs[i].len() > 0 && dirs[i] != "."@
        && dirs[i] != ".."@ by {
        assert(is_plain(segments[i]));
    }
    lemma_plain_chain_is_canonical(dirs);
}

/// A chain without empty, `.` or `..` segments is already canonical.
pub proof fn lemma_plain_chain_is_canonical(dirs: Seq<Seq<char>>)
    requires
        forall|i: int|
            0 <= i < dirs.len() ==> dirs[i].len() > 0 && dirs[i] != "."@ && dirs[i] != ".."@,
    ensures
        resolve_dots(dirs) == dirs,
    decreases dirs.len(),
{
    if dirs.len() > 0 {
        lemma_plain_chain_is_canonical(dirs.drop_last());
        assert(dirs.drop_last().push(dirs.last()) =~= dirs);
    }
}

} // verus!
