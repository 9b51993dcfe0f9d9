//! The walk over the source tree, as a state machine.
//!
//! The walker decides; its caller reads the directories. Each step hands
//! out at most one directory to list, in the order of a depth-first walk,
//! and collects the script files it is shown. A directory whose path is on
//! the blacklist is never handed out, so nothing below it is ever seen.

use vstd::prelude::*;
use crate::classify::{has_script_extension, is_script_file};
use crate::text::{join_onto, key_below, posix, prefix_of, slash_join, to_posix};

verus! {

/// One entry of a directory listing.
#[derive(Debug)]
pub struct DirEntry {
    /// The entry's name; where `is_text` is false, an approximation of it.
    pub name: String,
    /// The name can be represented as text.
    pub is_text: bool,
    /// The entry is a directory.
    pub is_dir: bool,
}

/// The mathematical value of a `DirEntry`.
pub struct EntryView {
    pub name: Seq<char>,
    pub is_text: bool,
    pub is_dir: bool,
}

impl View for DirEntry {
    type V = EntryView;

    open spec fn view(&self) -> EntryView {
        EntryView { name: self.name@, is_text: self.is_text, is_dir: self.is_dir }
    }
}

/// The views of the entries of a listing.
pub open spec fn entry_views(entries: Seq<DirEntry>) -> Seq<EntryView> {
    Seq::new(entries.len(), |i: int| entries[i]@)
}

/// A directory that is being walked: its path below the root, its listing,
/// and how many of its entries have been dealt with.
pub struct FrameView {
    pub dir: Seq<Seq<char>>,
    pub entries: Seq<EntryView>,
    pub next: int,
}

struct Frame {
    dir: Vec<String>,
    entries: Vec<DirEntry>,
    next: usize,
}

/// What the caller is to do after a step.
#[derive(Debug)]
pub enum WalkStep {
    /// List this directory, given by its path below the root, and supply
    /// the listing.
    Read(Vec<String>),
    /// Nothing to do: step again.
    Continue,
    /// A name that the walk depends on cannot be represented as text.
    Failed,
    /// The walk is complete.
    Done,
}

/// The mathematical value of a `WalkStep`.
pub enum StepView {
    Read(Seq<Seq<char>>),
    Continue,
    Failed,
    Done,
}

impl View for WalkStep {
    type V = StepView;

    open spec fn view(&self) -> StepView {
        match self {
            WalkStep::Read(dir) => StepView::Read(dir.deep_view()),
            WalkStep::Continue => StepView::Continue,
            WalkStep::Failed => StepView::Failed,
            WalkStep::Done => StepView::Done,
        }
    }
}

/// The mathematical value of a walker.
pub struct WalkerView {
    /// The root directory, as it was given.
    pub root: Seq<char>,
    /// The normalized paths of the directories that are not to be entered.
    pub blacklist: Seq<Seq<char>>,
    /// The directories that are open, the innermost last.
    pub stack: Seq<FrameView>,
    /// The script files found so far, each by its path below the root.
    pub files: Seq<Seq<Seq<char>>>,
    /// The directory that was handed out and is not listed yet.
    pub pending: Option<Seq<Seq<char>>>,
    /// The walk has failed.
    pub failed: bool,
}

/// The walker's state.
pub struct Walker {
    root: String,
    blacklist: Vec<String>,
    stack: Vec<Frame>,
    files: Vec<Vec<String>>,
    pending: Option<Vec<String>>,
    failed: bool,
}

/// The normalized path of the directory `dir` below `root`: the root and
/// the folders joined by `/`, every backslash turned into a forward slash.
pub open spec fn dir_key(root: Seq<char>, dir: Seq<Seq<char>>) -> Seq<char> {
    posix(slash_join(seq![root] + dir))
}

/// The directory's normalized path is, as it stands, on the blacklist.
pub open spec fn blacklisted(root: Seq<char>, blacklist: Seq<Seq<char>>, dir: Seq<Seq<char>>) -> bool {
    blacklist.contains(dir_key(root, dir))
}

/// Neither the directory nor any directory above it is on the blacklist.
pub open spec fn reachable(root: Seq<char>, blacklist: Seq<Seq<char>>, dir: Seq<Seq<char>>) -> bool {
    forall|k: int| 0 <= k <= dir.len() ==> !blacklisted(root, blacklist, #[trigger] dir.take(k))
}

/// Every directory the walker holds, and the directory of every file it has
/// found, was reached without entering a blacklisted directory.
pub open spec fn clear_of_blacklist(s: WalkerView) -> bool {
    &&& forall|i: int|
        0 <= i < s.files.len() ==> (#[trigger] s.files[i]).len() > 0 && reachable(
            s.root,
            s.blacklist,
            s.files[i].drop_last(),
        )
    &&& forall|i: int|
        0 <= i < s.stack.len() ==> reachable(s.root, s.blacklist, (#[trigger] s.stack[i]).dir)
    &&& s.pending matches Some(dir) ==> reachable(s.root, s.blacklist, dir)
}

/// The walker at the start: the root is to be read, unless it is itself on
/// the blacklist.
pub open spec fn start_of(root: Seq<char>, blacklist: Seq<Seq<char>>) -> WalkerView {
    WalkerView {
        root,
        blacklist,
        stack: Seq::empty(),
        files: Seq::empty(),
        pending: if blacklisted(root, blacklist, Seq::empty()) {
            None
        } else {
            Some(Seq::empty())
        },
        failed: false,
    }
}

/// The walker with the innermost directory advanced by one entry.
pub open spec fn advanced(s: WalkerView) -> WalkerView {
    let top = s.stack.last();
    WalkerView {
        root: s.root,
        blacklist: s.blacklist,
        stack: s.stack.update(
            s.stack.len() - 1,
            FrameView { dir: top.dir, entries: top.entries, next: top.next + 1 },
        ),
        files: s.files,
        pending: s.pending,
        failed: s.failed,
    }
}

/// One step of the walk: the next state, and what the caller is to do.
///
/// A failed walk stays failed. A directory that was handed out is handed
/// out again until it is supplied. Otherwise the innermost open directory
/// is closed when all its entries are dealt with, or its next entry is: a
/// subdirectory is handed out for reading unless it is blacklisted; a
/// script file is collected; anything else is passed over. A subdirectory
/// or a script file whose name is no text fails the walk.
pub open spec fn step_of(s: WalkerView) -> (WalkerView, StepView) {
    if s.failed {
        (s, StepView::Failed)
    } else if s.pending is Some {
        (s, StepView::Read(s.pending.unwrap()))
    } else if s.stack.len() == 0 {
        (s, StepView::Done)
    } else {
        let top = s.stack.last();
        if top.next >= top.entries.len() {
            (
                WalkerView {
                    root: s.root,
                    blacklist: s.blacklist,
                    stack: s.stack.drop_last(),
                    files: s.files,
                    pending: s.pending,
                    failed: s.failed,
                },
                StepView::Continue,
            )
        } else {
            let e = top.entries[top.next];
            let a = advanced(s);
            let path = top.dir.push(e.name);
            if !e.is_dir && !has_script_extension(e.name) {
                (a, StepView::Continue)
            } else if !e.is_text {
                (
                    WalkerView {
                        root: a.root,
                        blacklist: a.blacklist,
                        stack: a.stack,
                        files: a.files,
                        pending: a.pending,
                        failed: true,
                    },
                    StepView::Failed,
                )
            } else if !e.is_dir {
                (
                    WalkerView {
                        root: a.root,
                        blacklist: a.blacklist,
                        stack: a.stack,
                        files: a.files.push(path),
                        pending: a.pending,
                        failed: a.failed,
                    },
                    StepView::Continue,
                )
            } else if blacklisted(s.root, s.blacklist, path) {
                (a, StepView::Continue)
            } else {
                (
                    WalkerView {
                        root: a.root,
                        blacklist: a.blacklist,
                        stack: a.stack,
                        files: a.files,
                        pending: Some(path),
                        failed: a.failed,
                    },
                    StepView::Read(path),
                )
            }
        }
    }
}

/// The walker after the directory that was handed out has been listed, or
/// was found unreadable (`None`): an unreadable directory is passed over.
/// Where no directory was handed out, nothing changes.
pub open spec fn supplied(s: WalkerView, listing: Option<Seq<EntryView>>) -> WalkerView {
    match s.pending {
        None => s,
        Some(dir) => WalkerView {
            root: s.root,
            blacklist: s.blacklist,
            stack: match listing {
                Some(entries) => s.stack.push(FrameView { dir, entries, next: 0 }),
                None => s.stack,
            },
            files: s.files,
            pending: None,
            failed: s.failed,
        },
    }
}

/// The view of a listing, or of the lack of one.
pub open spec fn listing_view(listing: Option<Vec<DirEntry>>) -> Option<Seq<EntryView>> {
    match listing {
        Some(entries) => Some(entry_views(entries@)),
        None => None,
    }
}

spec fn frame_view(f: Frame) -> FrameView {
    FrameView { dir: f.dir.deep_view(), entries: entry_views(f.entries@), next: f.next as int }
}

spec fn stack_view(stack: Seq<Frame>) -> Seq<FrameView> {
    Seq::new(stack.len(), |i: int| frame_view(stack[i]))
}

spec fn pending_view(p: Option<Vec<String>>) -> Option<Seq<Seq<char>>> {
    match p {
        Some(dir) => Some(dir.deep_view()),
        None => None,
    }
}

/// The normalized path of the directory `dir` below `root`.
pub fn normalized_path(root: &str, dir: &Vec<String>) -> (key: String)
    ensures
        key@ == dir_key(root@, dir.deep_view()),
{
    assert(dir.deep_view().take(dir.len() as int) =~= dir.deep_view());
    to_posix(join_onto(root, dir, dir.len()).as_str())
}

impl View for Walker {
    type V = WalkerView;

    closed spec fn view(&self) -> WalkerView {
        WalkerView {
            root: self.root@,
            blacklist: self.blacklist.deep_view(),
            stack: stack_view(self.stack@),
            files: self.files.deep_view(),
            pending: pending_view(self.pending),
            failed: self.failed,
        }
    }
}

impl Walker {
    /// No open directory is advanced past its listing, and nothing the
    /// walker holds lies in or below a blacklisted directory.
    pub closed spec fn wf(&self) -> bool {
        &&& forall|i: int|
            0 <= i < self.stack.len() ==> (#[trigger] self.stack[i]).next
                <= self.stack[i].entries.len()
        &&& clear_of_blacklist(self@)
    }

    /// A walker for the tree below `root` that enters no directory whose
    /// normalized path is, as it stands, one of `blacklist`.
    pub fn new(root: String, blacklist: Vec<String>) -> (w: Walker)
        ensures
            w.wf(),
            w@ == start_of(root@, blacklist.deep_view()),
    {
        let mut w = Walker {
            root,
            blacklist,
            stack: Vec::new(),
            files: Vec::new(),
            pending: None,
            failed: false,
        };
        let top: Vec<String> = Vec::new();
        assert(top.deep_view() =~= Seq::<Seq<char>>::empty());
        assert(w.files.deep_view() =~= Seq::<Seq<Seq<char>>>::empty());
        assert(stack_view(w.stack@) =~= Seq::<FrameView>::empty());
        if !w.is_blacklisted(&top) {
            assert forall|k: int| 0 <= k <= top.deep_view().len() implies !blacklisted(
                w.root@,
                w.blacklist.deep_view(),
                #[trigger] top.deep_view().take(k),
            ) by {
                assert(top.deep_view().take(k) =~= top.deep_view());
            }
            w.pending = Some(top);
        }
        w
    }

    /// Whether the directory's normalized path is on the blacklist.
    fn is_blacklisted(&self, dir: &Vec<String>) -> (b: bool)
        ensures
            b == blacklisted(self.root@, self.blacklist.deep_view(), dir.deep_view()),
    {
        let key = normalized_path(self.root.as_str(), dir);
        let mut i: usize = 0;
        while i < self.blacklist.len()
            invariant
                i <= self.blacklist.len(),
                key@ == dir_key(self.root@, dir.deep_view()),
                forall|k: int| 0 <= k < i ==> self.blacklist.deep_view()[k] != key@,
            decreases self.blacklist.len() - i,
        {
            if self.blacklist[i] == key {
                assert(self.blacklist.deep_view()[i as int] == key@);
                return true;
            }
            i += 1;
        }
        assert(self.blacklist.deep_view().len() == self.blacklist.len());
        false
    }

    /// The script files found so far, each by its path below the root, in
    /// the order they were met. None of them lies in or below a blacklisted
    /// directory.
    pub fn files(&self) -> (files: &Vec<Vec<String>>)
        requires
            self.wf(),
        ensures
            files.deep_view() == self@.files,
            forall|i: int|
                0 <= i < files.len() ==> (#[trigger] files.deep_view()[i]).len() > 0 && reachable(
                    self@.root,
                    self@.blacklist,
                    files.deep_view()[i].drop_last(),
                ),
    {
        proof {
            assert forall|i: int| 0 <= i < self.files.len() implies (
            #[trigger] self.files.deep_view()[i]).len() > 0 && reachable(
                self@.root,
                self@.blacklist,
                self.files.deep_view()[i].drop_last(),
            ) by {
                assert(self@.files[i].len() > 0);
            }
        }
        &self.files
    }

    /// Takes one step of the walk and says what the caller is to do next.
    pub fn step(&mut self) -> (r: WalkStep)
        requires
            old(self).wf(),
        ensures
            final(self).wf(),
            final(self)@ == step_of(old(self)@).0,
            r@ == step_of(old(self)@).1,
    {
        if self.failed {
            return WalkStep::Failed;
        }
        match &self.pending {
            Some(dir) => {
                assert(dir.deep_view().take(dir.len() as int) =~= dir.deep_view());
                return WalkStep::Read(prefix_of(dir, dir.len()));
            },
            None => {},
        }
        if self.stack.len() == 0 {
            return WalkStep::Done;
        }
        let ghost before = self@;
        let ghost frames = self.stack@;
        let last = self.stack.len() - 1;
        assert(before.stack.last() == frame_view(frames[last as int]));
        if self.stack[last].next >= self.stack[last].entries.len() {
            self.stack.pop();
            assert(stack_view(self.stack@) =~= before.stack.drop_last());
            return WalkStep::Continue;
        }
        let idx = self.stack[last].next;
        let is_dir = self.stack[last].entries[idx].is_dir;
        let is_text = self.stack[last].entries[idx].is_text;
        let name = self.stack[last].entries[idx].name.clone();
        let path = key_below(&self.stack[last].dir, &name);
        let script = is_script_file(name.as_str());
        self.stack[last].next = idx + 1;
        proof {
            let top = before.stack.last();
            assert(top.entries[top.next] == frames[last as int].entries[idx as int]@);
            assert(stack_view(self.stack@) =~= advanced(before).stack);
            assert(reachable(before.root, before.blacklist, top.dir));
            assert(path.deep_view().drop_last() =~= top.dir);
            assert forall|i: int| 0 <= i < self.stack.len() implies reachable(
                self@.root,
                self@.blacklist,
                (#[trigger] self@.stack[i]).dir,
            ) by {
                assert(self@.stack[i].dir == before.stack[i].dir);
            }
        }
        if !is_dir && !script {
            return WalkStep::Continue;
        }
        if !is_text {
            self.failed = true;
            return WalkStep::Failed;
        }
        if !is_dir {
            let ghost found = self.files.deep_view();
            self.files.push(path);
            assert(self.files.deep_view() =~= found.push(path.deep_view()));
            return WalkStep::Continue;
        }
        if self.is_blacklisted(&path) {
            return WalkStep::Continue;
        }
        proof {
            let dir = before.stack.last().dir;
            assert forall|k: int| 0 <= k <= path.deep_view().len() implies !blacklisted(
                before.root,
                before.blacklist,
                #[trigger] path.deep_view().take(k),
            ) by {
                if k <= dir.len() {
                    assert(path.deep_view().take(k) =~= dir.take(k));
                } else {
                    assert(path.deep_view().take(k) =~= path.deep_view());
                }
            }
            assert(path.deep_view().take(path.len() as int) =~= path.deep_view());
        }
        let out = prefix_of(&path, path.len());
        self.pending = Some(path);
        WalkStep::Read(out)
    }

    /// Takes the listing of the directory that was handed out, or, with
    /// `None`, the word that it could not be read: such a directory is
    /// passed over.
    pub fn supply(&mut self, listing: Option<Vec<DirEntry>>)
        requires
            old(self).wf(),
        ensures
            final(self).wf(),
            final(self)@ == supplied(old(self)@, listing_view(listing)),
    {
        let ghost before = self@;
        match self.pending.take() {
            Some(dir) => {
                match listing {
                    Some(entries) => {
                        self.stack.push(Frame { dir, entries, next: 0 });
                        assert(stack_view(self.stack@) =~= before.stack.push(
                            FrameView {
                                dir: dir.deep_view(),
                                entries: entry_views(entries@),
                                next: 0,
                            },
                        ));
                    },
                    None => {},
                }
            },
            None => {},
        }
    }

    /// Hands over the script files found, each by its path below the root,
    /// in the order they were met. None of them lies in or below a
    /// blacklisted directory.
    pub fn into_files(self) -> (files: Vec<Vec<String>>)
        requires
            self.wf(),
        ensures
            files.deep_view() == self@.files,
            forall|i: int|
                0 <= i < files.len() ==> (#[trigger] files.deep_view()[i]).len() > 0 && reachable(
                    self@.root,
                    self@.blacklist,
                    files.deep_view()[i].drop_last(),
                ),
    {
        proof {
            assert forall|i: int| 0 <= i < self.files.len() implies (
            #[trigger] self.files.deep_view()[i]).len() > 0 && reachable(
                self@.root,
                self@.blacklist,
                self.files.deep_view()[i].drop_last(),
            ) by {
                assert(self@.files[i].len() > 0);
            }
        }
        self.files
    }

    /// A blacklisted directory contributes nothing: no file that the walker
    /// has found lies in it or below it.
    pub proof fn lemma_blacklisted_contributes_nothing(&self, dir: Seq<Seq<char>>, i: int)
        requires
            self.wf(),
            blacklisted(self@.root, self@.blacklist, dir),
            0 <= i < self@.files.len(),
        ensures
            !(dir.len() < self@.files[i].len() && self@.files[i].take(dir.len() as int) == dir),
    {
        let file = self@.files[i];
        if dir.len() < file.len() && file.take(dir.len() as int) == dir {
            assert(reachable(self@.root, self@.blacklist, file.drop_last()));
            assert(file.drop_last().take(dir.len() as int) =~= dir);
        }
    }

    /// Whether the walk has failed on a name that is no text.
    pub fn has_failed(&self) -> (b: bool)
        ensures
            b == self@.failed,
    {
        self.failed
    }
}

} // verus!
