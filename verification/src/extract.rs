//! Extraction of an archive's entries, in the order in which they are stored,
//! into a directory that holds nothing yet: which directories are created,
//! which files are written, and where the extraction fails.

use crate::sanitize::{path_wf, safe_path, sanitize_file_path, SafePath};
use vstd::prelude::*;

verus! {

/// One entry of an archive: its stored name and whether it is a directory.
#[derive(Debug)]
pub struct Entry {
    pub name: String,
    pub is_dir: bool,
}

/// Where an entry goes: its safe path below the output directory.
pub struct Target {
    pub path: Seq<Seq<char>>,
    pub is_dir: bool,
}

/// Why an entry could not be extracted.
#[derive(Debug, PartialEq, Eq, Structural, Clone, Copy)]
pub enum ExtractError {
    /// A file's destination exists already, as a file or as a directory.
    AlreadyExists,
    /// A directory is needed where a file stands.
    NotADirectory,
}

/// What is done on disk for one entry.
#[derive(Debug)]
pub enum Step {
    /// The directory is there already.
    Nothing,
    /// The directory is created, with the directories above it.
    CreateDir(SafePath),
    /// The directories above the file are created, then the file, which
    /// must be new, and the entry's content is written to it.
    WriteFile(SafePath),
}

pub enum StepView {
    Nothing,
    CreateDir(Seq<Seq<char>>),
    WriteFile(Seq<Seq<char>>),
}

/// The directories and files below the output directory. The output
/// directory itself is the empty path.
#[derive(Debug)]
pub struct Tree {
    pub dirs: Vec<SafePath>,
    pub files: Vec<SafePath>,
}

pub struct TreeView {
    pub dirs: Set<Seq<Seq<char>>>,
    pub files: Set<Seq<Seq<char>>>,
}

/// An extraction: the steps for the entries up to the first that fails, the
/// tree that they leave, and why that entry fails, if one does.
#[derive(Debug)]
pub struct Plan {
    pub tree: Tree,
    pub steps: Vec<Step>,
    pub failure: Option<ExtractError>,
}

pub struct PlanView {
    pub tree: TreeView,
    pub steps: Seq<StepView>,
    pub failure: Option<ExtractError>,
}

/// The paths that `list` holds.
pub open spec fn path_set(list: Seq<SafePath>) -> Set<Seq<Seq<char>>> {
    Set::new(|p: Seq<Seq<char>>| exists|i: int| 0 <= i < list.len() && (#[trigger] list[i])@ == p)
}

/// The tree of an output directory into which nothing was extracted yet.
pub open spec fn empty_tree() -> TreeView {
    TreeView { dirs: set![Seq::empty()], files: Set::empty() }
}

/// Whether something stands at `p`.
pub open spec fn occupied(t: TreeView, p: Seq<Seq<char>>) -> bool {
    p.len() == 0 || t.dirs.contains(p) || t.files.contains(p)
}

/// Whether a file stands where a directory above `p` would have to be.
pub open spec fn is_blocked(t: TreeView, p: Seq<Seq<char>>) -> bool {
    exists|f: Seq<Seq<char>>| #[trigger]
        t.files.contains(f) && f.is_prefix_of(p) && f.len() < p.len()
}

/// The tree with the directory `p` and every directory above it.
pub open spec fn with_dirs(t: TreeView, p: Seq<Seq<char>>) -> TreeView {
    TreeView {
        dirs: t.dirs.union(Set::new(|d: Seq<Seq<char>>| d.is_prefix_of(p))),
        files: t.files,
    }
}

/// The tree after the entry `target` was extracted into `t`, or why it
/// could not be.
pub open spec fn placed(t: TreeView, target: Target) -> Result<TreeView, ExtractError> {
    let p = target.path;
    if target.is_dir {
        if occupied(t, p) {
            Ok(t)
        } else if is_blocked(t, p) {
            Err(ExtractError::NotADirectory)
        } else {
            Ok(with_dirs(t, p))
        }
    } else {
        if is_blocked(t, p) {
            Err(ExtractError::NotADirectory)
        } else if occupied(t, p) {
            Err(ExtractError::AlreadyExists)
        } else {
            let above = with_dirs(t, p.drop_last());
            Ok(TreeView { dirs: above.dirs, files: above.files.insert(p) })
        }
    }
}

/// What is done on disk for the entry `target`, where it can be extracted
/// into `t`.
pub open spec fn action(t: TreeView, target: Target) -> StepView {
    if !target.is_dir {
        StepView::WriteFile(target.path)
    } else if occupied(t, target.path) {
        StepView::Nothing
    } else {
        StepView::CreateDir(target.path)
    }
}

/// The extraction of `targets`, in their order, into an empty output
/// directory.
pub open spec fn planned(targets: Seq<Target>) -> PlanView
    decreases targets.len(),
{
    if targets.len() == 0 {
        PlanView { tree: empty_tree(), steps: Seq::empty(), failure: None }
    } else {
        let before = planned(targets.drop_last());
        if before.failure is Some {
            before
        } else {
            match placed(before.tree, targets.last()) {
                Ok(tree) => PlanView {
                    tree,
                    steps: before.steps.push(action(before.tree, targets.last())),
                    failure: None,
                },
                Err(e) => PlanView { tree: before.tree, steps: before.steps, failure: Some(e) },
            }
        }
    }
}

/// Where the entries go.
pub open spec fn targets_of(entries: Seq<Entry>) -> Seq<Target> {
    entries.map_values(|e: Entry| Target { path: safe_path(e.name@), is_dir: e.is_dir })
}

/// The views of a sequence of steps.
pub open spec fn step_views(steps: Seq<Step>) -> Seq<StepView> {
    steps.map_values(|s: Step| s@)
}

impl StepView {
    /// The path that the step creates; the empty path where it creates none.
    pub open spec fn path(self) -> Seq<Seq<char>> {
        match self {
            StepView::Nothing => Seq::empty(),
            StepView::CreateDir(p) => p,
            StepView::WriteFile(p) => p,
        }
    }
}

impl View for Step {
    type V = StepView;

    open spec fn view(&self) -> StepView {
        match self {
            Step::Nothing => StepView::Nothing,
            Step::CreateDir(p) => StepView::CreateDir(p@),
            Step::WriteFile(p) => StepView::WriteFile(p@),
        }
    }
}

impl View for Tree {
    type V = TreeView;

    open spec fn view(&self) -> TreeView {
        TreeView { dirs: path_set(self.dirs@), files: path_set(self.files@) }
    }
}

impl View for Plan {
    type V = PlanView;

    open spec fn view(&self) -> PlanView {
        PlanView { tree: self.tree@, steps: step_views(self.steps@), failure: self.failure }
    }
}

/// A list with one more path holds that path besides those it held.
proof fn lemma_path_set_push(list: Seq<SafePath>, x: SafePath)
    ensures
        path_set(list.push(x)) == path_set(list).insert(x@),
{
    let longer = list.push(x);
    assert forall|q: Seq<Seq<char>>| path_set(longer).contains(q) <==> path_set(list).insert(
        x@,
    ).contains(q) by {
        if path_set(longer).contains(q) {
            let i = choose|i: int| 0 <= i < longer.len() && (#[trigger] longer[i])@ == q;
            if i < list.len() {
                assert(list[i]@ == q);
            }
        }
        if path_set(list).contains(q) {
            let i = choose|i: int| 0 <= i < list.len() && (#[trigger] list[i])@ == q;
            assert(longer[i]@ == q);
        }
        if q == x@ {
            assert(longer[list.len() as int]@ == q);
        }
    }
    assert(path_set(longer) =~= path_set(list).insert(x@));
}

/// Whether `list` holds the path `p`.
fn holds(list: &Vec<SafePath>, p: &SafePath) -> (b: bool)
    ensures
        b == path_set(list@).contains(p@),
{
    let mut i: usize = 0;
    while i < list.len()
        invariant
            i <= list@.len(),
            forall|k: int| 0 <= k < i ==> (#[trigger] list@[k])@ != p@,
        decreases list@.len() - i,
    {
        if list[i].same(p) {
            return true;
        }
        i += 1;
    }
    false
}

impl Tree {
    /// The tree of an output directory into which nothing was extracted yet.
    pub fn new() -> (tree: Tree)
        ensures
            tree@ == empty_tree(),
    {
        let root = SafePath::root();
        let mut dirs: Vec<SafePath> = Vec::new();
        proof {
            lemma_path_set_push(dirs@, root);
            assert(path_set(dirs@) =~= Set::<Seq<Seq<char>>>::empty());
        }
        dirs.push(root);
        let tree = Tree { dirs, files: Vec::new() };
        assert(tree@.dirs =~= empty_tree().dirs);
        assert(tree@.files =~= empty_tree().files);
        tree
    }

    /// Whether `p` is a directory of the tree.
    pub fn is_dir(&self, p: &SafePath) -> (b: bool)
        ensures
            b == self@.dirs.contains(p@),
    {
        holds(&self.dirs, p)
    }

    /// Whether `p` is a file of the tree.
    pub fn is_file(&self, p: &SafePath) -> (b: bool)
        ensures
            b == self@.files.contains(p@),
    {
        holds(&self.files, p)
    }

    /// Whether a file stands where a directory above `p` would have to be.
    pub fn blocks(&self, p: &SafePath) -> (b: bool)
        ensures
            b == is_blocked(self@, p@),
    {
        let mut i: usize = 0;
        while i < self.files.len()
            invariant
                i <= self.files@.len(),
                forall|k: int|
                    0 <= k < i ==> !((#[trigger] self.files@[k])@.is_prefix_of(p@)
                        && self.files@[k]@.len() < p@.len()),
            decreases self.files@.len() - i,
        {
            if self.files[i].len() < p.len() && p.starts_with(&self.files[i]) {
                assert(self@.files.contains(self.files@[i as int]@));
                return true;
            }
            i += 1;
        }
        false
    }

    /// Adds the directory `d`.
    fn add_dir(&mut self, d: SafePath)
        ensures
            final(self).files == old(self).files,
            final(self)@.dirs == old(self)@.dirs.insert(d@),
    {
        if !holds(&self.dirs, &d) {
            proof {
                lemma_path_set_push(self.dirs@, d);
            }
            self.dirs.push(d);
        }
        assert(self@.dirs =~= old(self)@.dirs.insert(d@));
    }

    /// Adds the directory `p` and every directory above it.
    fn add_dirs(&mut self, p: &SafePath)
        ensures
            final(self)@ == with_dirs(old(self)@, p@),
    {
        let mut k: usize = 0;
        assert(self@.dirs =~= old(self)@.dirs.union(
            Set::new(|d: Seq<Seq<char>>| d.is_prefix_of(p@) && d.len() < 0),
        ));
        while k < p.len()
            invariant
                k <= p@.len(),
                self.files == old(self).files,
                self@.dirs == old(self)@.dirs.union(
                    Set::new(|d: Seq<Seq<char>>| d.is_prefix_of(p@) && d.len() < k),
                ),
            decreases p@.len() - k,
        {
            self.add_dir(p.prefix(k));
            assert(forall|d: Seq<Seq<char>>|
                d.is_prefix_of(p@) && d.len() == k ==> d =~= p@.take(k as int));
            assert(p@.take(k as int).is_prefix_of(p@));
            k += 1;
            assert(self@.dirs =~= old(self)@.dirs.union(
                Set::new(|d: Seq<Seq<char>>| d.is_prefix_of(p@) && d.len() < k),
            ));
        }
        self.add_dir(p.duplicate());
        assert(forall|d: Seq<Seq<char>>|
            d.is_prefix_of(p@) && d.len() == p@.len() ==> d =~= p@.take(p@.len() as int));
        assert(p@.take(p@.len() as int) =~= p@);
        assert(p@.is_prefix_of(p@));
        assert(self@.dirs =~= with_dirs(old(self)@, p@).dirs);
    }

    /// Extracts one entry, directory or file, whose safe path is `path`:
    /// changes the tree as the extraction changes the disk and returns what
    /// is done there, or leaves the tree as it is and returns why the entry
    /// cannot be extracted.
    pub fn place(&mut self, path: SafePath, is_dir: bool) -> (r: Result<Step, ExtractError>)
        ensures
            match placed(old(self)@, (Target { path: path@, is_dir })) {
                Ok(tree) => r is Ok && final(self)@ == tree && r->Ok_0@ == action(
                    old(self)@,
                    (Target { path: path@, is_dir }),
                ),
                Err(e) => r == Err::<Step, ExtractError>(e) && final(self)@ == old(self)@,
            },
    {
        let taken = path.len() == 0 || self.is_dir(&path) || self.is_file(&path);
        if is_dir {
            if taken {
                Ok(Step::Nothing)
            } else if self.blocks(&path) {
                Err(ExtractError::NotADirectory)
            } else {
                self.add_dirs(&path);
                Ok(Step::CreateDir(path))
            }
        } else {
            if self.blocks(&path) {
                Err(ExtractError::NotADirectory)
            } else if taken {
                Err(ExtractError::AlreadyExists)
            } else {
                let parent = path.prefix(path.len() - 1);
                assert(parent@ =~= path@.drop_last());
                self.add_dirs(&parent);
                let copy = path.duplicate();
                proof {
                    lemma_path_set_push(self.files@, copy);
                }
                self.files.push(copy);
                Ok(Step::WriteFile(path))
            }
        }
    }
}

/// Once an entry has failed, the entries after it change nothing.
proof fn lemma_failure_sticks(targets: Seq<Target>, k: int)
    requires
        0 <= k <= targets.len(),
        planned(targets.take(k)).failure is Some,
    ensures
        planned(targets) == planned(targets.take(k)),
    decreases targets.len(),
{
    if k == targets.len() {
        assert(targets.take(k) =~= targets);
    } else {
        assert(targets.drop_last().take(k) =~= targets.take(k));
        lemma_failure_sticks(targets.drop_last(), k);
    }
}

/// Plans the extraction of `entries`, in the order in which the archive
/// stores them, into an output directory that holds nothing yet: each
/// entry's stored name is made a safe path, and the entry is placed in the
/// tree. The first entry that cannot be placed ends the extraction; the steps
/// of the entries before it stand.
pub fn unzip_file(entries: &Vec<Entry>) -> (plan: Plan)
    ensures
        plan@ == planned(targets_of(entries@)),
        forall|k: int| 0 <= k < plan@.steps.len() ==> path_wf((#[trigger] plan@.steps[k]).path()),
{
    let ghost targets = targets_of(entries@);
    let mut tree = Tree::new();
    let mut steps: Vec<Step> = Vec::new();
    let mut i: usize = 0;
    assert(step_views(steps@) =~= planned(targets.take(0)).steps);
    while i < entries.len()
        invariant
            i <= entries@.len(),
            targets == targets_of(entries@),
            planned(targets.take(i as int)).failure is None,
            planned(targets.take(i as int)).tree == tree@,
            planned(targets.take(i as int)).steps == step_views(steps@),
            forall|k: int|
                0 <= k < steps@.len() ==> path_wf((#[trigger] step_views(steps@)[k]).path()),
        decreases entries@.len() - i,
    {
        let path = sanitize_file_path(entries[i].name.as_str());
        let ghost before = step_views(steps@);
        proof {
            assert(targets.take(i + 1).drop_last() =~= targets.take(i as int));
            assert(targets.take(i + 1).last() == (Target {
                path: path@,
                is_dir: entries@[i as int].is_dir,
            }));
        }
        match tree.place(path, entries[i].is_dir) {
            Ok(step) => {
                steps.push(step);
                assert(step_views(steps@) =~= before.push(step@));
            },
            Err(e) => {
                proof {
                    lemma_failure_sticks(targets, i + 1);
                }
                return Plan { tree, steps, failure: Some(e) };
            },
        }
        i += 1;
    }
    assert(targets.take(i as int) =~= targets);
    Plan { tree, steps, failure: None }
}

/// What holds while no entry has failed: there is a step for each entry, and
/// something stands at the path of each.
proof fn lemma_paths_kept(targets: Seq<Target>)
    ensures
        planned(targets).steps.len() <= targets.len(),
        planned(targets).failure is None ==> planned(targets).steps.len() == targets.len()
            && forall|i: int|
            0 <= i < targets.len() ==> occupied(
                planned(targets).tree,
                (#[trigger] targets[i]).path,
            ),
    decreases targets.len(),
{
    if targets.len() > 0 {
        let shorter = targets.drop_last();
        lemma_paths_kept(shorter);
        if planned(targets).failure is None {
            let last = targets.last();
            assert(last.path.subrange(0, last.path.len() as int) =~= last.path);
            assert forall|i: int| 0 <= i < targets.len() implies occupied(
                planned(targets).tree,
                (#[trigger] targets[i]).path,
            ) by {
                if i < shorter.len() {
                    assert(shorter[i] == targets[i]);
                    assert(occupied(planned(shorter).tree, targets[i].path));
                }
            }
        }
    }
}

/// No file is written where an earlier entry, file or directory, has the same
/// safe path: the extraction fails at the later entry or before.
pub proof fn lemma_collision_fails(targets: Seq<Target>, i: int, j: int)
    requires
        0 <= i < j < targets.len(),
        !targets[j].is_dir,
        targets[i].path == targets[j].path,
    ensures
        planned(targets).failure is Some,
        planned(targets).steps.len() <= j,
{
    let upto = targets.take(j);
    let with_second = targets.take(j + 1);
    assert(with_second.drop_last() =~= upto);
    lemma_paths_kept(upto);
    if planned(upto).failure is None {
        assert(upto[i] == targets[i]);
        assert(occupied(planned(upto).tree, targets[j].path));
    }
    assert(planned(with_second).failure is Some);
    lemma_failure_sticks(targets, j + 1);
}

/// Whether the entry `t` makes `d` a directory: `d` is the entry's own path,
/// if the entry is a directory, or stands above the entry's path.
pub open spec fn covers(t: Target, d: Seq<Seq<char>>) -> bool {
    d.is_prefix_of(t.path) && (t.is_dir || d.len() < t.path.len())
}

/// Whether a file entry of `targets` has the path `p`.
pub open spec fn is_file_of(targets: Seq<Target>, p: Seq<Seq<char>>) -> bool {
    exists|i: int| 0 <= i < targets.len() && !(#[trigger] targets[i]).is_dir && targets[i].path == p
}

/// Whether `d` is the output directory or an entry of `targets` makes it a
/// directory.
pub open spec fn is_dir_of(targets: Seq<Target>, d: Seq<Seq<char>>) -> bool {
    d.len() == 0 || exists|i: int| 0 <= i < targets.len() && covers(#[trigger] targets[i], d)
}

/// The tree that the entries describe, whatever their order: the files are
/// the paths of the file entries, the directories are the output directory,
/// the paths of the directory entries and every path above an entry.
pub open spec fn tree_of(targets: Seq<Target>) -> TreeView {
    TreeView {
        dirs: Set::new(|d: Seq<Seq<char>>| is_dir_of(targets, d)),
        files: Set::new(|p: Seq<Seq<char>>| is_file_of(targets, p)),
    }
}

/// No file entry stands in the way of another entry: its path is not empty,
/// and it is neither the path of another entry nor above one.
pub open spec fn conflict_free(targets: Seq<Target>) -> bool {
    forall|i: int, j: int|
        0 <= i < targets.len() && 0 <= j < targets.len() && !(#[trigger] targets[i]).is_dir ==> {
            &&& targets[i].path.len() > 0
            &&& i != j ==> !targets[i].path.is_prefix_of((#[trigger] targets[j]).path)
        }
}

/// One more entry adds its own file and directories to those of the others.
proof fn lemma_tree_of_last(targets: Seq<Target>)
    requires
        targets.len() > 0,
    ensures
        forall|p: Seq<Seq<char>>|
            is_file_of(targets, p) <==> is_file_of(targets.drop_last(), p) || (
            !targets.last().is_dir && targets.last().path == p),
        forall|d: Seq<Seq<char>>|
            is_dir_of(targets, d) <==> is_dir_of(targets.drop_last(), d) || covers(
                targets.last(),
                d,
            ),
{
    let shorter = targets.drop_last();
    let n = shorter.len() as int;
    assert forall|p: Seq<Seq<char>>|
        is_file_of(targets, p) <==> is_file_of(shorter, p) || (!targets.last().is_dir
            && targets.last().path == p) by {
        if is_file_of(targets, p) {
            let i = choose|i: int|
                0 <= i < targets.len() && !(#[trigger] targets[i]).is_dir && targets[i].path == p;
            if i < n {
                assert(shorter[i] == targets[i]);
            }
        }
        if is_file_of(shorter, p) {
            let i = choose|i: int|
                0 <= i < shorter.len() && !(#[trigger] shorter[i]).is_dir && shorter[i].path == p;
            assert(targets[i] == shorter[i]);
        }
        if !targets.last().is_dir && targets.last().path == p {
            assert(targets[n] == targets.last());
        }
    }
    assert forall|d: Seq<Seq<char>>|
        is_dir_of(targets, d) <==> is_dir_of(shorter, d) || covers(targets.last(), d) by {
        if is_dir_of(targets, d) && d.len() > 0 {
            let i = choose|i: int| 0 <= i < targets.len() && covers(#[trigger] targets[i], d);
            if i < n {
                assert(shorter[i] == targets[i]);
            }
        }
        if is_dir_of(shorter, d) && d.len() > 0 {
            let i = choose|i: int| 0 <= i < shorter.len() && covers(#[trigger] shorter[i], d);
            assert(targets[i] == shorter[i]);
        }
        if covers(targets.last(), d) {
            assert(targets[n] == targets.last());
        }
    }
}

/// An entry that stands in no other's way is placed into the tree of the
/// others, and the tree of all of them comes out.
proof fn lemma_place_conflict_free(targets: Seq<Target>)
    requires
        targets.len() > 0,
        conflict_free(targets),
    ensures
        placed(tree_of(targets.drop_last()), targets.last()) is Ok,
        placed(tree_of(targets.drop_last()), targets.last())->Ok_0 == tree_of(targets),
{
    let shorter = targets.drop_last();
    let n = shorter.len() as int;
    let last = targets.last();
    let p = last.path;
    let t = tree_of(shorter);
    lemma_tree_of_last(targets);
    assert(targets[n] == last);
    assert(p.subrange(0, p.len() as int) =~= p);
    assert forall|f: Seq<Seq<char>>| t.files.contains(f) implies !f.is_prefix_of(p) by {
        let i = choose|i: int|
            0 <= i < shorter.len() && !(#[trigger] shorter[i]).is_dir && shorter[i].path == f;
        assert(targets[i] == shorter[i]);
    }
    assert(!is_blocked(t, p));
    assert(!t.files.contains(p));
    if last.is_dir {
        if occupied(t, p) {
            assert forall|d: Seq<Seq<char>>| covers(last, d) implies is_dir_of(shorter, d) by {
                if d.len() > 0 {
                    let i = choose|i: int|
                        0 <= i < shorter.len() && covers(#[trigger] shorter[i], p);
                    assert(d =~= shorter[i].path.subrange(0, d.len() as int));
                    assert(covers(shorter[i], d));
                }
            }
            assert(t.dirs =~= tree_of(targets).dirs);
            assert(t.files =~= tree_of(targets).files);
        } else {
            assert(with_dirs(t, p).dirs =~= tree_of(targets).dirs);
            assert(with_dirs(t, p).files =~= tree_of(targets).files);
        }
    } else {
        assert(p.len() > 0);
        assert(!t.dirs.contains(p)) by {
            if is_dir_of(shorter, p) {
                let i = choose|i: int| 0 <= i < shorter.len() && covers(#[trigger] shorter[i], p);
                assert(targets[i] == shorter[i]);
            }
        }
        let parent = p.drop_last();
        assert forall|d: Seq<Seq<char>>| covers(last, d) <==> d.is_prefix_of(parent) by {
            if covers(last, d) {
                assert(d =~= parent.subrange(0, d.len() as int));
            }
            if d.is_prefix_of(parent) {
                assert(d =~= p.subrange(0, d.len() as int));
            }
        }
        assert(with_dirs(t, parent).dirs =~= tree_of(targets).dirs);
        assert(t.files.insert(p) =~= tree_of(targets).files);
    }
}

/// Entries of which no file stands in another's way are all extracted, in
/// whatever order they are stored, and leave the tree that they describe.
pub proof fn lemma_conflict_free_succeeds(targets: Seq<Target>)
    requires
        conflict_free(targets),
    ensures
        planned(targets).failure is None,
        planned(targets).steps.len() == targets.len(),
        planned(targets).tree == tree_of(targets),
    decreases targets.len(),
{
    if targets.len() == 0 {
        assert forall|d: Seq<Seq<char>>| d.len() == 0 implies d == Seq::<Seq<char>>::empty() by {
            assert(d =~= Seq::<Seq<char>>::empty());
        }
        assert(empty_tree().dirs =~= tree_of(targets).dirs);
        assert(empty_tree().files =~= tree_of(targets).files);
    } else {
        let shorter = targets.drop_last();
        assert(conflict_free(shorter)) by {
            assert forall|i: int, j: int|
                0 <= i < shorter.len() && 0 <= j < shorter.len() && !(
                #[trigger] shorter[i]).is_dir implies shorter[i].path.len() > 0 && (i != j
                ==> !shorter[i].path.is_prefix_of((#[trigger] shorter[j]).path)) by {
                assert(targets[i] == shorter[i]);
                assert(targets[j] == shorter[j]);
            }
        }
        lemma_conflict_free_succeeds(shorter);
        lemma_place_conflict_free(targets);
    }
}

/// Two archives that hold the same entries, with no file in another's way
/// in either, are both extracted in full and leave the same tree.
pub proof fn lemma_same_entries_same_result(a: Seq<Target>, b: Seq<Target>)
    requires
        conflict_free(a),
        conflict_free(b),
        forall|t: Target| a.contains(t) <==> b.contains(t),
    ensures
        planned(a).failure is None,
        planned(b).failure is None,
        planned(a).tree == planned(b).tree,
{
    lemma_conflict_free_succeeds(a);
    lemma_conflict_free_succeeds(b);
    lemma_same_entries_same_tree(a, b);
    lemma_same_entries_same_tree(b, a);
    assert(tree_of(a).dirs =~= tree_of(b).dirs);
    assert(tree_of(a).files =~= tree_of(b).files);
}

/// Whether `b` holds the entries of `a` in another order: entry `i` of `a`
/// is entry `to[i]` of `b`, and entry `j` of `b` is entry `back[j]` of `a`.
pub open spec fn rearranged(a: Seq<Target>, b: Seq<Target>, to: Seq<int>, back: Seq<int>) -> bool {
    &&& a.len() == b.len()
    &&& to.len() == a.len()
    &&& back.len() == a.len()
    &&& forall|i: int|
        0 <= i < a.len() ==> 0 <= #[trigger] to[i] < a.len() && back[to[i]] == i && b[to[i]]
            == a[i]
    &&& forall|j: int| 0 <= j < a.len() ==> 0 <= #[trigger] back[j] < a.len() && to[back[j]] == j
}

/// The order of the entries does not matter: where no file stands in
/// another entry's way, the entries are extracted in full in whatever order
/// the archive stores them, and every order leaves the same tree.
pub proof fn lemma_any_order(a: Seq<Target>, b: Seq<Target>, to: Seq<int>, back: Seq<int>)
    requires
        conflict_free(a),
        rearranged(a, b, to, back),
    ensures
        planned(a).failure is None,
        planned(b).failure is None,
        planned(a).steps.len() == a.len(),
        planned(b).steps.len() == b.len(),
        planned(a).tree == planned(b).tree,
{
    assert forall|j: int| 0 <= j < b.len() implies #[trigger] b[j] == a[back[j]] by {
        assert(b[to[back[j]]] == a[back[j]]);
    }
    assert(conflict_free(b)) by {
        assert forall|i: int, j: int|
            0 <= i < b.len() && 0 <= j < b.len() && !(#[trigger] b[i]).is_dir implies b[i].path.len()
            > 0 && (i != j ==> !b[i].path.is_prefix_of((#[trigger] b[j]).path)) by {
            assert(b[i] == a[back[i]]);
            assert(b[j] == a[back[j]]);
            if i != j {
                assert(to[back[i]] == i && to[back[j]] == j);
                assert(back[i] != back[j]);
            }
        }
    }
    assert forall|t: Target| a.contains(t) <==> b.contains(t) by {
        if a.contains(t) {
            let i = choose|i: int| 0 <= i < a.len() && a[i] == t;
            assert(b[to[i]] == t);
        }
        if b.contains(t) {
            let j = choose|j: int| 0 <= j < b.len() && b[j] == t;
            assert(a[back[j]] == t);
        }
    }
    lemma_same_entries_same_result(a, b);
    lemma_conflict_free_succeeds(a);
    lemma_conflict_free_succeeds(b);
}

/// What the entries of `a` make a file or a directory, the same entries in
/// `b` make one too.
proof fn lemma_same_entries_same_tree(a: Seq<Target>, b: Seq<Target>)
    requires
        forall|t: Target| a.contains(t) ==> b.contains(t),
    ensures
        forall|p: Seq<Seq<char>>| is_file_of(a, p) ==> is_file_of(b, p),
        forall|d: Seq<Seq<char>>| is_dir_of(a, d) ==> is_dir_of(b, d),
{
    assert forall|p: Seq<Seq<char>>| is_file_of(a, p) implies is_file_of(b, p) by {
        let i = choose|i: int| 0 <= i < a.len() && !(#[trigger] a[i]).is_dir && a[i].path == p;
        assert(a.contains(a[i]));
        let j = choose|j: int| 0 <= j < b.len() && b[j] == a[i];
        assert(!b[j].is_dir && b[j].path == p);
    }
    assert forall|d: Seq<Seq<char>>| is_dir_of(a, d) implies is_dir_of(b, d) by {
        if d.len() > 0 {
            let i = choose|i: int| 0 <= i < a.len() && covers(#[trigger] a[i], d);
            assert(a.contains(a[i]));
            let j = choose|j: int| 0 <= j < b.len() && b[j] == a[i];
            assert(covers(b[j], d));
        }
    }
}

/// Each step is that of the entry of the same index, taken on the tree that
/// the entries before it left.
pub proof fn lemma_steps_follow_entries(targets: Seq<Target>)
    ensures
        planned(targets).steps.len() <= targets.len(),
        forall|k: int|
            0 <= k < planned(targets).steps.len() ==> #[trigger] planned(targets).steps[k]
                == action(planned(targets.take(k)).tree, targets[k]),
    decreases targets.len(),
{
    lemma_paths_kept(targets);
    if targets.len() > 0 {
        let shorter = targets.drop_last();
        lemma_steps_follow_entries(shorter);
        lemma_paths_kept(shorter);
        assert forall|k: int| 0 <= k < planned(targets).steps.len() implies #[trigger] planned(
            targets,
        ).steps[k] == action(planned(targets.take(k)).tree, targets[k]) by {
            if k < planned(shorter).steps.len() {
                assert(shorter.take(k) =~= targets.take(k));
                assert(shorter[k] == targets[k]);
            } else {
                assert(targets.take(k) =~= shorter);
            }
        }
    }
}

/// No file is written twice: two steps that write a file write different
/// files.
pub proof fn lemma_no_file_written_twice(targets: Seq<Target>, a: int, b: int)
    requires
        0 <= a < b < planned(targets).steps.len(),
        planned(targets).steps[a] is WriteFile,
        planned(targets).steps[b] is WriteFile,
    ensures
        planned(targets).steps[a].path() != planned(targets).steps[b].path(),
{
    lemma_steps_follow_entries(targets);
    if targets[a].path == targets[b].path {
        lemma_collision_fails(targets, a, b);
    }
}

} // verus!
