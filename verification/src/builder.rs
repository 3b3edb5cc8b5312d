//! Turns a hierarchy into the filesystem work it stands for, and keeps the
//! books on what was created. The library touches no filesystem: it says
//! what is to be done, step by step, and is told what came of it.

use crate::models::file_item::{is_directory_name, name_of};
use crate::models::node::{
    below, child_linked, cut_off, depth_at, lemma_path_components, lemma_path_cut_off,
    parent_linked, path_components, well_formed, NodeView, Tree,
};
use crate::path::{join_all, join_segments};
use crate::text::{
    decimal, format_decimal, from_chars, texts, to_chars, trimmed_end, trimmed_len, CharClass,
};
use vstd::prelude::*;
use vstd::string::StringExecFns;

verus! {

/// `std::io::Error`, the error that the operating system reports for a
/// failed call. Nothing is claimed of it: the library carries the value from
/// the caller into its own error, unread.
#[verifier::external_type_specification]
#[verifier::external_body]
pub struct ExIoError(std::io::Error);

/// What a step asks of the filesystem.
#[derive(Debug, Clone, Copy, PartialEq, Eq, Structural)]
pub enum StepKind {
    /// Create the directory at the path, with every directory above it
    /// that is missing. The directory is recorded as created.
    Directory,
    /// The same, for the directory that a file is about to be created in.
    /// Nothing is recorded.
    ParentDirectory,
    /// Create an empty file at the path; one that exists is emptied. The
    /// file is recorded as created.
    File,
}

/// One call to the filesystem.
#[derive(Debug, Clone, PartialEq, Eq)]
pub struct Step {
    pub kind: StepKind,
    /// The path the call is made for.
    pub path: String,
    /// The comment of the entry that the step creates; empty for a parent
    /// directory.
    pub comment: String,
}

/// What a `Step` is, as plain mathematical values.
pub struct StepView {
    pub kind: StepKind,
    pub path: Seq<char>,
    pub comment: Seq<char>,
}

impl View for Step {
    type V = StepView;

    open spec fn view(&self) -> StepView {
        StepView { kind: self.kind, path: self.path@, comment: self.comment@ }
    }
}

/// The views of the steps of `v`.
pub open spec fn step_views(v: Seq<Step>) -> Seq<StepView> {
    v.map_values(|s: Step| s@)
}

/// Why the structure could not be created.
#[derive(Debug)]
pub enum FilesystemBuildError {
    /// The directory at `path` could not be created.
    DirectoryCreationError { path: String, source: std::io::Error },
    /// The file at `path` could not be created.
    FileCreationError { path: String, source: std::io::Error },
}

/// The report of the step that failed: its position among the steps that
/// were to be performed, and what the operating system said.
#[derive(Debug)]
pub struct Failure {
    pub step: usize,
    pub cause: std::io::Error,
}

/// The path segments of node `i` below the base directory: the names from
/// the root down to the node, without the first where the root is skipped.
pub open spec fn segments_of(t: Seq<NodeView>, i: int, skip_root: bool) -> Seq<Seq<char>> {
    if skip_root {
        path_components(t, i).drop_first()
    } else {
        path_components(t, i)
    }
}

/// Where node `i` is created. With the root skipped, the root itself is
/// created at the base directory.
pub open spec fn target_path(base: Seq<char>, t: Seq<NodeView>, i: int, skip_root: bool) -> Seq<
    char,
> {
    join_all(base, segments_of(t, i, skip_root))
}

/// The directory that `path` lies in: `path` up to its last `/`, where
/// separators at the end of either count for nothing. Empty where `path`
/// has no `/` but at its front or end.
pub open spec fn parent_path(path: Seq<char>) -> Seq<char> {
    let stem = name_of(path);
    name_of(stem.take(trimmed_len(stem, CharClass::Except('/')) as int))
}

/// The steps that create node `i`: one for a directory; for a file the
/// directory that its path lies in, then the file. Where that directory
/// has no name, nothing is prepared.
pub open spec fn node_steps(base: Seq<char>, t: Seq<NodeView>, i: int, skip_root: bool) -> Seq<
    StepView,
> {
    let path = target_path(base, t, i, skip_root);
    if is_directory_name(t[i].data.filename) {
        seq![StepView { kind: StepKind::Directory, path, comment: t[i].data.comment }]
    } else if parent_path(path).len() == 0 {
        seq![StepView { kind: StepKind::File, path, comment: t[i].data.comment }]
    } else {
        seq![
            StepView {
                kind: StepKind::ParentDirectory,
                path: parent_path(path),
                comment: Seq::empty(),
            },
            StepView { kind: StepKind::File, path, comment: t[i].data.comment },
        ]
    }
}

/// The steps for the children of node `i` from the `k`-th on, each child
/// followed by all that hangs below it.
pub open spec fn steps_below(
    base: Seq<char>,
    t: Seq<NodeView>,
    i: int,
    k: int,
    skip_root: bool,
) -> Seq<StepView>
    decreases usize::MAX - depth_at(t, i), t[i].children.len() - k,
{
    if 0 <= i < t.len() && depth_at(t, i) <= usize::MAX && 0 <= k < t[i].children.len() {
        let c = t[i].children[k] as int;
        let first = if depth_at(t, i) < depth_at(t, c) <= usize::MAX {
            node_steps(base, t, c, skip_root) + steps_below(base, t, c, 0, skip_root)
        } else {
            Seq::empty()
        };
        first + steps_below(base, t, i, k + 1, skip_root)
    } else {
        Seq::empty()
    }
}

/// The steps for node `i` and all that hangs below it: a node comes before
/// its children, the children in their order.
pub open spec fn steps_from(base: Seq<char>, t: Seq<NodeView>, i: int, skip_root: bool) -> Seq<
    StepView,
> {
    node_steps(base, t, i, skip_root) + steps_below(base, t, i, 0, skip_root)
}

/// With the root skipped, a node below the root is created by the steps
/// that create it, root kept, once the root is cut off the arena.
pub proof fn lemma_node_steps_without_root(base: Seq<char>, t: Seq<NodeView>, r: int, i: int)
    requires
        well_formed(t),
        0 <= r < t.len(),
        t[r].parent is None,
        0 <= i < t.len(),
        i != r,
        below(t, i, r),
    ensures
        node_steps(base, t, i, true) == node_steps(base, cut_off(t, r), i, false),
{
    lemma_path_cut_off(t, i, r);
}

/// The same for all that hangs below such a node.
pub proof fn lemma_steps_below_without_root(
    base: Seq<char>,
    t: Seq<NodeView>,
    r: int,
    i: int,
    k: int,
)
    requires
        well_formed(t),
        0 <= r < t.len(),
        t[r].parent is None,
        0 <= i < t.len(),
        i != r,
        below(t, i, r),
        0 <= k,
    ensures
        steps_below(base, t, i, k, true) == steps_below(base, cut_off(t, r), i, k, false),
    decreases usize::MAX - depth_at(t, i), t[i].children.len() - k,
{
    if k < t[i].children.len() {
        let c = t[i].children[k] as int;
        assert(child_linked(t, i, k));
        assert(parent_linked(t, c));
        assert(below(t, c, r));
        lemma_node_steps_without_root(base, t, r, c);
        lemma_steps_below_without_root(base, t, r, c, 0);
        lemma_steps_below_without_root(base, t, r, i, k + 1);
    }
}

/// Skipping the root comes to building what hangs below it on its own.
/// Where the root `r` hangs below nothing and wraps exactly one entry, the
/// steps with the root skipped are the step that creates the base
/// directory for the root, and then the steps for that entry, root kept,
/// in the arena that the root was cut off.
pub proof fn lemma_skip_root_equivalence(base: Seq<char>, t: Seq<NodeView>, r: int)
    requires
        well_formed(t),
        0 <= r < t.len(),
        t[r].parent is None,
        t[r].children.len() == 1,
    ensures
        steps_from(base, t, r, true) == node_steps(base, t, r, true) + steps_from(
            base,
            cut_off(t, r),
            t[r].children[0] as int,
            false,
        ),
        node_steps(base, t, r, true).last().path == base,
{
    let c = t[r].children[0] as int;
    assert(child_linked(t, r, 0));
    assert(parent_linked(t, c));
    assert(below(t, r, r));
    assert(below(t, c, r));
    lemma_path_components(t, r);
    assert(path_components(t, r).drop_first() =~= Seq::<Seq<char>>::empty());
    lemma_node_steps_without_root(base, t, r, c);
    lemma_steps_below_without_root(base, t, r, c, 0);
    assert(steps_below(base, t, r, 1, true) =~= Seq::<StepView>::empty());
    assert(steps_below(base, t, r, 0, true) =~= steps_from(base, cut_off(t, r), c, false));
}

/// The paths of the steps of kind `kind`, in order.
pub open spec fn paths_of(steps: Seq<StepView>, kind: StepKind) -> Seq<Seq<char>>
    decreases steps.len(),
{
    if steps.len() == 0 {
        Seq::empty()
    } else if steps.last().kind == kind {
        paths_of(steps.drop_last(), kind).push(steps.last().path)
    } else {
        paths_of(steps.drop_last(), kind)
    }
}

/// `paths` without repetitions: each path where it occurs first.
pub open spec fn distinct(paths: Seq<Seq<char>>) -> Seq<Seq<char>>
    decreases paths.len(),
{
    if paths.len() == 0 {
        Seq::empty()
    } else if distinct(paths.drop_last()).contains(paths.last()) {
        distinct(paths.drop_last())
    } else {
        distinct(paths.drop_last()).push(paths.last())
    }
}

/// `distinct` keeps every path once: its length is the number of different
/// paths.
pub proof fn lemma_distinct(paths: Seq<Seq<char>>)
    ensures
        distinct(paths).no_duplicates(),
        distinct(paths).to_set() == paths.to_set(),
        distinct(paths).len() == paths.to_set().len(),
        distinct(paths).len() <= paths.len(),
    decreases paths.len(),
{
    if paths.len() > 0 {
        let before = paths.drop_last();
        let last = paths.last();
        lemma_distinct(before);
        let d = distinct(before);
        assert(paths.to_set() =~= before.to_set().insert(last)) by {
            assert forall|x: Seq<char>| paths.to_set().contains(x) implies before.to_set().insert(
                last,
            ).contains(x) by {
                let k = choose|k: int| 0 <= k < paths.len() && paths[k] == x;
                if k < before.len() {
                    assert(before[k] == x);
                }
            }
            assert forall|x: Seq<char>| before.to_set().insert(last).contains(
                x,
            ) implies paths.to_set().contains(x) by {
                if x == last {
                    assert(paths[paths.len() - 1] == x);
                } else {
                    let k = choose|k: int| 0 <= k < before.len() && before[k] == x;
                    assert(paths[k] == x);
                }
            }
        }
        if d.contains(last) {
            assert(d.to_set().contains(last));
            assert(before.to_set().insert(last) =~= before.to_set());
        } else {
            let e = d.push(last);
            assert(e.to_set() =~= d.to_set().insert(last)) by {
                assert forall|x: Seq<char>| e.to_set().contains(x) implies d.to_set().insert(
                    last,
                ).contains(x) by {
                    let k = choose|k: int| 0 <= k < e.len() && e[k] == x;
                    if k < d.len() {
                        assert(d[k] == x);
                    }
                }
                assert forall|x: Seq<char>| d.to_set().insert(last).contains(
                    x,
                ) implies e.to_set().contains(x) by {
                    if x == last {
                        assert(e[e.len() - 1] == x);
                    } else {
                        let k = choose|k: int| 0 <= k < d.len() && d[k] == x;
                        assert(e[k] == x);
                    }
                }
            }
        }
        distinct(paths).unique_seq_to_set();
    } else {
        assert(distinct(paths).to_set() =~= paths.to_set());
        distinct(paths).unique_seq_to_set();
    }
}

/// The error that the failure of `step` is reported as.
pub open spec fn reported_as(step: StepView, cause: std::io::Error, e: FilesystemBuildError) -> bool {
    match e {
        FilesystemBuildError::DirectoryCreationError { path, source } => step.kind
            != StepKind::File && path@ == step.path && source == cause,
        FilesystemBuildError::FileCreationError { path, source } => step.kind == StepKind::File
            && path@ == step.path && source == cause,
    }
}

/// `list` with `path` recorded: behind the others, unless it is there.
pub open spec fn recorded(list: Seq<Seq<char>>, path: Seq<char>) -> Seq<Seq<char>> {
    if list.contains(path) {
        list
    } else {
        list.push(path)
    }
}

/// Recording a path a second time changes nothing, and a record without
/// repetitions stays one.
pub proof fn lemma_recorded_once(list: Seq<Seq<char>>, path: Seq<char>)
    ensures
        recorded(recorded(list, path), path) == recorded(list, path),
        recorded(list, path).contains(path),
        list.no_duplicates() ==> recorded(list, path).no_duplicates(),
{
    if !list.contains(path) {
        assert(list.push(path)[list.len() as int] == path);
    }
}

/// What the records hold once `steps` were performed.
pub proof fn lemma_paths_of_push(steps: Seq<StepView>, step: StepView, kind: StepKind)
    ensures
        distinct(paths_of(steps.push(step), kind)) == if step.kind == kind {
            recorded(distinct(paths_of(steps, kind)), step.path)
        } else {
            distinct(paths_of(steps, kind))
        },
{
    assert(steps.push(step).drop_last() =~= steps);
    let paths = paths_of(steps, kind);
    assert(paths.push(step.path).drop_last() =~= paths);
}

/// Whether `list` holds a string that reads as `path`.
fn holds(list: &Vec<String>, path: &String) -> (found: bool)
    ensures
        found == texts(list@).contains(path@),
{
    let mut j: usize = 0;
    while j < list.len()
        invariant
            j <= list@.len(),
            forall|k: int| 0 <= k < j ==> texts(list@)[k] != path@,
        decreases list@.len() - j,
    {
        if list[j] == *path {
            assert(texts(list@)[j as int] == path@);
            return true;
        }
        j += 1;
    }
    false
}

/// Plans the creation of a hierarchy below a base directory, and records
/// what was created.
#[derive(Debug)]
pub struct FilesystemBuilder {
    base_dir: String,
    dry_run: bool,
    verbose: bool,
    created_dirs: Vec<String>,
    created_files: Vec<String>,
}

impl FilesystemBuilder {
    /// The directory below which everything is created.
    pub closed spec fn base(&self) -> Seq<char> {
        self.base_dir@
    }

    /// Whether the builder only simulates.
    pub closed spec fn simulates(&self) -> bool {
        self.dry_run
    }

    /// Whether the builder reports each creation.
    pub closed spec fn reports(&self) -> bool {
        self.verbose
    }

    /// The directories recorded as created, in the order of their creation.
    pub closed spec fn directories(&self) -> Seq<Seq<char>> {
        texts(self.created_dirs@)
    }

    /// The files recorded as created, in the order of their creation.
    pub closed spec fn files(&self) -> Seq<Seq<char>> {
        texts(self.created_files@)
    }

    /// The invariant of a builder: no path is recorded twice.
    pub closed spec fn wf(&self) -> bool {
        &&& texts(self.created_dirs@).no_duplicates()
        &&& texts(self.created_files@).no_duplicates()
        &&& self.created_dirs@.len() + self.created_files@.len() <= usize::MAX
    }

    /// A builder that creates below `base_dir`. With `dry_run` nothing is
    /// to be performed; with `verbose` each creation is reported.
    pub fn new(base_dir: &str, dry_run: bool, verbose: bool) -> (builder: Self)
        ensures
            builder.wf(),
            builder.base() == base_dir@,
            builder.simulates() == dry_run,
            builder.reports() == verbose,
            builder.directories().len() == 0,
            builder.files().len() == 0,
    {
        FilesystemBuilder {
            base_dir: base_dir.to_owned(),
            dry_run,
            verbose,
            created_dirs: Vec::new(),
            created_files: Vec::new(),
        }
    }

    /// Appends the steps that create node `index` to `steps`.
    fn plan_node(&self, tree: &Tree, index: usize, skip_root: bool, steps: &mut Vec<Step>)
        requires
            tree.wf(),
            index < tree@.len(),
        ensures
            step_views(final(steps)@) == step_views(old(steps)@) + node_steps(
                self.base(),
                tree@,
                index as int,
                skip_root,
            ),
    {
        let node = tree.node(index);
        proof {
            lemma_path_components(tree@, index as int);
            assert(parent_linked(tree@, index as int));
        }
        let components = node.get_path_components(tree);
        let n: usize = components.len();
        let from: usize = if skip_root {
            1
        } else {
            0
        };
        let ghost segments = segments_of(tree@, index as int, skip_root);
        assert(segments =~= texts(components@).subrange(from as int, n as int));
        let target = join_segments(self.base_dir.as_str(), &components, from, n);
        let ghost before = step_views(steps@);
        if node.data.is_directory() {
            let step = Step {
                kind: StepKind::Directory,
                path: target,
                comment: node.data.comment.clone(),
            };
            steps.push(step);
            assert(step_views(steps@) =~= before + seq![step@]);
        } else {
            let chars = to_chars(target.as_str());
            let len: usize = chars.len();
            assert(chars@.subrange(0, len as int) =~= target@);
            let stem = trimmed_end(&chars, 0, len, CharClass::Exactly('/'));
            assert(name_of(target@) =~= chars@.subrange(0, stem as int));
            let behind = trimmed_end(&chars, 0, stem, CharClass::Except('/'));
            assert(name_of(target@).take(behind as int) =~= chars@.subrange(0, behind as int));
            let end = trimmed_end(&chars, 0, behind, CharClass::Exactly('/'));
            assert(parent_path(target@) =~= chars@.subrange(0, end as int));
            let second = Step {
                kind: StepKind::File,
                path: target,
                comment: node.data.comment.clone(),
            };
            if end == 0 {
                steps.push(second);
                assert(step_views(steps@) =~= before + seq![second@]);
            } else {
                let parent = from_chars(&chars, 0, end);
                let first = Step {
                    kind: StepKind::ParentDirectory,
                    path: parent,
                    comment: String::new(),
                };
                steps.push(first);
                steps.push(second);
                assert(step_views(steps@) =~= before + seq![first@, second@]);
            }
        }
    }

    /// Appends the steps for node `index` and all that hangs below it to
    /// `steps`: depth first, a node before its children.
    fn traverse_and_create(
        &self,
        tree: &Tree,
        index: usize,
        skip_root: bool,
        steps: &mut Vec<Step>,
    )
        requires
            tree.wf(),
            index < tree@.len(),
        ensures
            step_views(final(steps)@) == step_views(old(steps)@) + steps_from(
                self.base(),
                tree@,
                index as int,
                skip_root,
            ),
        decreases usize::MAX - tree@[index as int].data.level,
    {
        self.plan_node(tree, index, skip_root, steps);
        let node = tree.node(index);
        let ghost goal = step_views(old(steps)@) + steps_from(
            self.base(),
            tree@,
            index as int,
            skip_root,
        );
        let mut k: usize = 0;
        assert(goal =~= step_views(steps@) + steps_below(
            self.base(),
            tree@,
            index as int,
            0,
            skip_root,
        ));
        while k < node.children.len()
            invariant
                tree.wf(),
                index < tree@.len(),
                node@ == tree@[index as int],
                k <= node.children@.len(),
                goal == step_views(steps@) + steps_below(
                    self.base(),
                    tree@,
                    index as int,
                    k as int,
                    skip_root,
                ),
            decreases node.children@.len() - k,
        {
            let child: usize = node.children[k];
            let ghost before = step_views(steps@);
            proof {
                assert(child_linked(tree@, index as int, k as int));
                assert(parent_linked(tree@, child as int));
            }
            self.traverse_and_create(tree, child, skip_root, steps);
            proof {
                assert(before + steps_below(self.base(), tree@, index as int, k as int, skip_root)
                    =~= step_views(steps@) + steps_below(
                    self.base(),
                    tree@,
                    index as int,
                    k + 1,
                    skip_root,
                ));
            }
            k += 1;
        }
        assert(goal =~= step_views(steps@));
    }

    /// The steps that create node `root` of `tree` and all that hangs below
    /// it, in the order in which they are to be performed. A dry run has
    /// the same steps; it performs none of them.
    pub fn plan(&self, tree: &Tree, root: usize, skip_root: bool) -> (steps: Vec<Step>)
        requires
            tree.wf(),
            root < tree@.len(),
        ensures
            step_views(steps@) == steps_from(self.base(), tree@, root as int, skip_root),
    {
        let mut steps: Vec<Step> = Vec::new();
        self.traverse_and_create(tree, root, skip_root, &mut steps);
        assert(step_views(steps@) =~= steps_from(self.base(), tree@, root as int, skip_root));
        steps
    }

    /// The steps that the caller has to perform: those of the plan, and
    /// none at all in a dry run.
    pub open spec fn to_perform(&self, t: Seq<NodeView>, root: int, skip_root: bool) -> Seq<
        StepView,
    > {
        if self.simulates() {
            Seq::empty()
        } else {
            steps_from(self.base(), t, root, skip_root)
        }
    }

    /// The steps that the caller has to perform on the filesystem, in
    /// order, up to the first that fails. A dry run asks for nothing.
    pub fn steps_to_perform(&self, tree: &Tree, root: usize, skip_root: bool) -> (steps: Vec<
        Step,
    >)
        requires
            tree.wf(),
            root < tree@.len(),
        ensures
            step_views(steps@) == self.to_perform(tree@, root as int, skip_root),
            self.simulates() ==> steps@.len() == 0,
    {
        if self.dry_run {
            let steps: Vec<Step> = Vec::new();
            assert(step_views(steps@) =~= Seq::<StepView>::empty());
            steps
        } else {
            self.plan(tree, root, skip_root)
        }
    }

    /// Takes note of a directory that was created, or would have been in a
    /// dry run, or reports why it could not be. `outcome` is what the
    /// operating system said to the step: `None` where it did not object.
    /// A directory that was only prepared for a file is not recorded.
    pub fn create_directory(&mut self, step: &Step, outcome: Option<std::io::Error>) -> (r: Result<
        (),
        FilesystemBuildError,
    >)
        requires
            old(self).wf(),
            old(self).directories().len() + old(self).files().len() < usize::MAX,
            step.kind != StepKind::File,
        ensures
            final(self).wf(),
            final(self).base() == old(self).base(),
            final(self).simulates() == old(self).simulates(),
            final(self).reports() == old(self).reports(),
            final(self).files() == old(self).files(),
            final(self).directories().len() <= old(self).directories().len() + 1,
            final(self).files().len() == old(self).files().len(),
            match r {
                Ok(_) => outcome is None && final(self).directories() == if step.kind
                    == StepKind::Directory {
                    recorded(old(self).directories(), step.path@)
                } else {
                    old(self).directories()
                },
                Err(e) => outcome matches Some(cause) && reported_as(step@, cause, e)
                    && final(self).directories() == old(self).directories(),
            },
    {
        if let Some(cause) = outcome {
            return Err(
                FilesystemBuildError::DirectoryCreationError {
                    path: step.path.clone(),
                    source: cause,
                },
            );
        }
        if step.kind == StepKind::Directory && !holds(&self.created_dirs, &step.path) {
            let ghost before = texts(self.created_dirs@);
            self.created_dirs.push(step.path.clone());
            assert(texts(self.created_dirs@) =~= before.push(step.path@));
        }
        Ok(())
    }

    /// Takes note of a file that was created, or would have been in a dry
    /// run, or reports why it could not be.
    pub fn create_file(&mut self, step: &Step, outcome: Option<std::io::Error>) -> (r: Result<
        (),
        FilesystemBuildError,
    >)
        requires
            old(self).wf(),
            old(self).directories().len() + old(self).files().len() < usize::MAX,
            step.kind == StepKind::File,
        ensures
            final(self).wf(),
            final(self).base() == old(self).base(),
            final(self).simulates() == old(self).simulates(),
            final(self).reports() == old(self).reports(),
            final(self).directories() == old(self).directories(),
            final(self).directories().len() == old(self).directories().len(),
            final(self).files().len() <= old(self).files().len() + 1,
            match r {
                Ok(_) => outcome is None && final(self).files() == recorded(
                    old(self).files(),
                    step.path@,
                ),
                Err(e) => outcome matches Some(cause) && reported_as(step@, cause, e)
                    && final(self).files() == old(self).files(),
            },
    {
        if let Some(cause) = outcome {
            return Err(
                FilesystemBuildError::FileCreationError { path: step.path.clone(), source: cause },
            );
        }
        if !holds(&self.created_files, &step.path) {
            let ghost before = texts(self.created_files@);
            self.created_files.push(step.path.clone());
            assert(texts(self.created_files@) =~= before.push(step.path@));
        }
        Ok(())
    }

    /// Takes note of one step and of what came of it.
    fn settle(&mut self, step: &Step, outcome: Option<std::io::Error>) -> (r: Result<
        (),
        FilesystemBuildError,
    >)
        requires
            old(self).wf(),
            old(self).directories().len() + old(self).files().len() < usize::MAX,
        ensures
            final(self).wf(),
            final(self).base() == old(self).base(),
            final(self).simulates() == old(self).simulates(),
            final(self).reports() == old(self).reports(),
            final(self).directories().len() + final(self).files().len() <= old(self).directories().len()
                + old(self).files().len() + 1,
            match r {
                Ok(_) => outcome is None && final(self).directories() == if step.kind
                    == StepKind::Directory {
                    recorded(old(self).directories(), step.path@)
                } else {
                    old(self).directories()
                } && final(self).files() == if step.kind == StepKind::File {
                    recorded(old(self).files(), step.path@)
                } else {
                    old(self).files()
                },
                Err(e) => outcome matches Some(cause) && reported_as(step@, cause, e) && final(self).directories() == old(self).directories() && final(self).files() == old(self).files(),
            },
    {
        match step.kind {
            StepKind::File => self.create_file(step, outcome),
            _ => self.create_directory(step, outcome),
        }
    }

    /// Keeps the books on one run over node `root` of `tree` and all that
    /// hangs below it. The records
    /// are emptied first. `failure` is what the caller met when it performed
    /// `steps_to_perform`: `None` where every step went through, which is
    /// always so in a dry run. Without a failure every step of the plan is
    /// recorded, and the result counts the different directories and files.
    /// With one, the steps before it are recorded and the failure is
    /// returned as an error; a report about a step that was not to be
    /// performed is ignored. With the root skipped the root is still a
    /// step of its own, created at the base directory, so a root that is a
    /// directory counts among the directories.
    pub fn build(
        &mut self,
        tree: &Tree,
        root: usize,
        skip_root: bool,
        failure: Option<Failure>,
    ) -> (r: Result<(usize, usize), FilesystemBuildError>)
        requires
            tree.wf(),
            root < tree@.len(),
        ensures
            final(self).wf(),
            final(self).base() == old(self).base(),
            final(self).simulates() == old(self).simulates(),
            final(self).reports() == old(self).reports(),
            old(self).built(
                tree@,
                root as int,
                skip_root,
                failure,
                r,
                final(self).directories(),
                final(self).files(),
            ),
    {
        self.created_dirs.clear();
        self.created_files.clear();
        let steps = self.plan(tree, root, skip_root);
        let ghost all = step_views(steps@);
        let n: usize = steps.len();
        let stop: usize = match &failure {
            Some(f) => if !self.dry_run && f.step < n {
                f.step
            } else {
                n
            },
            None => n,
        };
        let mut k: usize = 0;
        proof {
            assert(all.take(0) =~= Seq::<StepView>::empty());
            assert(texts(self.created_dirs@) =~= Seq::<Seq<char>>::empty());
            assert(texts(self.created_files@) =~= Seq::<Seq<char>>::empty());
        }
        while k < stop
            invariant
                k <= stop <= n == steps@.len(),
                all == step_views(steps@),
                self.wf(),
                self.base() == old(self).base(),
                self.simulates() == old(self).simulates(),
                self.reports() == old(self).reports(),
                self.directories().len() + self.files().len() <= k,
                self.directories() == distinct(paths_of(all.take(k as int), StepKind::Directory)),
                self.files() == distinct(paths_of(all.take(k as int), StepKind::File)),
            decreases stop - k,
        {
            proof {
                assert(all.take(k + 1) =~= all.take(k as int).push(steps@[k as int]@));
                lemma_paths_of_push(all.take(k as int), steps@[k as int]@, StepKind::Directory);
                lemma_paths_of_push(all.take(k as int), steps@[k as int]@, StepKind::File);
            }
            let _ = self.settle(&steps[k], None);
            k += 1;
        }
        if stop < n {
            match failure {
                Some(f) => {
                    match self.settle(&steps[stop], Some(f.cause)) {
                        Ok(_) => Ok((self.created_dirs.len(), self.created_files.len())),
                        Err(e) => Err(e),
                    }
                },
                None => Ok((self.created_dirs.len(), self.created_files.len())),
            }
        } else {
            assert(all.take(n as int) =~= all);
            Ok((self.created_dirs.len(), self.created_files.len()))
        }
    }

    /// What a run comes to, with the records `directories` and `files` that
    /// it leaves.
    pub open spec fn built(
        &self,
        t: Seq<NodeView>,
        root: int,
        skip_root: bool,
        failure: Option<Failure>,
        r: Result<(usize, usize), FilesystemBuildError>,
        directories: Seq<Seq<char>>,
        files: Seq<Seq<char>>,
    ) -> bool {
        let steps = steps_from(self.base(), t, root, skip_root);
        let asked = self.to_perform(t, root, skip_root);
        match r {
            Ok((dir_count, file_count)) => {
                &&& failure matches Some(f) ==> f.step >= asked.len()
                &&& directories == distinct(paths_of(steps, StepKind::Directory))
                &&& files == distinct(paths_of(steps, StepKind::File))
                &&& dir_count == directories.len()
                &&& file_count == files.len()
            },
            Err(e) => {
                &&& failure matches Some(f)
                &&& f.step < asked.len()
                &&& reported_as(steps[f.step as int], f.cause, e)
                &&& directories == distinct(paths_of(steps.take(f.step as int), StepKind::Directory))
                &&& files == distinct(paths_of(steps.take(f.step as int), StepKind::File))
            },
        }
    }

    /// The counts of the last run: directories, files, both together, and
    /// whether the run was simulated.
    pub fn get_summary(&self) -> (summary: (usize, usize, usize, bool))
        requires
            self.wf(),
        ensures
            summary.0 == self.directories().len(),
            summary.1 == self.files().len(),
            summary.2 == self.directories().len() + self.files().len(),
            summary.3 == self.simulates(),
    {
        (
            self.created_dirs.len(),
            self.created_files.len(),
            self.created_dirs.len() + self.created_files.len(),
            self.dry_run,
        )
    }

    /// The lines that report `step`: none unless the builder is verbose,
    /// and none for a directory that is only prepared for a file. The first
    /// line names what was created, or would be in a dry run; a second line
    /// gives the comment of the entry, if it has one.
    pub open spec fn report_of(&self, step: StepView) -> Seq<Seq<char>> {
        let action = if self.simulates() {
            "[DRY RUN] Would create"@
        } else {
            "Created"@
        };
        let what = if step.kind == StepKind::Directory {
            " directory: "@
        } else {
            " file: "@
        };
        if !self.reports() || step.kind == StepKind::ParentDirectory {
            Seq::empty()
        } else if step.comment.len() == 0 {
            seq![action + what + step.path]
        } else {
            seq![action + what + step.path, "  \u{2192} Comment: "@ + step.comment]
        }
    }

    /// The lines that report `step`.
    pub fn messages(&self, step: &Step) -> (lines: Vec<String>)
        ensures
            texts(lines@) == self.report_of(step@),
    {
        let mut lines: Vec<String> = Vec::new();
        if !self.verbose {
            assert(texts(lines@) =~= Seq::<Seq<char>>::empty());
            return lines;
        }
        let what: &str = match step.kind {
            StepKind::Directory => " directory: ",
            StepKind::File => " file: ",
            StepKind::ParentDirectory => {
                assert(texts(lines@) =~= Seq::<Seq<char>>::empty());
                return lines;
            },
        };
        let action: &str = if self.dry_run {
            "[DRY RUN] Would create"
        } else {
            "Created"
        };
        let mut head = action.to_owned();
        head.append(what);
        head.append(step.path.as_str());
        let ghost first = head@;
        lines.push(head);
        if step.comment.as_str().is_empty() {
            assert(texts(lines@) =~= seq![first]);
        } else {
            let mut second = "  \u{2192} Comment: ".to_owned();
            second.append(step.comment.as_str());
            let ghost text = second@;
            lines.push(second);
            assert(texts(lines@) =~= seq![first, text]);
        }
        lines
    }

    /// The lines that sum a run up: the three counts, under a heading that
    /// marks a dry run, and for a dry run a hint at the end. An empty line
    /// stands before the heading and before the hint.
    pub open spec fn summary_of(&self) -> Seq<Seq<char>> {
        let heading = if self.simulates() {
            "[DRY RUN] Summary:"@
        } else {
            "Summary:"@
        };
        let counts = seq![
            Seq::empty(),
            heading,
            "  \u{1F4C1} Directories: "@ + decimal(self.directories().len()),
            "  \u{1F4C4} Files: "@ + decimal(self.files().len()),
            "  \u{1F4CA} Total: "@ + decimal(self.directories().len() + self.files().len()),
        ];
        if self.simulates() {
            counts + seq![
                Seq::empty(),
                "\u{1F4A1} Run without --dry-run to actually create the structure."@,
            ]
        } else {
            counts
        }
    }

    /// The lines that sum the last run up.
    pub fn summary_lines(&self) -> (lines: Vec<String>)
        requires
            self.wf(),
        ensures
            texts(lines@) == self.summary_of(),
    {
        let (dirs, files, total, dry_run) = self.get_summary();
        let mut lines: Vec<String> = Vec::new();
        let heading: &str = if dry_run {
            "[DRY RUN] Summary:"
        } else {
            "Summary:"
        };
        let mut directories = "  \u{1F4C1} Directories: ".to_owned();
        directories.append(format_decimal(dirs).as_str());
        let mut file_count = "  \u{1F4C4} Files: ".to_owned();
        file_count.append(format_decimal(files).as_str());
        let mut sum = "  \u{1F4CA} Total: ".to_owned();
        sum.append(format_decimal(total).as_str());
        let ghost d = directories@;
        let ghost f = file_count@;
        let ghost t = sum@;
        lines.push(String::new());
        lines.push(heading.to_owned());
        lines.push(directories);
        lines.push(file_count);
        lines.push(sum);
        assert(texts(lines@) =~= seq![Seq::empty(), heading@, d, f, t]);
        if dry_run {
            lines.push(String::new());
            lines.push("\u{1F4A1} Run without --dry-run to actually create the structure.".to_owned());
            assert(texts(lines@) =~= seq![Seq::empty(), heading@, d, f, t] + seq![
                Seq::empty(),
                "\u{1F4A1} Run without --dry-run to actually create the structure."@,
            ]);
        }
        lines
    }
}

/// Whether to skip the root where the caller has not decided otherwise: the
/// root is skipped when the drawing has a single top-level entry, whose
/// name `top` then holds, unless `no_skip_root` forbids it.
pub fn default_skip_root(no_skip_root: bool, top: &Option<String>) -> (skip: bool)
    ensures
        skip == (!no_skip_root && top is Some),
{
    !no_skip_root && top.is_some()
}

/// A dry run asks nothing of the filesystem, and comes to what a real run
/// comes to in which no step fails: the same records and the same counts.
pub proof fn lemma_dry_run(
    dry: FilesystemBuilder,
    wet: FilesystemBuilder,
    t: Seq<NodeView>,
    root: int,
    skip_root: bool,
    r: Result<(usize, usize), FilesystemBuildError>,
    directories: Seq<Seq<char>>,
    files: Seq<Seq<char>>,
)
    requires
        dry.simulates(),
        !wet.simulates(),
        dry.base() == wet.base(),
        wet.built(t, root, skip_root, None, r, directories, files),
    ensures
        dry.to_perform(t, root, skip_root).len() == 0,
        dry.built(t, root, skip_root, None, r, directories, files),
        r is Ok,
{
}

} // verus!
