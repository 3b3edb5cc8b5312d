//! The hierarchy of entries. Nodes live in one arena, the `Tree`, in the
//! order in which they were made, and refer to each other by index: a node
//! owns nothing but its entry, and the link to its parent is an index too.

use crate::models::file_item::{name_of, FileItem, FileItemView};
use crate::path::{join_all, join_segments};
use crate::text::texts;
use vstd::prelude::*;

verus! {

/// A node of the hierarchy.
#[derive(Debug)]
pub struct Node {
    /// The entry the node stands for.
    pub data: FileItem,
    /// The children, in the order in which they were attached.
    pub children: Vec<usize>,
    /// The parent; `None` for a node that hangs below nothing.
    pub parent: Option<usize>,
}

/// What a `Node` is, as plain mathematical values.
pub struct NodeView {
    pub data: FileItemView,
    pub children: Seq<usize>,
    pub parent: Option<usize>,
}

impl View for Node {
    type V = NodeView;

    open spec fn view(&self) -> NodeView {
        NodeView { data: self.data@, children: self.children@, parent: self.parent }
    }
}

/// The depth of node `i`; 0 for an index that names no node.
pub open spec fn depth_at(t: Seq<NodeView>, i: int) -> nat {
    if 0 <= i < t.len() {
        t[i].data.level
    } else {
        0
    }
}

/// The parent of node `i`, if it has one, is a node one level above `i`
/// that lists `i` among its children.
pub open spec fn parent_linked(t: Seq<NodeView>, i: int) -> bool {
    match t[i].parent {
        Some(p) => p < t.len() && t[i].data.level == t[p as int].data.level + 1
            && t[p as int].children.contains(i as usize),
        None => true,
    }
}

/// The `k`-th child of node `i` is a node that names `i` as its parent.
pub open spec fn child_linked(t: Seq<NodeView>, i: int, k: int) -> bool {
    let c = t[i].children[k];
    c < t.len() && t[c as int].parent == Some(i as usize)
}

/// The shape every arena keeps: parent and child links agree, a child
/// lies one level below its parent, and no node is listed twice by its
/// parent. So no node hangs below itself, and none below two parents. The
/// nodes are no more, and lie no deeper, than the machine can number.
pub open spec fn well_formed(t: Seq<NodeView>) -> bool {
    &&& t.len() <= usize::MAX
    &&& forall|i: int| 0 <= i < t.len() ==> (#[trigger] t[i]).data.level <= usize::MAX
    &&& forall|i: int| 0 <= i < t.len() ==> #[trigger] parent_linked(t, i)
    &&& forall|i: int, k: int|
        0 <= i < t.len() && 0 <= k < t[i].children.len() ==> #[trigger] child_linked(t, i, k)
    &&& forall|i: int| 0 <= i < t.len() ==> (#[trigger] t[i]).children.no_duplicates()
}

/// The depth of node `i` is one more than that of its parent.
pub open spec fn level_fits(t: Seq<NodeView>, i: int) -> bool {
    match t[i].parent {
        Some(p) => t[i].data.level == t[p as int].data.level + 1,
        None => true,
    }
}

/// Every node that has a parent lies one level below it.
pub open spec fn levels_consistent(t: Seq<NodeView>) -> bool {
    forall|i: int| 0 <= i < t.len() ==> #[trigger] level_fits(t, i)
}

/// In a well-formed arena every node that has a parent lies one level below
/// it.
pub proof fn lemma_levels_consistent(t: Seq<NodeView>)
    requires
        well_formed(t),
    ensures
        levels_consistent(t),
{
    assert forall|i: int| 0 <= i < t.len() implies #[trigger] level_fits(t, i) by {
        assert(parent_linked(t, i));
    }
}

/// The names on the way from the top of the hierarchy down to node `i`,
/// the name of `i` last.
pub open spec fn path_components(t: Seq<NodeView>, i: int) -> Seq<Seq<char>>
    decreases depth_at(t, i),
{
    if 0 <= i < t.len() {
        match t[i].parent {
            Some(p) => if depth_at(t, p as int) < depth_at(t, i) {
                path_components(t, p as int).push(name_of(t[i].data.filename))
            } else {
                seq![name_of(t[i].data.filename)]
            },
            None => seq![name_of(t[i].data.filename)],
        }
    } else {
        Seq::empty()
    }
}

/// The names from the top down to `parent`; empty where there is no parent.
pub open spec fn path_above(t: Seq<NodeView>, parent: Option<usize>) -> Seq<Seq<char>> {
    match parent {
        Some(p) => path_components(t, p as int),
        None => Seq::empty(),
    }
}

/// In a well-formed arena the path of a node is the path of its parent and
/// the node's own name behind it.
pub proof fn lemma_path_components(t: Seq<NodeView>, i: int)
    requires
        well_formed(t),
        0 <= i < t.len(),
    ensures
        path_components(t, i) == path_above(t, t[i].parent).push(name_of(t[i].data.filename)),
        path_components(t, i).len() > 0,
{
    assert(parent_linked(t, i));
    assert(Seq::<Seq<char>>::empty().push(name_of(t[i].data.filename)) =~= seq![
        name_of(t[i].data.filename),
    ]);
}

/// The path of a node is decided by the names on the way up from it: two
/// arenas that agree on entries and parents give every node the same path,
/// whatever the order in which they list the children.
pub proof fn lemma_path_ignores_siblings(t: Seq<NodeView>, u: Seq<NodeView>, i: int)
    requires
        t.len() == u.len(),
        forall|j: int|
            0 <= j < t.len() ==> (#[trigger] t[j]).data == u[j].data && t[j].parent == u[j].parent,
    ensures
        path_components(t, i) == path_components(u, i),
    decreases depth_at(t, i),
{
    if 0 <= i < t.len() {
        assert(t[i].data == u[i].data && t[i].parent == u[i].parent);
        if let Some(p) = t[i].parent {
            if 0 <= p < t.len() {
                assert(t[p as int].data == u[p as int].data);
            }
            if depth_at(t, p as int) < depth_at(t, i) {
                lemma_path_ignores_siblings(t, u, p as int);
            }
        }
    }
}

/// Node `i` is node `r` or hangs, over any number of parents, below it.
pub open spec fn below(t: Seq<NodeView>, i: int, r: int) -> bool
    decreases depth_at(t, i),
{
    i == r || (0 <= i < t.len() && match t[i].parent {
        Some(p) => depth_at(t, p as int) < depth_at(t, i) && below(t, p as int, r),
        None => false,
    })
}

/// The arena with node `r` cut off: what hung below `r` hangs below
/// nothing, and `r` has no children.
pub open spec fn cut_off(t: Seq<NodeView>, r: int) -> Seq<NodeView> {
    Seq::new(
        t.len(),
        |i: int|
            if i == r {
                NodeView { children: Seq::empty(), ..t[i] }
            } else if t[i].parent == Some(r as usize) {
                NodeView { parent: None, ..t[i] }
            } else {
                t[i]
            },
    )
}

/// Cutting a node off keeps the arena well formed.
pub proof fn lemma_cut_off_well_formed(t: Seq<NodeView>, r: int)
    requires
        well_formed(t),
        0 <= r < t.len(),
    ensures
        well_formed(cut_off(t, r)),
{
    let u = cut_off(t, r);
    assert forall|i: int| 0 <= i < u.len() implies #[trigger] parent_linked(u, i) by {
        assert(parent_linked(t, i));
    }
    assert forall|i: int, k: int|
        0 <= i < u.len() && 0 <= k < u[i].children.len() implies #[trigger] child_linked(
        u,
        i,
        k,
    ) by {
        assert(child_linked(t, i, k));
    }
    assert forall|i: int| 0 <= i < u.len() implies (#[trigger] u[i]).children.no_duplicates() by {
        assert(t[i].children.no_duplicates());
    }
}

/// With a node cut off that hung below nothing, the paths of the nodes that
/// hung below it lose their first name and nothing else.
pub proof fn lemma_path_cut_off(t: Seq<NodeView>, i: int, r: int)
    requires
        well_formed(t),
        0 <= r < t.len(),
        t[r].parent is None,
        0 <= i < t.len(),
        i != r,
        below(t, i, r),
    ensures
        path_components(cut_off(t, r), i) == path_components(t, i).drop_first(),
    decreases depth_at(t, i),
{
    let u = cut_off(t, r);
    let name = name_of(t[i].data.filename);
    let p = t[i].parent->0 as int;
    assert(parent_linked(t, i));
    lemma_path_components(t, p);
    if p == r {
        assert(path_components(t, r) =~= seq![name_of(t[r].data.filename)]);
        assert(path_components(t, i).drop_first() =~= seq![name]);
    } else {
        lemma_path_cut_off(t, p, r);
        assert(path_components(t, p).push(name).drop_first() =~= path_components(
            t,
            p,
        ).drop_first().push(name));
    }
}

/// The arena `t` after `child` was hung below `parent`.
pub open spec fn linked(t: Seq<NodeView>, parent: int, child: int) -> Seq<NodeView> {
    t.update(child, NodeView { parent: Some(parent as usize), ..t[child] }).update(
        parent,
        NodeView { children: t[parent].children.push(child as usize), ..t[parent] },
    )
}

/// Hanging a node that has no parent yet below a node one level above it
/// keeps the arena well formed.
pub proof fn lemma_linked_well_formed(t: Seq<NodeView>, parent: int, child: int)
    requires
        well_formed(t),
        0 <= parent < t.len(),
        0 <= child < t.len(),
        child <= usize::MAX,
        t[child].parent is None,
        t[child].data.level == t[parent].data.level + 1,
    ensures
        well_formed(linked(t, parent, child)),
{
    let u = linked(t, parent, child);
    assert(!t[parent].children.contains(child as usize)) by {
        if t[parent].children.contains(child as usize) {
            let k = choose|k: int|
                0 <= k < t[parent].children.len() && t[parent].children[k] == child as usize;
            assert(child_linked(t, parent, k));
        }
    }
    assert forall|i: int| 0 <= i < u.len() implies #[trigger] parent_linked(u, i) by {
        if i == child {
            assert(u[parent].children.last() == child as usize);
        } else {
            assert(parent_linked(t, i));
            if let Some(q) = t[i].parent {
                let k = choose|k: int|
                    0 <= k < t[q as int].children.len() && t[q as int].children[k] == i as usize;
                assert(u[q as int].children[k] == i as usize);
            }
        }
    }
    assert forall|i: int, k: int|
        0 <= i < u.len() && 0 <= k < u[i].children.len() implies #[trigger] child_linked(
        u,
        i,
        k,
    ) by {
        if i == parent && k == t[parent].children.len() {
        } else {
            assert(child_linked(t, i, k));
        }
    }
    assert forall|i: int| 0 <= i < u.len() implies (#[trigger] u[i]).children.no_duplicates() by {
        assert(t[i].children.no_duplicates());
    }
}

/// The arena after the links were made one after the other: each is a
/// parent and the child hung below it.
pub open spec fn linked_all(t: Seq<NodeView>, links: Seq<(int, int)>) -> Seq<NodeView>
    decreases links.len(),
{
    if links.len() == 0 {
        t
    } else {
        linked(linked_all(t, links.drop_last()), links.last().0, links.last().1)
    }
}

/// Each of the links can be made when its turn comes, and none hangs node
/// `n`, or a node that `n` hangs below, below another.
pub open spec fn links_spare(t: Seq<NodeView>, links: Seq<(int, int)>, n: int) -> bool
    decreases links.len(),
{
    links.len() == 0 || {
        let before = linked_all(t, links.drop_last());
        let (parent, child) = links.last();
        &&& links_spare(t, links.drop_last(), n)
        &&& 0 <= parent < before.len()
        &&& 0 <= child < before.len()
        &&& before[child].parent is None
        &&& before[child].data.level == before[parent].data.level + 1
        &&& !below(before, n, child)
    }
}

/// Hanging a node below another leaves the path of every node as it was
/// that does not hang below the node that was hung.
pub proof fn lemma_path_after_link(t: Seq<NodeView>, parent: int, child: int, n: int)
    requires
        well_formed(t),
        0 <= parent < t.len(),
        0 <= child < t.len(),
        t[child].parent is None,
        t[child].data.level == t[parent].data.level + 1,
        !below(t, n, child),
    ensures
        path_components(linked(t, parent, child), n) == path_components(t, n),
    decreases depth_at(t, n),
{
    let u = linked(t, parent, child);
    if 0 <= n < t.len() {
        assert(parent_linked(t, n));
        assert(u[n].data == t[n].data && u[n].parent == t[n].parent);
        if let Some(q) = t[n].parent {
            assert(u[q as int].data == t[q as int].data);
            lemma_path_after_link(t, parent, child, q as int);
        }
    }
}

/// The path of a node stays what it is under any number of attachments
/// elsewhere: of siblings, of children, of siblings of the nodes it hangs
/// below, in any order.
pub proof fn lemma_path_after_links(t: Seq<NodeView>, links: Seq<(int, int)>, n: int)
    requires
        well_formed(t),
        links_spare(t, links, n),
    ensures
        well_formed(linked_all(t, links)),
        linked_all(t, links).len() == t.len(),
        path_components(linked_all(t, links), n) == path_components(t, n),
    decreases links.len(),
{
    if links.len() > 0 {
        let before = linked_all(t, links.drop_last());
        lemma_path_after_links(t, links.drop_last(), n);
        lemma_linked_well_formed(before, links.last().0, links.last().1);
        lemma_path_after_link(before, links.last().0, links.last().1, n);
    }
}

/// The arena that holds the nodes of one drawing, in the order in which
/// they were made.
#[derive(Debug)]
pub struct Tree {
    nodes: Vec<Node>,
}

impl View for Tree {
    type V = Seq<NodeView>;

    closed spec fn view(&self) -> Seq<NodeView> {
        self.nodes@.map_values(|n: Node| n@)
    }
}

impl Tree {
    /// The invariant of an arena.
    pub open spec fn wf(&self) -> bool {
        well_formed(self@)
    }

    /// An arena without nodes.
    pub fn new() -> (tree: Tree)
        ensures
            tree@.len() == 0,
            tree.wf(),
    {
        Tree { nodes: Vec::new() }
    }

    /// The number of nodes.
    pub fn len(&self) -> (n: usize)
        ensures
            n == self@.len(),
    {
        self.nodes.len()
    }

    /// The node made as number `index`.
    pub fn node(&self, index: usize) -> (node: &Node)
        requires
            index < self@.len(),
        ensures
            node@ == self@[index as int],
    {
        &self.nodes[index]
    }

    /// Adds a node that is linked to nothing, and returns its index.
    pub fn insert(&mut self, node: Node) -> (index: usize)
        requires
            node@.children.len() == 0,
            node@.parent is None,
        ensures
            index == old(self)@.len(),
            final(self)@ == old(self)@.push(node@),
            old(self).wf() ==> final(self).wf(),
    {
        let index: usize = self.nodes.len();
        self.nodes.push(node);
        let count: usize = self.nodes.len();
        proof {
            let t = old(self)@;
            let u = self@;
            assert(u =~= t.push(node@));
            if well_formed(t) {
                assert forall|i: int| 0 <= i < u.len() implies #[trigger] parent_linked(u, i) by {
                    if i < t.len() {
                        assert(parent_linked(t, i));
                    }
                }
                assert forall|i: int, k: int|
                    0 <= i < u.len() && 0 <= k < u[i].children.len() implies #[trigger] child_linked(
                    u,
                    i,
                    k,
                ) by {
                    assert(child_linked(t, i, k));
                }
                assert forall|i: int| 0 <= i < u.len() implies (
                #[trigger] u[i]).children.no_duplicates() by {
                    if i < t.len() {
                        assert(t[i].children.no_duplicates());
                    }
                }
            }
        }
        index
    }
}

impl Node {
    /// A node for `data`, linked to nothing yet.
    pub fn new(data: FileItem) -> (node: Node)
        ensures
            node@ == (NodeView { data: data@, children: Seq::empty(), parent: None }),
    {
        Node { data, children: Vec::new(), parent: None }
    }

    /// Hangs node `child` below node `parent`, behind the children that
    /// `parent` already has. The child must hang below nothing yet, and lie
    /// one level below the parent; so it is no node that the parent hangs
    /// below.
    pub fn add_child(tree: &mut Tree, parent: usize, child: usize)
        requires
            old(tree).wf(),
            parent < old(tree)@.len(),
            child < old(tree)@.len(),
            old(tree)@[child as int].parent is None,
            old(tree)@[child as int].data.level == old(tree)@[parent as int].data.level + 1,
        ensures
            final(tree)@ == linked(old(tree)@, parent as int, child as int),
            final(tree).wf(),
    {
        tree.nodes[child].parent = Some(parent);
        tree.nodes[parent].children.push(child);
        proof {
            assert(tree@ =~= linked(old(tree)@, parent as int, child as int));
            lemma_linked_well_formed(old(tree)@, parent as int, child as int);
        }
    }

    /// Whether the node has no children.
    pub fn is_leaf(&self) -> (b: bool)
        ensures
            b == (self@.children.len() == 0),
    {
        self.children.len() == 0
    }

    /// Whether the node hangs below nothing.
    pub fn is_root(&self) -> (b: bool)
        ensures
            b == (self@.parent is None),
    {
        self.parent.is_none()
    }

    /// The names from the top of the hierarchy down to this node, which is
    /// a node of `tree` or one that names a node of `tree` as its parent.
    pub fn get_path_components(&self, tree: &Tree) -> (path: Vec<String>)
        requires
            tree.wf(),
            self@.parent matches Some(p) ==> p < tree@.len(),
        ensures
            texts(path@) == path_above(tree@, self@.parent).push(name_of(self@.data.filename)),
    {
        let mut upwards: Vec<String> = Vec::new();
        upwards.push(self.data.name().to_owned());
        let mut cur: Option<usize> = self.parent;
        let ghost goal = path_above(tree@, self@.parent).push(name_of(self@.data.filename));
        assert(goal =~= path_above(tree@, cur) + texts(upwards@).reverse());
        while cur.is_some()
            invariant
                tree.wf(),
                cur matches Some(p) ==> p < tree@.len(),
                goal == path_above(tree@, cur) + texts(upwards@).reverse(),
            decreases
                    (match cur {
                        Some(p) => tree@[p as int].data.level + 1,
                        None => 0,
                    }),
        {
            let p: usize = cur.unwrap();
            let node = tree.node(p);
            let ghost before = texts(upwards@);
            upwards.push(node.data.name().to_owned());
            proof {
                lemma_path_components(tree@, p as int);
                assert(parent_linked(tree@, p as int));
                assert(texts(upwards@).reverse() =~= seq![name_of(node@.data.filename)]
                    + before.reverse());
                assert(path_above(tree@, cur) + before.reverse() =~= path_above(
                    tree@,
                    node@.parent,
                ) + texts(upwards@).reverse());
            }
            cur = node.parent;
        }
        let mut path: Vec<String> = Vec::new();
        assert(goal =~= texts(path@) + texts(upwards@).reverse());
        while upwards.len() > 0
            invariant
                goal == texts(path@) + texts(upwards@).reverse(),
            decreases upwards@.len(),
        {
            let ghost rest = texts(upwards@);
            let ghost done = texts(path@);
            let s = upwards.pop().unwrap();
            path.push(s);
            proof {
                assert(texts(path@) =~= done.push(s@));
                assert(rest.reverse() =~= seq![s@] + texts(upwards@).reverse());
                assert(done + rest.reverse() =~= texts(path@) + texts(upwards@).reverse());
            }
        }
        assert(goal =~= texts(path@));
        path
    }

    /// The names from the top of the hierarchy down to this node, joined
    /// into one path.
    pub fn get_full_path(&self, tree: &Tree) -> (path: String)
        requires
            tree.wf(),
            self@.parent matches Some(p) ==> p < tree@.len(),
        ensures
            path@ == join_all(
                Seq::empty(),
                path_above(tree@, self@.parent).push(name_of(self@.data.filename)),
            ),
    {
        let components = self.get_path_components(tree);
        let n: usize = components.len();
        proof {
            reveal_strlit("");
            assert(texts(components@).subrange(0, n as int) =~= texts(components@));
            assert(""@ =~= Seq::<char>::empty());
        }
        join_segments("", &components, 0, n)
    }
}

} // verus!
