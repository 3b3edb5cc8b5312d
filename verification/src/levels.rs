//! How depths alone decide the shape of the hierarchy. While a drawing is
//! read, a stack holds at position `d` the entry seen last at depth `d`; an
//! entry at depth `d > 0` hangs below what stands at position `d - 1`. This
//! module states that rule over the sequence of entries, and proves what
//! follows from it.

use crate::models::file_item::FileItemView;
use crate::models::node::{
    child_linked, level_fits, levels_consistent, linked, parent_linked, well_formed, NodeView,
};
use vstd::prelude::*;

verus! {

/// The entry seen last at depth `d` among the first `n` entries, or -1.
pub open spec fn latest_at(es: Seq<FileItemView>, n: int, d: int) -> int
    decreases n,
{
    if n <= 0 {
        -1
    } else if es[n - 1].level == d {
        n - 1
    } else {
        latest_at(es, n - 1, d)
    }
}

/// The height of the stack once the first `n` entries are in place. An
/// entry at depth `d > 0` cuts the stack down to `d` and goes on top; the
/// first entry at depth 0 starts the stack; a later one replaces position 0
/// and leaves the rest as it is.
pub open spec fn stack_len(es: Seq<FileItemView>, n: int) -> nat
    decreases n,
{
    if n <= 0 {
        0
    } else if es[n - 1].level > 0 {
        es[n - 1].level + 1
    } else if stack_len(es, n - 1) == 0 {
        1
    } else {
        stack_len(es, n - 1)
    }
}

/// Entry `i` lies deeper than the stack before it is high: it skips a level
/// and has nothing to hang below.
pub open spec fn orphan_at(es: Seq<FileItemView>, i: int) -> bool {
    es[i].level > stack_len(es, i)
}

/// None of the first `n` entries is an orphan.
pub open spec fn orphan_free(es: Seq<FileItemView>, n: int) -> bool {
    forall|i: int| 0 <= i < n ==> !#[trigger] orphan_at(es, i)
}

/// Entry `i` is the first orphan of `es`.
pub open spec fn first_orphan(es: Seq<FileItemView>, i: int) -> bool {
    0 <= i < es.len() && orphan_at(es, i) && orphan_free(es, i)
}

/// The entry that entry `i` hangs below, or -1: what the stack holds one
/// position above the depth of `i`.
pub open spec fn parent_index(es: Seq<FileItemView>, i: int) -> int {
    if es[i].level == 0 {
        -1
    } else {
        latest_at(es, i, es[i].level - 1)
    }
}

/// `parent_index` as a link.
pub open spec fn parent_of(es: Seq<FileItemView>, i: int) -> Option<usize> {
    if parent_index(es, i) >= 0 {
        Some(parent_index(es, i) as usize)
    } else {
        None
    }
}

/// Those of the first `n` entries that hang below entry `i`, in the order
/// of the drawing.
pub open spec fn children_of(es: Seq<FileItemView>, i: int, n: int) -> Seq<usize>
    decreases n,
{
    if n <= 0 {
        Seq::empty()
    } else if parent_index(es, n - 1) == i {
        children_of(es, i, n - 1).push((n - 1) as usize)
    } else {
        children_of(es, i, n - 1)
    }
}

/// How many of the first `n` entries lie at depth 0.
pub open spec fn root_count(es: Seq<FileItemView>, n: int) -> nat
    decreases n,
{
    if n <= 0 {
        0
    } else if es[n - 1].level == 0 {
        root_count(es, n - 1) + 1
    } else {
        root_count(es, n - 1)
    }
}

/// The greatest depth among the first `n` entries; 0 where there is none.
pub open spec fn max_depth(es: Seq<FileItemView>, n: int) -> nat
    decreases n,
{
    if n <= 0 {
        0
    } else if es[n - 1].level > max_depth(es, n - 1) {
        es[n - 1].level
    } else {
        max_depth(es, n - 1)
    }
}

/// The hierarchy that the entries stand for: one node for each, in order.
pub open spec fn tree_of(es: Seq<FileItemView>) -> Seq<NodeView> {
    Seq::new(
        es.len(),
        |i: int|
            NodeView {
                data: es[i],
                children: children_of(es, i, es.len() as int),
                parent: parent_of(es, i),
            },
    )
}

/// `latest_at` finds an entry of the depth asked for, and the last such.
pub proof fn lemma_latest_at(es: Seq<FileItemView>, n: int, d: int)
    requires
        0 <= n <= es.len(),
    ensures
        -1 <= latest_at(es, n, d) < n,
        latest_at(es, n, d) >= 0 ==> es[latest_at(es, n, d)].level == d,
        forall|j: int| latest_at(es, n, d) < j < n ==> (#[trigger] es[j]).level != d,
    decreases n,
{
    if n > 0 && es[n - 1].level != d {
        lemma_latest_at(es, n - 1, d);
    }
}

/// Two sequences that agree on their first `n` entries have the same stack
/// and the same links there.
pub proof fn lemma_same_prefix(a: Seq<FileItemView>, b: Seq<FileItemView>, n: int)
    requires
        0 <= n <= a.len(),
        n <= b.len(),
        forall|j: int| 0 <= j < n ==> a[j] == b[j],
    ensures
        stack_len(a, n) == stack_len(b, n),
        root_count(a, n) == root_count(b, n),
        max_depth(a, n) == max_depth(b, n),
        forall|d: int| latest_at(a, n, d) == #[trigger] latest_at(b, n, d),
        forall|i: int| children_of(a, i, n) == #[trigger] children_of(b, i, n),
        forall|j: int| 0 <= j < n ==> parent_index(a, j) == #[trigger] parent_index(b, j),
        forall|j: int| 0 <= j < n ==> orphan_at(a, j) == #[trigger] orphan_at(b, j),
        orphan_free(a, n) == orphan_free(b, n),
    decreases n,
{
    if n > 0 {
        lemma_same_prefix(a, b, n - 1);
        assert forall|d: int| latest_at(a, n, d) == #[trigger] latest_at(b, n, d) by {
            assert(latest_at(a, n - 1, d) == latest_at(b, n - 1, d));
        }
        assert(parent_index(a, n - 1) == parent_index(b, n - 1)) by {
            assert(latest_at(a, n - 1, a[n - 1].level - 1) == latest_at(
                b,
                n - 1,
                a[n - 1].level - 1,
            ));
        }
        assert forall|i: int| children_of(a, i, n) == #[trigger] children_of(b, i, n) by {
            assert(children_of(a, i, n - 1) == children_of(b, i, n - 1));
        }
        assert forall|j: int| 0 <= j < n implies parent_index(a, j) == #[trigger] parent_index(
            b,
            j,
        ) by {
            if j < n - 1 {
                assert(parent_index(a, j) == parent_index(b, j));
            }
        }
        assert forall|j: int| 0 <= j < n implies orphan_at(a, j) == #[trigger] orphan_at(b, j) by {
            if j < n - 1 {
                assert(orphan_at(a, j) == orphan_at(b, j));
            }
        }
        if orphan_free(a, n) {
            assert forall|i: int| 0 <= i < n implies !#[trigger] orphan_at(b, i) by {
                assert(!orphan_at(a, i));
            }
        }
        if orphan_free(b, n) {
            assert forall|i: int| 0 <= i < n implies !#[trigger] orphan_at(a, i) by {
                assert(!orphan_at(b, i));
            }
        }
    }
}

/// Without orphans, every position of the stack is taken: below the height
/// of the stack each depth has been seen. The stack is empty only before
/// the first entry, which lies at depth 0.
pub proof fn lemma_stack_filled(es: Seq<FileItemView>, n: int)
    requires
        0 <= n <= es.len(),
        orphan_free(es, n),
    ensures
        forall|d: int| 0 <= d < stack_len(es, n) ==> 0 <= #[trigger] latest_at(es, n, d),
        n > 0 ==> stack_len(es, n) > 0 && es[0].level == 0 && root_count(es, n) > 0,
    decreases n,
{
    if n > 0 {
        assert(orphan_free(es, n - 1)) by {
            assert forall|i: int| 0 <= i < n - 1 implies !#[trigger] orphan_at(es, i) by {}
        }
        lemma_stack_filled(es, n - 1);
        assert(!orphan_at(es, n - 1));
        assert forall|d: int| 0 <= d < stack_len(es, n) implies 0 <= #[trigger] latest_at(
            es,
            n,
            d,
        ) by {
            if es[n - 1].level != d {
                assert(0 <= latest_at(es, n - 1, d));
            }
        }
    }
}

/// An entry goes on the stack at the position of its depth: once entry `i`
/// is in place the stack is higher than the depth of `i`, and holds `i`
/// there. What it hangs below lies one level above it.
pub proof fn lemma_position_on_stack(es: Seq<FileItemView>, i: int)
    requires
        0 <= i < es.len(),
        orphan_free(es, i + 1),
    ensures
        es[i].level < stack_len(es, i + 1),
        latest_at(es, i + 1, es[i].level as int) == i,
        es[i].level > 0 ==> 0 <= parent_index(es, i) < i && es[parent_index(es, i)].level + 1
            == es[i].level,
        es[i].level == 0 ==> parent_index(es, i) == -1,
{
    assert(orphan_free(es, i)) by {
        assert forall|j: int| 0 <= j < i implies !#[trigger] orphan_at(es, j) by {}
    }
    lemma_stack_filled(es, i);
    lemma_stack_filled(es, i + 1);
    assert(!orphan_at(es, i));
    if es[i].level > 0 {
        lemma_latest_at(es, i, es[i].level - 1);
        assert(0 <= latest_at(es, i, es[i].level - 1));
    }
}

/// The children of an entry stand behind it, and so do not show among the
/// entries up to it.
pub proof fn lemma_children_later(es: Seq<FileItemView>, i: int, n: int)
    requires
        0 <= n <= es.len(),
        n <= i + 1,
    ensures
        children_of(es, i, n) == Seq::<usize>::empty(),
    decreases n,
{
    if n > 0 {
        lemma_children_later(es, i, n - 1);
        if es[n - 1].level > 0 {
            lemma_latest_at(es, n - 1, es[n - 1].level - 1);
        }
    }
}

/// What `children_of` lists: each child once, in rising order, each behind
/// its parent, and all of them.
pub proof fn lemma_children_of(es: Seq<FileItemView>, i: int, n: int)
    requires
        0 <= n <= es.len(),
        n <= usize::MAX,
    ensures
        forall|k: int|
            0 <= k < children_of(es, i, n).len() ==> {
                let c = #[trigger] children_of(es, i, n)[k];
                c < n && parent_index(es, c as int) == i
            },
        forall|k: int, l: int|
            0 <= k < l < children_of(es, i, n).len() ==> children_of(es, i, n)[k] < children_of(
                es,
                i,
                n,
            )[l],
        forall|j: int|
            0 <= j < n && parent_index(es, j) == i ==> children_of(es, i, n).contains(j as usize),
    decreases n,
{
    if n > 0 {
        lemma_children_of(es, i, n - 1);
        let before = children_of(es, i, n - 1);
        let now = children_of(es, i, n);
        assert forall|j: int| 0 <= j < n && parent_index(es, j) == i implies now.contains(
            j as usize,
        ) by {
            if j < n - 1 {
                assert(before.contains(j as usize));
                let k = choose|k: int| 0 <= k < before.len() && before[k] == j as usize;
                assert(now[k] == j as usize);
            } else {
                assert(now[now.len() - 1] == j as usize);
            }
        }
    }
}

/// In a sequence without orphans, entry `i` hangs below an earlier entry
/// one level above it, which lists it among its children.
proof fn lemma_entry_linked(es: Seq<FileItemView>, i: int)
    requires
        orphan_free(es, es.len() as int),
        es.len() <= usize::MAX,
        0 <= i < es.len(),
    ensures
        parent_linked(tree_of(es), i),
        level_fits(tree_of(es), i),
{
    let n = es.len() as int;
    assert(orphan_free(es, i + 1)) by {
        assert forall|j: int| 0 <= j < i + 1 implies !#[trigger] orphan_at(es, j) by {}
    }
    lemma_position_on_stack(es, i);
    if es[i].level > 0 {
        let p = parent_index(es, i);
        lemma_children_of(es, p, n);
        assert(children_of(es, p, n).contains(i as usize));
    }
}

/// Without orphans the entries make a well-formed hierarchy in which every
/// node lies one level below its parent.
pub proof fn lemma_tree_of_well_formed(es: Seq<FileItemView>)
    requires
        orphan_free(es, es.len() as int),
        es.len() <= usize::MAX,
        forall|i: int| 0 <= i < es.len() ==> (#[trigger] es[i]).level <= usize::MAX,
    ensures
        well_formed(tree_of(es)),
        levels_consistent(tree_of(es)),
{
    let t = tree_of(es);
    let n = es.len() as int;
    assert forall|i: int| 0 <= i < t.len() implies #[trigger] parent_linked(t, i) by {
        lemma_entry_linked(es, i);
    }
    assert forall|i: int| 0 <= i < t.len() implies #[trigger] level_fits(t, i) by {
        lemma_entry_linked(es, i);
    }
    assert forall|i: int, k: int|
        0 <= i < t.len() && 0 <= k < t[i].children.len() implies #[trigger] child_linked(
        t,
        i,
        k,
    ) by {
        lemma_children_of(es, i, n);
        let c = children_of(es, i, n)[k];
        assert(parent_index(es, c as int) == i);
        if es[c as int].level > 0 {
            lemma_latest_at(es, c as int, es[c as int].level - 1);
        }
    }
    assert forall|i: int| 0 <= i < t.len() implies (#[trigger] t[i]).children.no_duplicates() by {
        lemma_children_of(es, i, n);
    }
}

/// The hierarchy after one more entry: the node for `entry` behind the
/// others, hung below what the stack holds one position above its depth.
pub proof fn lemma_tree_of_push(es: Seq<FileItemView>, entry: FileItemView)
    requires
        orphan_free(es.push(entry), es.len() as int + 1),
        es.len() < usize::MAX,
    ensures
        entry.level == 0 ==> tree_of(es.push(entry)) == tree_of(es).push(
            NodeView { data: entry, children: Seq::empty(), parent: None },
        ),
        entry.level > 0 ==> 0 <= latest_at(es, es.len() as int, entry.level - 1) < es.len()
            && es[latest_at(es, es.len() as int, entry.level - 1)].level + 1 == entry.level
            && tree_of(es.push(entry)) == linked(
            tree_of(es).push(NodeView { data: entry, children: Seq::empty(), parent: None }),
            latest_at(es, es.len() as int, entry.level - 1),
            es.len() as int,
        ),
{
    let n = es.len() as int;
    let more = es.push(entry);
    let fresh = NodeView { data: entry, children: Seq::empty(), parent: None };
    lemma_same_prefix(more, es, n);
    lemma_children_later(more, n, n + 1);
    lemma_position_on_stack(more, n);
    let grown = tree_of(es).push(fresh);
    if entry.level == 0 {
        assert forall|i: int| 0 <= i < n + 1 implies tree_of(more)[i] == grown[i] by {
            if i < n {
                assert(children_of(more, i, n) == children_of(es, i, n));
                assert(parent_index(more, i) == parent_index(es, i));
            }
        }
        assert(tree_of(more) =~= grown);
    } else {
        let p = latest_at(es, n, entry.level - 1);
        assert(p == latest_at(more, n, entry.level - 1));
        assert(p == parent_index(more, n));
        let hung = linked(grown, p, n);
        assert forall|i: int| 0 <= i < n + 1 implies tree_of(more)[i] == hung[i] by {
            if i < n {
                assert(children_of(more, i, n) == children_of(es, i, n));
                assert(parent_index(more, i) == parent_index(es, i));
            }
        }
        assert(tree_of(more) =~= hung);
    }
}

} // verus!
