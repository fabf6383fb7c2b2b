//! The general laws of the tree, stated and proved over the model: name
//! uniqueness under insertion, the describe round trip, toggle absorption
//! and restoration, and what removal takes away.

use vstd::prelude::*;

use crate::view::{
    children_wf, descriptor, insert_child, lemma_set_open_children_shape, lookup, remove_children,
    set_open, set_open_children, spec_get_data, spec_remove, NodeView,
};

verus! {

/// How many children of a list carry the name `k`.
pub open spec fn name_count(items: Seq<NodeView>, k: Seq<char>) -> int
    decreases items.len(),
{
    if items.len() == 0 {
        0
    } else {
        (if items[0].name() == k {
            1int
        } else {
            0int
        }) + name_count(items.subrange(1, items.len() as int), k)
    }
}

/// No child carries `k`: the count is zero.
proof fn lemma_name_count_absent(items: Seq<NodeView>, k: Seq<char>)
    requires
        forall|j: int| 0 <= j < items.len() ==> (#[trigger] items[j]).name() != k,
    ensures
        name_count(items, k) == 0,
    decreases items.len(),
{
    if items.len() > 0 {
        let rest = items.subrange(1, items.len() as int);
        assert forall|j: int| 0 <= j < rest.len() implies (#[trigger] rest[j]).name() != k by {
            assert(rest[j] == items[j + 1]);
        }
        lemma_name_count_absent(rest, k);
    }
}

/// Uniqueness: under any well-formed parent, at most one child carries a
/// given name. Insertion keys children by their derived name and overwrites
/// on collision (last write wins), and every operation of the tree
/// preserves well-formedness, so no insert sequence ever yields a second
/// entry under the same key.
pub proof fn lemma_unique_child_names(t: NodeView, k: Seq<char>)
    requires
        t.wf(),
    ensures
        name_count(t.children(), k) <= 1,
{
    lemma_name_count_distinct(t.children(), k);
}

/// Pairwise distinct names bound every name count by one.
proof fn lemma_name_count_distinct(items: Seq<NodeView>, k: Seq<char>)
    requires
        forall|i: int, j: int|
            0 <= i < j < items.len() ==> (#[trigger] items[i]).name() != (#[trigger] items[j]).name(),
    ensures
        name_count(items, k) <= 1,
    decreases items.len(),
{
    if items.len() > 0 {
        let rest = items.subrange(1, items.len() as int);
        assert forall|i: int, j: int| 0 <= i < j < rest.len() implies (#[trigger] rest[i]).name()
            != (#[trigger] rest[j]).name() by {
            assert(rest[i] == items[i + 1] && rest[j] == items[j + 1]);
        }
        lemma_name_count_distinct(rest, k);
        if items[0].name() == k {
            assert forall|j: int| 0 <= j < rest.len() implies (#[trigger] rest[j]).name() != k by {
                assert(rest[j] == items[j + 1]);
                assert(items[0].name() != items[j + 1].name());
            }
            lemma_name_count_absent(rest, k);
        }
    }
}

/// Round trip: inserting a file or folder under a well-formed parent and
/// then describing its path against that parent returns exactly the
/// inserted node's descriptor — kind tag, name and path included. The one
/// proviso: no child under a different name may already claim the same
/// path, for such a child would shadow the lookup.
pub proof fn lemma_describe_after_insert(items: Seq<NodeView>, item: NodeView)
    requires
        children_wf(items),
        item is File || item is Folder,
        forall|i: int|
            0 <= i < items.len() && (#[trigger] items[i]).name() != item.name() ==> items[i].path()
                != item.path(),
    ensures
        lookup(insert_child(items, item), item.path()) == descriptor(item),
    decreases items.len(),
{
    let p = item.path();
    let ins = insert_child(items, item);
    if items.len() == 0 {
        assert(ins[0] == item);
    } else if items[0].name() == item.name() {
        assert(ins[0] == item);
    } else {
        let rest = items.subrange(1, items.len() as int);
        assert(items[0].path() != p);
        assert(ins[0] == items[0]);
        assert forall|i: int, j: int| 0 <= i < j < rest.len() implies (#[trigger] rest[i]).name()
            != (#[trigger] rest[j]).name() by {
            assert(rest[i] == items[i + 1] && rest[j] == items[j + 1]);
        }
        assert forall|i: int| 0 <= i < rest.len() implies !((#[trigger] rest[i]) is Root)
            && rest[i].wf() by {
            assert(rest[i] == items[i + 1]);
        }
        assert forall|i: int|
            0 <= i < rest.len() && (#[trigger] rest[i]).name() != item.name() implies rest[i].path()
            != p by {
            assert(rest[i] == items[i + 1]);
        }
        lemma_describe_after_insert(rest, item);
        assert(ins.subrange(1, ins.len() as int) =~= insert_child(rest, item));
        assert(lookup(ins, p) == lookup(insert_child(rest, item), p));
    }
}

/// The describe round trip lifted to a `Folder` parent, as `add_item`
/// leaves it and `get_data` reads it.
pub proof fn lemma_round_trip_describe(t: NodeView, item: NodeView)
    requires
        t.wf(),
        t is Folder,
        item is File || item is Folder,
        forall|i: int|
            0 <= i < t.children().len() && (#[trigger] t.children()[i]).name() != item.name()
                ==> t.children()[i].path() != item.path(),
    ensures
        spec_get_data(t.with_children(insert_child(t.children(), item)), item.path()) == descriptor(
            item,
        ),
        descriptor(item)[0] == if item is File {
            "file"@
        } else {
            "folder"@
        },
        descriptor(item)[1] == item.name(),
        descriptor(item)[2] == item.path(),
{
    lemma_describe_after_insert(t.children(), item);
}

/// Absorption: a second toggle of the same path overrides the first, so
/// toggling twice with the same value is the same as toggling once.
pub proof fn lemma_toggle_absorbs(t: NodeView, p: Seq<char>, a: bool, b: bool)
    ensures
        set_open(set_open(t, p, a), p, b) == set_open(t, p, b),
    decreases t,
{
    match t {
        NodeView::File { .. } => {},
        NodeView::Folder { name, path, open, items } => {
            if path == p {
            } else {
                lemma_toggle_absorbs_children(items, p, a, b);
                assert(set_open(set_open(t, p, a), p, b) =~= set_open(t, p, b));
            }
        },
        NodeView::Root { items } => {
            lemma_toggle_absorbs_children(items, p, a, b);
            assert(set_open(set_open(t, p, a), p, b) =~= set_open(t, p, b));
        },
    }
}

/// Absorption over a child list.
proof fn lemma_toggle_absorbs_children(items: Seq<NodeView>, p: Seq<char>, a: bool, b: bool)
    ensures
        set_open_children(set_open_children(items, p, a), p, b) == set_open_children(items, p, b),
    decreases items,
{
    let once = set_open_children(items, p, a);
    lemma_set_open_children_shape(items, p, a);
    lemma_set_open_children_shape(once, p, b);
    lemma_set_open_children_shape(items, p, b);
    assert forall|i: int| 0 <= i < items.len() implies #[trigger] set_open_children(once, p, b)[i]
        == set_open_children(items, p, b)[i] by {
        lemma_toggle_absorbs(items[i], p, a, b);
    }
    assert(set_open_children(once, p, b) =~= set_open_children(items, p, b));
}

/// Every folder that a toggle of `(p, b)` would reach already has its open
/// flag at `b`.
pub open spec fn all_at_path_open(t: NodeView, p: Seq<char>, b: bool) -> bool
    decreases t,
{
    match t {
        NodeView::File { .. } => true,
        NodeView::Folder { name, path, open, items } => {
            if path == p {
                open == b
            } else {
                all_children_at_path_open(items, p, b)
            }
        },
        NodeView::Root { items } => all_children_at_path_open(items, p, b),
    }
}

/// `all_at_path_open` over a child list.
pub open spec fn all_children_at_path_open(items: Seq<NodeView>, p: Seq<char>, b: bool) -> bool
    decreases items,
{
    forall|i: int| 0 <= i < items.len() ==> all_at_path_open(#[trigger] items[i], p, b)
}

/// Restoration: when every folder at `p` already holds `b0`, toggling to
/// any value and back to `b0` returns the tree to its original state —
/// toggling twice with alternating values undoes itself.
pub proof fn lemma_toggle_restores(t: NodeView, p: Seq<char>, a: bool, b0: bool)
    requires
        all_at_path_open(t, p, b0),
    ensures
        set_open(set_open(t, p, a), p, b0) == t,
    decreases t,
{
    match t {
        NodeView::File { .. } => {},
        NodeView::Folder { name, path, open, items } => {
            if path == p {
                assert(set_open(set_open(t, p, a), p, b0) =~= t);
            } else {
                lemma_toggle_restores_children(items, p, a, b0);
                assert(set_open(set_open(t, p, a), p, b0) =~= t);
            }
        },
        NodeView::Root { items } => {
            lemma_toggle_restores_children(items, p, a, b0);
            assert(set_open(set_open(t, p, a), p, b0) =~= t);
        },
    }
}

/// Restoration over a child list.
proof fn lemma_toggle_restores_children(items: Seq<NodeView>, p: Seq<char>, a: bool, b0: bool)
    requires
        all_children_at_path_open(items, p, b0),
    ensures
        set_open_children(set_open_children(items, p, a), p, b0) == set_open_children(items, p, b0),
        set_open_children(items, p, b0) == items,
    decreases items,
{
    let once = set_open_children(items, p, a);
    lemma_set_open_children_shape(items, p, a);
    lemma_set_open_children_shape(once, p, b0);
    lemma_set_open_children_shape(items, p, b0);
    assert forall|i: int| 0 <= i < items.len() implies #[trigger] set_open_children(items, p, b0)[i]
        == items[i] && set_open_children(once, p, b0)[i] == items[i] by {
        lemma_toggle_restores(items[i], p, a, b0);
        lemma_toggle_absorbs(items[i], p, a, b0);
    }
    assert(set_open_children(items, p, b0) =~= items);
    assert(set_open_children(once, p, b0) =~= items);
}

/// No folder child matches: removal changes nothing.
proof fn lemma_remove_children_noop(items: Seq<NodeView>, p: Seq<char>)
    requires
        forall|j: int|
            0 <= j < items.len() ==> !((#[trigger] items[j]) is Folder && items[j].path() == p),
    ensures
        remove_children(items, p) == items,
    decreases items.len(),
{
    if items.len() > 0 {
        let rest = items.subrange(1, items.len() as int);
        assert forall|j: int| 0 <= j < rest.len() implies !((#[trigger] rest[j]) is Folder
            && rest[j].path() == p) by {
            assert(rest[j] == items[j + 1]);
        }
        lemma_remove_children_noop(rest, p);
        assert(remove_children(items, p) =~= items);
    }
}

/// No child carries the path: the lookup misses.
proof fn lemma_lookup_miss(items: Seq<NodeView>, p: Seq<char>)
    requires
        forall|j: int| 0 <= j < items.len() ==> (#[trigger] items[j]).path() != p,
    ensures
        lookup(items, p) == Seq::<Seq<char>>::empty(),
    decreases items.len(),
{
    if items.len() > 0 {
        let rest = items.subrange(1, items.len() as int);
        assert forall|j: int| 0 <= j < rest.len() implies (#[trigger] rest[j]).path() != p by {
            assert(rest[j] == items[j + 1]);
        }
        lemma_lookup_miss(rest, p);
    }
}

/// Removal shrinks exactly one branch: when exactly one child is a folder
/// at path `p` and no file child shares that path, removing `p` takes the
/// immediate child count down by exactly one, and a subsequent one-level
/// describe of `p` returns empty.
pub proof fn lemma_remove_shrinks(items: Seq<NodeView>, p: Seq<char>, i0: int)
    requires
        children_wf(items),
        0 <= i0 < items.len(),
        items[i0] is Folder && items[i0].path() == p,
        forall|j: int|
            0 <= j < items.len() && j != i0 ==> !((#[trigger] items[j]) is Folder && items[j].path()
                == p),
        forall|j: int| 0 <= j < items.len() ==> ((#[trigger] items[j]) is File ==> items[j].path() != p),
    ensures
        remove_children(items, p).len() == items.len() - 1,
        lookup(remove_children(items, p), p) == Seq::<Seq<char>>::empty(),
    decreases items.len(),
{
    let rest = items.subrange(1, items.len() as int);
    let rc = remove_children(items, p);
    if i0 == 0 {
        assert forall|j: int| 0 <= j < rest.len() implies !((#[trigger] rest[j]) is Folder
            && rest[j].path() == p) by {
            assert(rest[j] == items[j + 1]);
        }
        lemma_remove_children_noop(rest, p);
        assert forall|j: int| 0 <= j < rest.len() implies (#[trigger] rest[j]).path() != p by {
            assert(rest[j] == items[j + 1]);
            assert(!(items[j + 1] is Root));
            if items[j + 1] is File {
                assert(items[j + 1].path() != p);
            }
        }
        lemma_lookup_miss(rest, p);
        assert(rc == rest);
    } else {
        assert forall|i: int, j: int| 0 <= i < j < rest.len() implies (#[trigger] rest[i]).name()
            != (#[trigger] rest[j]).name() by {
            assert(rest[i] == items[i + 1] && rest[j] == items[j + 1]);
        }
        assert forall|i: int| 0 <= i < rest.len() implies !((#[trigger] rest[i]) is Root)
            && rest[i].wf() by {
            assert(rest[i] == items[i + 1]);
        }
        assert forall|j: int| 0 <= j < rest.len() && j != i0 - 1 implies !((#[trigger] rest[j]) is Folder
            && rest[j].path() == p) by {
            assert(rest[j] == items[j + 1]);
        }
        assert forall|j: int| 0 <= j < rest.len() implies ((#[trigger] rest[j]) is File
            ==> rest[j].path() != p) by {
            assert(rest[j] == items[j + 1]);
        }
        assert(rest[i0 - 1] == items[i0]);
        lemma_remove_shrinks(rest, p, i0 - 1);
        assert(!(items[0] is Folder && items[0].path() == p));
        assert(items[0] is File ==> items[0].path() != p);
        assert(!(items[0] is Root));
        assert(items[0].path() != p);
        assert(rc == seq![items[0]] + remove_children(rest, p));
        assert(rc.subrange(1, rc.len() as int) =~= remove_children(rest, p));
        assert(lookup(rc, p) == lookup(remove_children(rest, p), p));
    }
}

/// `lemma_remove_shrinks` lifted to a node, as `remove_item` leaves it and
/// `get_data` reads it.
pub proof fn lemma_remove_shrinks_node(t: NodeView, p: Seq<char>, i0: int)
    requires
        t.wf(),
        t is Folder || t is Root,
        0 <= i0 < t.children().len(),
        t.children()[i0] is Folder && t.children()[i0].path() == p,
        forall|j: int|
            0 <= j < t.children().len() && j != i0 ==> !((#[trigger] t.children()[j]) is Folder
                && t.children()[j].path() == p),
        forall|j: int|
            0 <= j < t.children().len() ==> ((#[trigger] t.children()[j]) is File
                ==> t.children()[j].path() != p),
    ensures
        spec_remove(t, p).children().len() == t.children().len() - 1,
        spec_get_data(spec_remove(t, p), p) == Seq::<Seq<char>>::empty(),
{
    lemma_remove_shrinks(t.children(), p, i0);
}

} // verus!
