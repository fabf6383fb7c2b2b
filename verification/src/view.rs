//! The mathematical model of the tree: a `NodeView` is the abstract value of
//! one node, with children as a sequence. All contracts of the executable
//! operations are stated over this model.

use vstd::prelude::*;

verus! {

/// Abstract value of one tree node.
#[verifier::ext_equal]
pub enum NodeView {
    File { name: Seq<char>, extension: Seq<char>, path: Seq<char> },
    Folder { name: Seq<char>, path: Seq<char>, open: bool, items: Seq<NodeView> },
    Root { items: Seq<NodeView> },
}

impl NodeView {
    /// The node's name; a `Root` has none and yields the empty string.
    pub open spec fn name(self) -> Seq<char> {
        match self {
            NodeView::File { name, .. } => name,
            NodeView::Folder { name, .. } => name,
            NodeView::Root { .. } => Seq::empty(),
        }
    }

    /// The node's path; a `Root` has none and yields the empty string.
    pub open spec fn path(self) -> Seq<char> {
        match self {
            NodeView::File { path, .. } => path,
            NodeView::Folder { path, .. } => path,
            NodeView::Root { .. } => Seq::empty(),
        }
    }

    /// The node's extension; only a `File` has one.
    pub open spec fn extension(self) -> Seq<char> {
        match self {
            NodeView::File { extension, .. } => extension,
            _ => Seq::empty(),
        }
    }

    /// The node's immediate children; a `File` is a leaf.
    pub open spec fn children(self) -> Seq<NodeView> {
        match self {
            NodeView::File { .. } => Seq::empty(),
            NodeView::Folder { items, .. } => items,
            NodeView::Root { items } => items,
        }
    }

    /// The UI expansion flag; meaningful only for a `Folder`.
    pub open spec fn is_open(self) -> bool {
        match self {
            NodeView::Folder { open, .. } => open,
            _ => false,
        }
    }

    /// The same node with its children replaced; a `File` is left unchanged.
    pub open spec fn with_children(self, cs: Seq<NodeView>) -> NodeView {
        match self {
            NodeView::File { .. } => self,
            NodeView::Folder { name, path, open, .. } => NodeView::Folder {
                name,
                path,
                open,
                items: cs,
            },
            NodeView::Root { .. } => NodeView::Root { items: cs },
        }
    }

    /// Well-formedness: within each container the children carry pairwise
    /// distinct names, none of them is a `Root`, and each is well-formed.
    pub open spec fn wf(self) -> bool
        decreases self,
    {
        match self {
            NodeView::File { .. } => true,
            NodeView::Folder { items, .. } => children_wf(items),
            NodeView::Root { items } => children_wf(items),
        }
    }
}

/// Well-formedness of a child sequence: pairwise distinct names, no `Root`
/// among the children, every child well-formed.
pub open spec fn children_wf(items: Seq<NodeView>) -> bool
    decreases items,
{
    &&& forall|i: int, j: int|
        0 <= i < j < items.len() ==> (#[trigger] items[i]).name() != (#[trigger] items[j]).name()
    &&& forall|i: int| 0 <= i < items.len() ==> !((#[trigger] items[i]) is Root)
    &&& forall|i: int| 0 <= i < items.len() ==> (#[trigger] items[i]).wf()
}

/// Insertion keyed by derived name, last write wins: the first child with the
/// same name is replaced in place; otherwise the item is appended.
pub open spec fn insert_child(items: Seq<NodeView>, item: NodeView) -> Seq<NodeView>
    decreases items.len(),
{
    if items.len() == 0 {
        seq![item]
    } else if items[0].name() == item.name() {
        seq![item] + items.subrange(1, items.len() as int)
    } else {
        seq![items[0]] + insert_child(items.subrange(1, items.len() as int), item)
    }
}

/// The open flag after `set_open`: the node itself when its path matches,
/// otherwise every child is toggled recursively; a `File` is a leaf.
/// A matching `Folder` stops the walk, exactly as the executable walk does.
pub open spec fn set_open(t: NodeView, p: Seq<char>, b: bool) -> NodeView
    decreases t,
{
    match t {
        NodeView::File { .. } => t,
        NodeView::Folder { name, path, open, items } => {
            if path == p {
                NodeView::Folder { name, path, open: b, items }
            } else {
                NodeView::Folder { name, path, open, items: set_open_children(items, p, b) }
            }
        },
        NodeView::Root { items } => NodeView::Root { items: set_open_children(items, p, b) },
    }
}

/// `set_open` applied to every child.
pub open spec fn set_open_children(items: Seq<NodeView>, p: Seq<char>, b: bool) -> Seq<NodeView>
    decreases items,
{
    if items.len() == 0 {
        Seq::empty()
    } else {
        seq![set_open(items[0], p, b)] + set_open_children(
            items.subrange(1, items.len() as int),
            p,
            b,
        )
    }
}

/// The children that survive removal by path: every direct child `Folder`
/// whose path equals `p` is dropped; files and other folders stay, in order.
pub open spec fn remove_children(items: Seq<NodeView>, p: Seq<char>) -> Seq<NodeView>
    decreases items.len(),
{
    if items.len() == 0 {
        Seq::empty()
    } else {
        let rest = remove_children(items.subrange(1, items.len() as int), p);
        if items[0] is Folder && items[0].path() == p {
            rest
        } else {
            seq![items[0]] + rest
        }
    }
}

/// Removal at one level: the node with its matching folder children dropped.
pub open spec fn spec_remove(t: NodeView, p: Seq<char>) -> NodeView {
    t.with_children(remove_children(t.children(), p))
}

/// The stringified boolean used in descriptors.
pub open spec fn bool_chars(b: bool) -> Seq<char> {
    if b {
        "true"@
    } else {
        "false"@
    }
}

/// The comma-joined list of the children's names.
pub open spec fn joined_names(items: Seq<NodeView>) -> Seq<char>
    decreases items.len(),
{
    if items.len() == 0 {
        Seq::empty()
    } else if items.len() == 1 {
        items[0].name()
    } else {
        items[0].name() + ", "@ + joined_names(items.subrange(1, items.len() as int))
    }
}

/// The descriptor of one node: for a file its kind tag, name, path and
/// extension; for a folder its kind tag, name, path, stringified open flag
/// and the joined names of its children. A `Root` never stands as a child
/// and has no descriptor.
pub open spec fn descriptor(t: NodeView) -> Seq<Seq<char>> {
    match t {
        NodeView::File { name, extension, path } => seq!["file"@, name, path, extension],
        NodeView::Folder { name, path, open, items } => seq![
            "folder"@,
            name,
            path,
            bool_chars(open),
            joined_names(items),
        ],
        NodeView::Root { .. } => Seq::empty(),
    }
}

/// One-level lookup by path: the descriptor of the first child whose path
/// equals `p`, or the empty sequence when none matches.
pub open spec fn lookup(items: Seq<NodeView>, p: Seq<char>) -> Seq<Seq<char>>
    decreases items.len(),
{
    if items.len() == 0 {
        Seq::empty()
    } else if items[0].path() == p {
        descriptor(items[0])
    } else {
        lookup(items.subrange(1, items.len() as int), p)
    }
}

/// What `get_data` returns: a one-level lookup among the immediate children;
/// a `File` has none and yields the empty result.
pub open spec fn spec_get_data(t: NodeView, p: Seq<char>) -> Seq<Seq<char>> {
    lookup(t.children(), p)
}

/// Whether some child is the bootstrap slot: a `Folder` named `root`.
pub open spec fn has_bootstrap(items: Seq<NodeView>) -> bool {
    exists|i: int|
        0 <= i < items.len() && (#[trigger] items[i]) is Folder && items[i].name() == "root"@
}

/// The index of the bootstrap slot; under `children_wf` it is unique.
pub open spec fn bootstrap_index(items: Seq<NodeView>) -> int {
    choose|i: int|
        0 <= i < items.len() && (#[trigger] items[i]) is Folder && items[i].name() == "root"@
}

/// A Root-targeted insert: the item lands in the bootstrap folder's children.
pub open spec fn root_insert(items: Seq<NodeView>, item: NodeView) -> Seq<NodeView> {
    let i = bootstrap_index(items);
    let boot = items[i];
    items.update(i, boot.with_children(insert_child(boot.children(), item)))
}

/// Toggling never changes a node's kind, name, path or children's names,
/// only open flags; in particular it preserves well-formedness.
pub proof fn lemma_set_open_shape(t: NodeView, p: Seq<char>, b: bool)
    ensures
        set_open(t, p, b).name() == t.name(),
        set_open(t, p, b).path() == t.path(),
        (set_open(t, p, b) is Folder) == (t is Folder),
        (set_open(t, p, b) is File) == (t is File),
        (set_open(t, p, b) is Root) == (t is Root),
        t.wf() ==> set_open(t, p, b).wf(),
    decreases t,
{
    match t {
        NodeView::File { .. } => {},
        NodeView::Folder { name, path, open, items } => {
            if path != p {
                lemma_set_open_children_shape(items, p, b);
            }
        },
        NodeView::Root { items } => {
            lemma_set_open_children_shape(items, p, b);
        },
    }
}

/// `set_open_children` is the pointwise image of `set_open`, and it
/// preserves well-formedness of the child list.
pub proof fn lemma_set_open_children_shape(items: Seq<NodeView>, p: Seq<char>, b: bool)
    ensures
        set_open_children(items, p, b).len() == items.len(),
        forall|i: int|
            0 <= i < items.len() ==> #[trigger] set_open_children(items, p, b)[i] == set_open(
                items[i],
                p,
                b,
            ),
        children_wf(items) ==> children_wf(set_open_children(items, p, b)),
    decreases items,
{
    let sc = set_open_children(items, p, b);
    if items.len() > 0 {
        let rest = items.subrange(1, items.len() as int);
        lemma_set_open_children_shape(rest, p, b);
        assert forall|i: int| 0 <= i < items.len() implies #[trigger] sc[i] == set_open(
            items[i],
            p,
            b,
        ) by {
            if i > 0 {
                assert(rest[i - 1] == items[i]);
                assert(sc[i] == set_open_children(rest, p, b)[i - 1]);
            }
        }
    }
    if children_wf(items) {
        assert forall|i: int| 0 <= i < sc.len() implies !((#[trigger] sc[i]) is Root) && sc[i].wf()
            && sc[i].name() == items[i].name() by {
            lemma_set_open_shape(items[i], p, b);
        }
        assert forall|i: int, j: int| 0 <= i < j < sc.len() implies (#[trigger] sc[i]).name() != (
        #[trigger] sc[j]).name() by {
            assert(items[i].name() != items[j].name());
        }
        assert(children_wf(sc));
    }
}

/// Appending one child extends the joined name list by a separator (when
/// the list was non-empty) and the new child's name.
pub proof fn lemma_joined_names_snoc(items: Seq<NodeView>, x: NodeView)
    ensures
        items.len() == 0 ==> joined_names(items.push(x)) == x.name(),
        items.len() > 0 ==> joined_names(items.push(x)) == joined_names(items) + ", "@ + x.name(),
    decreases items.len(),
{
    let s = items.push(x);
    if items.len() == 0 {
        assert(s[0] == x);
    } else {
        let rest = items.subrange(1, items.len() as int);
        assert(s[0] == items[0]);
        assert(s.subrange(1, s.len() as int) =~= rest.push(x));
        lemma_joined_names_snoc(rest, x);
        if items.len() == 1 {
            assert(rest.len() == 0);
            assert(joined_names(items) == items[0].name());
        } else {
            assert(joined_names(s) == items[0].name() + ", "@ + (joined_names(rest) + ", "@
                + x.name()));
            assert(items[0].name() + ", "@ + (joined_names(rest) + ", "@ + x.name()) =~= (items[0].name()
                + ", "@ + joined_names(rest)) + ", "@ + x.name());
        }
    }
}

/// A well-formed child list stays well-formed under removal by path, and
/// every surviving child was among the original children.
pub proof fn lemma_remove_children_wf(items: Seq<NodeView>, p: Seq<char>)
    requires
        children_wf(items),
    ensures
        children_wf(remove_children(items, p)),
        remove_children(items, p).len() <= items.len(),
        forall|k: int|
            0 <= k < remove_children(items, p).len() ==> exists|i: int|
                0 <= i < items.len() && #[trigger] remove_children(items, p)[k] == items[i]
                    && remove_children(items, p)[k].name() == items[i].name(),
    decreases items.len(),
{
    let rc = remove_children(items, p);
    if items.len() > 0 {
        let rest = items.subrange(1, items.len() as int);
        assert forall|i: int, j: int| 0 <= i < j < rest.len() implies (#[trigger] rest[i]).name()
            != (#[trigger] rest[j]).name() by {
            assert(rest[i] == items[i + 1] && rest[j] == items[j + 1]);
        }
        assert forall|i: int| 0 <= i < rest.len() implies !((#[trigger] rest[i]) is Root)
            && rest[i].wf() by {
            assert(rest[i] == items[i + 1]);
        }
        lemma_remove_children_wf(rest, p);
        let rr = remove_children(rest, p);
        if items[0] is Folder && items[0].path() == p {
            assert forall|k: int| 0 <= k < rc.len() implies exists|i: int|
                0 <= i < items.len() && #[trigger] rc[k] == items[i] && rc[k].name()
                    == items[i].name() by {
                let w = choose|i: int|
                    0 <= i < rest.len() && #[trigger] rr[k] == rest[i] && rr[k].name()
                        == rest[i].name();
                assert(rc[k] == items[w + 1]);
            }
        } else {
            assert(rc =~= seq![items[0]] + rr);
            assert forall|k: int| 0 <= k < rc.len() implies exists|i: int|
                0 <= i < items.len() && #[trigger] rc[k] == items[i] && rc[k].name()
                    == items[i].name() by {
                if k == 0 {
                    assert(rc[0] == items[0]);
                } else {
                    let w = choose|i: int|
                        0 <= i < rest.len() && #[trigger] rr[k - 1] == rest[i] && rr[k - 1].name()
                            == rest[i].name();
                    assert(rc[k] == items[w + 1]);
                }
            }
            assert forall|k: int, l: int| 0 <= k < l < rc.len() implies (#[trigger] rc[k]).name()
                != (#[trigger] rc[l]).name() by {
                if k == 0 {
                    let w = choose|i: int|
                        0 <= i < rest.len() && #[trigger] rr[l - 1] == rest[i] && rr[l - 1].name()
                            == rest[i].name();
                    assert(rc[l].name() == items[w + 1].name());
                    assert(items[0].name() != items[w + 1].name());
                }
            }
            assert(children_wf(rc));
        }
    }
}

/// When the first child sharing the item's name stands at index `i`,
/// insertion replaces exactly that entry.
pub proof fn lemma_insert_child_found(items: Seq<NodeView>, item: NodeView, i: int)
    requires
        0 <= i < items.len(),
        items[i].name() == item.name(),
        forall|j: int| 0 <= j < i ==> (#[trigger] items[j]).name() != item.name(),
    ensures
        insert_child(items, item) == items.update(i, item),
    decreases items.len(),
{
    let rest = items.subrange(1, items.len() as int);
    if i == 0 {
        assert(insert_child(items, item) =~= items.update(0, item));
    } else {
        assert(items[0].name() != item.name());
        assert forall|j: int| 0 <= j < i - 1 implies (#[trigger] rest[j]).name() != item.name() by {
            assert(rest[j] == items[j + 1]);
        }
        lemma_insert_child_found(rest, item, i - 1);
        assert(seq![items[0]] + rest.update(i - 1, item) =~= items.update(i, item));
    }
}

/// When no child shares the item's name, insertion appends the item.
pub proof fn lemma_insert_child_absent(items: Seq<NodeView>, item: NodeView)
    requires
        forall|j: int| 0 <= j < items.len() ==> (#[trigger] items[j]).name() != item.name(),
    ensures
        insert_child(items, item) == items.push(item),
    decreases items.len(),
{
    let rest = items.subrange(1, items.len() as int);
    if items.len() == 0 {
        assert(insert_child(items, item) =~= items.push(item));
    } else {
        assert forall|j: int| 0 <= j < rest.len() implies (#[trigger] rest[j]).name()
            != item.name() by {
            assert(rest[j] == items[j + 1]);
        }
        lemma_insert_child_absent(rest, item);
        assert(seq![items[0]] + rest.push(item) =~= items.push(item));
    }
}

} // verus!
