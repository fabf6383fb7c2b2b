//! The tree itself: `FileSystemItem` is one node of the hierarchy — a `File`
//! leaf, a `Folder` with owned children, or the single `Root` container —
//! together with the verified operations on it.

use vstd::prelude::*;

use crate::paths::{
    extension_of, file_name_of, spec_extension, spec_file_name, spec_has_extension, str_eq,
};
use crate::view::{
    bool_chars, children_wf, descriptor, has_bootstrap, insert_child, joined_names,
    lemma_insert_child_absent, lemma_insert_child_found, lemma_joined_names_snoc,
    lemma_remove_children_wf, lemma_set_open_children_shape, lemma_set_open_shape, lookup,
    remove_children, root_insert, set_open, set_open_children, spec_get_data, spec_remove, NodeView,
};

verus! {

/// One node of the tree. A parent owns its children by value, so the
/// structure is a strict tree: no sharing, no cycles.
#[derive(Debug)]
pub enum FileSystemItem {
    File { name: String, extension: String, path: String },
    Folder { name: String, path: String, open: bool, items: Vec<FileSystemItem> },
    Root { items: Vec<FileSystemItem> },
}

/// The ways a construction or insertion can fail. Lookup and toggle misses
/// are silent, not errors.
#[derive(Clone, Copy, Debug, PartialEq, Eq, Structural)]
pub enum TreeError {
    /// The path has no extractable final segment, or — for a file — that
    /// segment has no extension.
    MalformedPath,
    /// The insert target is a `File`, or the item to insert is a `Root`.
    InvalidInsertTarget,
    /// A Root-targeted insert found no bootstrap `Folder` named `root`.
    MissingBootstrapFolder,
}

/// The abstract value of a node.
pub open spec fn item_view(t: FileSystemItem) -> NodeView
    decreases t,
{
    match t {
        FileSystemItem::File { name, extension, path } => NodeView::File {
            name: name@,
            extension: extension@,
            path: path@,
        },
        FileSystemItem::Folder { name, path, open, items } => NodeView::Folder {
            name: name@,
            path: path@,
            open: open,
            items: view_children(items@),
        },
        FileSystemItem::Root { items } => NodeView::Root { items: view_children(items@) },
    }
}

/// The abstract values of a sequence of nodes, in order.
pub open spec fn view_children(items: Seq<FileSystemItem>) -> Seq<NodeView>
    decreases items,
{
    if items.len() == 0 {
        Seq::empty()
    } else {
        seq![item_view(items[0])] + view_children(items.subrange(1, items.len() as int))
    }
}

impl View for FileSystemItem {
    type V = NodeView;

    open spec fn view(&self) -> NodeView {
        item_view(*self)
    }
}

/// `view_children` is the pointwise image of `item_view`.
pub proof fn lemma_view_children(items: Seq<FileSystemItem>)
    ensures
        view_children(items).len() == items.len(),
        forall|i: int|
            0 <= i < items.len() ==> #[trigger] view_children(items)[i] == item_view(items[i]),
    decreases items.len(),
{
    if items.len() > 0 {
        let rest = items.subrange(1, items.len() as int);
        lemma_view_children(rest);
        assert forall|i: int| 0 <= i < items.len() implies #[trigger] view_children(items)[i]
            == item_view(items[i]) by {
            if i > 0 {
                assert(rest[i - 1] == items[i]);
                assert(view_children(items)[i] == view_children(rest)[i - 1]);
            }
        }
    }
}

impl FileSystemItem {
    /// Construct a tree: the single `Root`, seeded with one bootstrap
    /// `Folder` of the given name (conventionally `"root"`), open, with no
    /// children. The bootstrap folder's path is its name.
    pub fn new(name: String) -> (r: Self)
        ensures
            r@ is Root,
            r@.children().len() == 1,
            r@.children()[0] == (NodeView::Folder {
                name: name@,
                path: name@,
                open: true,
                items: Seq::empty(),
            }),
            r@.wf(),
    {
        let boot_path = name.clone();
        let boot = FileSystemItem::Folder { name, path: boot_path, open: true, items: Vec::new() };
        let items = vec![boot];
        proof {
            lemma_view_children(items@);
            let vc = view_children(items@);
            assert(vc =~= seq![item_view(items@[0])]);
            assert(vc[0].children() =~= Seq::<NodeView>::empty());
            assert(children_wf(Seq::<NodeView>::empty()));
            assert(vc[0].wf());
            assert(children_wf(vc));
        }
        FileSystemItem::Root { items }
    }

    /// Construct a free-standing `File` from a path. The name is the path's
    /// final segment and the extension is everything after the last `.` of
    /// that segment; a path whose final segment is empty or carries no `.`
    /// is rejected as malformed.
    pub fn new_file(path: String) -> (r: Result<Self, TreeError>)
        ensures
            r is Ok <==> spec_file_name(path@).len() > 0 && spec_has_extension(
                spec_file_name(path@),
            ),
            r matches Ok(f) ==> f@ == (NodeView::File {
                name: spec_file_name(path@),
                extension: spec_extension(spec_file_name(path@)),
                path: path@,
            }),
            r matches Err(e) ==> e == TreeError::MalformedPath,
    {
        let name = file_name_of(path.as_str());
        if name.as_str().unicode_len() == 0 {
            return Err(TreeError::MalformedPath);
        }
        match extension_of(name.as_str()) {
            None => Err(TreeError::MalformedPath),
            Some(extension) => Ok(FileSystemItem::File { name, extension, path }),
        }
    }

    /// Construct a free-standing `Folder` from a path. The name is the
    /// path's final segment, the stored path is the given path, the open
    /// flag starts `true`, and the folder has no children. A path whose
    /// final segment is empty is rejected as malformed.
    pub fn new_folder(path: String) -> (r: Result<Self, TreeError>)
        ensures
            r is Ok <==> spec_file_name(path@).len() > 0,
            r matches Ok(f) ==> f@ == (NodeView::Folder {
                name: spec_file_name(path@),
                path: path@,
                open: true,
                items: Seq::empty(),
            }),
            r matches Err(e) ==> e == TreeError::MalformedPath,
    {
        let name = file_name_of(path.as_str());
        if name.as_str().unicode_len() == 0 {
            return Err(TreeError::MalformedPath);
        }
        let f = FileSystemItem::Folder { name, path, open: true, items: Vec::new() };
        proof {
            assert(f@.children() =~= Seq::<NodeView>::empty());
            assert(f@ =~= (NodeView::Folder {
                name: spec_file_name(f->Folder_path@),
                path: f->Folder_path@,
                open: true,
                items: Seq::empty(),
            }));
        }
        Ok(f)
    }

    /// Attach `item` under this node, keyed by the item's derived name; an
    /// existing child with the same name is overwritten (last write wins).
    /// A `Folder` target takes the item among its own children; a `Root`
    /// target routes it into the bootstrap `Folder` named `root`. Inserting
    /// into a `File`, or inserting a `Root`, fails; every failure leaves the
    /// tree unchanged.
    pub fn add_item(&mut self, item: FileSystemItem) -> (r: Result<(), TreeError>)
        requires
            old(self)@.wf(),
            item@.wf(),
        ensures
            final(self)@.wf(),
            r is Err ==> final(self)@ == old(self)@,
            (r == Err::<(), TreeError>(TreeError::InvalidInsertTarget)) <==> (old(self)@ is File
                || item@ is Root),
            (r == Err::<(), TreeError>(TreeError::MissingBootstrapFolder)) <==> (old(self)@ is Root
                && !(item@ is Root) && !has_bootstrap(old(self)@.children())),
            old(self)@ is Folder && !(item@ is Root) ==> r is Ok && final(self)@ == old(
                self,
            )@.with_children(insert_child(old(self)@.children(), item@)),
            old(self)@ is Root && !(item@ is Root) && has_bootstrap(old(self)@.children())
                ==> r is Ok && final(self)@ == old(self)@.with_children(
                root_insert(old(self)@.children(), item@),
            ),
    {
        let item_is_root = match &item {
            FileSystemItem::Root { .. } => true,
            _ => false,
        };
        if item_is_root {
            return Err(TreeError::InvalidInsertTarget);
        }
        match self {
            FileSystemItem::File { .. } => Err(TreeError::InvalidInsertTarget),
            FileSystemItem::Folder { items, .. } => {
                insert_into_children(items, item);
                Ok(())
            },
            FileSystemItem::Root { items } => {
                let found = insert_into_root(items, item);
                if found {
                    Ok(())
                } else {
                    Err(TreeError::MissingBootstrapFolder)
                }
            },
        }
    }

    /// Describe the first immediate child whose path equals `path`. A file
    /// match yields its kind tag, name, path and extension; a folder match
    /// yields its kind tag, name, path, stringified open flag and the
    /// comma-joined names of its children. Only this one level is searched;
    /// no match yields the empty vector, which is not an error.
    pub fn get_data(&self, path: &str) -> (r: Vec<String>)
        requires
            self@.wf(),
        ensures
            r.deep_view() == spec_get_data(self@, path@),
    {
        match self {
            FileSystemItem::File { .. } => {
                let r: Vec<String> = Vec::new();
                proof {
                    assert(r.deep_view() =~= spec_get_data(self@, path@));
                }
                r
            },
            FileSystemItem::Folder { items, .. } => lookup_in_children(items, path),
            FileSystemItem::Root { items } => lookup_in_children(items, path),
        }
    }

    /// Borrow the immediate child keyed by `name`, if one exists.
    pub fn child_named<'a>(&'a self, name: &str) -> (r: Option<&'a FileSystemItem>)
        requires
            self@.wf(),
        ensures
            r matches Some(c) ==> exists|i: int|
                0 <= i < self@.children().len() && #[trigger] self@.children()[i] == c@
                    && c@.name() == name@,
            r is None ==> forall|i: int|
                0 <= i < self@.children().len() ==> (#[trigger] self@.children()[i]).name()
                    != name@,
    {
        match self {
            FileSystemItem::File { .. } => {
                proof {
                    assert(self@.children() =~= Seq::<NodeView>::empty());
                }
                None
            },
            FileSystemItem::Folder { items, .. } => {
                proof {
                    assert(self@.children() == view_children(items@));
                }
                child_named_in(items, name)
            },
            FileSystemItem::Root { items } => {
                proof {
                    assert(self@.children() == view_children(items@));
                }
                child_named_in(items, name)
            },
        }
    }

    /// The node's name, or `None` for the `Root`.
    pub fn name(&self) -> (r: Option<&String>)
        ensures
            r is None <==> self@ is Root,
            r matches Some(n) ==> n@ == self@.name(),
    {
        match self {
            FileSystemItem::File { name, .. } => Some(name),
            FileSystemItem::Folder { name, .. } => Some(name),
            FileSystemItem::Root { .. } => None,
        }
    }

    /// The node's path, or `None` for the `Root`.
    pub fn path(&self) -> (r: Option<&String>)
        ensures
            r is None <==> self@ is Root,
            r matches Some(p) ==> p@ == self@.path(),
    {
        match self {
            FileSystemItem::File { path, .. } => Some(path),
            FileSystemItem::Folder { path, .. } => Some(path),
            FileSystemItem::Root { .. } => None,
        }
    }

    /// The node's extension; only a `File` has one.
    pub fn extension(&self) -> (r: Option<&String>)
        ensures
            r is Some <==> self@ is File,
            r matches Some(e) ==> e@ == self@.extension(),
    {
        match self {
            FileSystemItem::File { extension, .. } => Some(extension),
            _ => None,
        }
    }

    /// The folder's open flag; only a `Folder` carries one.
    pub fn is_open(&self) -> (r: Option<bool>)
        ensures
            r is Some <==> self@ is Folder,
            r matches Some(b) ==> b == self@.is_open(),
    {
        match self {
            FileSystemItem::Folder { open, .. } => Some(*open),
            _ => None,
        }
    }

    /// Delete every direct child `Folder` whose path equals `path`. Only
    /// this one level is searched, and only folder children are matched:
    /// files are never removed by path. A dropped folder takes its whole
    /// subtree with it; a miss is a silent no-op, and a `File` target is
    /// left unchanged.
    pub fn remove_item(&mut self, path: &str)
        requires
            old(self)@.wf(),
        ensures
            final(self)@ == spec_remove(old(self)@, path@),
            final(self)@.wf(),
    {
        match self {
            FileSystemItem::File { .. } => {
                proof {
                    assert(spec_remove(old(self)@, path@) == old(self)@);
                }
            },
            FileSystemItem::Folder { items, .. } => {
                remove_from_children(items, path);
            },
            FileSystemItem::Root { items } => {
                remove_from_children(items, path);
            },
        }
    }

    /// Walk the tree depth-first and set the open flag of every `Folder`
    /// whose own path equals `path`; a matching folder ends its branch of
    /// the walk, a `File` is a leaf, and a miss is a silent no-op.
    pub fn set_open_state(&mut self, path: &str, open: bool)
        ensures
            final(self)@ == set_open(old(self)@, path@, open),
            old(self)@.wf() ==> final(self)@.wf(),
        decreases *old(self),
    {
        proof {
            lemma_set_open_shape(old(self)@, path@, open);
        }
        match self {
            FileSystemItem::File { .. } => {},
            FileSystemItem::Folder { path: fpath, open: fopen, items, .. } => {
                if str_eq(fpath.as_str(), path) {
                    *fopen = open;
                } else {
                    set_open_in_children(items, path, open);
                }
            },
            FileSystemItem::Root { items } => {
                set_open_in_children(items, path, open);
            },
        }
    }
}

/// Drop every `Folder` of a child list whose path equals `path`, keeping
/// the other children in order.
fn remove_from_children(items: &mut Vec<FileSystemItem>, path: &str)
    requires
        children_wf(view_children(old(items)@)),
    ensures
        view_children(final(items)@) == remove_children(view_children(old(items)@), path@),
        children_wf(view_children(final(items)@)),
{
    let mut taken: Vec<FileSystemItem> = Vec::new();
    core::mem::swap(items, &mut taken);
    let ghost orig = taken@;
    let mut kept: Vec<FileSystemItem> = Vec::new();
    proof {
        assert(view_children(kept@) + remove_children(view_children(orig), path@)
            =~= remove_children(view_children(orig), path@));
    }
    while taken.len() > 0
        invariant
            view_children(kept@) + remove_children(view_children(taken@), path@)
                == remove_children(view_children(orig), path@),
        decreases taken.len(),
    {
        let ghost taken0 = taken@;
        let ghost kept0 = kept@;
        let it = taken.remove(0);
        proof {
            assert(taken@ =~= taken0.subrange(1, taken0.len() as int));
            assert(view_children(taken0) == seq![item_view(it)] + view_children(taken@));
            assert(view_children(taken0)[0] == item_view(it));
            assert(view_children(taken0).subrange(1, view_children(taken0).len() as int)
                =~= view_children(taken@));
        }
        let keep = match &it {
            FileSystemItem::Folder { path: ip, .. } => !str_eq(ip.as_str(), path),
            _ => true,
        };
        if keep {
            kept.push(it);
            proof {
                lemma_view_children(kept0);
                lemma_view_children(kept@);
                assert(view_children(kept@) =~= view_children(kept0).push(item_view(it)));
                assert(view_children(kept@) + remove_children(view_children(taken@), path@)
                    =~= view_children(kept0) + remove_children(view_children(taken0), path@));
            }
        } else {
            proof {
                assert(remove_children(view_children(taken0), path@) == remove_children(
                    view_children(taken@),
                    path@,
                ));
            }
        }
    }
    proof {
        assert(view_children(taken@) =~= Seq::<NodeView>::empty());
        assert(view_children(kept@) + remove_children(view_children(taken@), path@)
            =~= view_children(kept@));
    }
    core::mem::swap(items, &mut kept);
    proof {
        lemma_remove_children_wf(view_children(orig), path@);
    }
}

/// Apply `set_open_state` to every node of a child list.
fn set_open_in_children(items: &mut Vec<FileSystemItem>, path: &str, open: bool)
    ensures
        view_children(final(items)@) == set_open_children(view_children(old(items)@), path@, open),
    decreases *old(items),
{
    let n = items.len();
    let mut i: usize = 0;
    while i < n
        invariant
            i <= n,
            n == items@.len(),
            items@.len() == old(items)@.len(),
            forall|j: int| i <= j < n ==> #[trigger] items@[j] == old(items)@[j],
            forall|j: int|
                0 <= j < i ==> #[trigger] item_view(items@[j]) == set_open(
                    item_view(old(items)@[j]),
                    path@,
                    open,
                ),
        decreases n - i,
    {
        proof {
            assert(items@[i as int] == old(items)@[i as int]);
        }
        let target = &mut items[i];
        target.set_open_state(path, open);
        i += 1;
    }
    proof {
        lemma_view_children(items@);
        lemma_view_children(old(items)@);
        lemma_set_open_children_shape(view_children(old(items)@), path@, open);
        assert(view_children(items@) =~= set_open_children(
            view_children(old(items)@),
            path@,
            open,
        ));
    }
}

/// Insert `item` into a Root's child list: it lands in the bootstrap
/// `Folder` named `root`. Returns whether that folder was found; when it is
/// absent the children are left unchanged.
fn insert_into_root(items: &mut Vec<FileSystemItem>, item: FileSystemItem) -> (r: bool)
    requires
        children_wf(view_children(old(items)@)),
        item@.wf(),
        !(item@ is Root),
    ensures
        r == has_bootstrap(view_children(old(items)@)),
        r ==> view_children(final(items)@) == root_insert(view_children(old(items)@), item@),
        !r ==> final(items)@ == old(items)@,
        children_wf(view_children(final(items)@)),
{
    let n = items.len();
    let mut i: usize = 0;
    while i < n
        invariant
            i <= n,
            n == items@.len(),
            items@ == old(items)@,
            children_wf(view_children(items@)),
            item@.wf(),
            !(item@ is Root),
            forall|j: int|
                0 <= j < i ==> !((#[trigger] view_children(items@)[j]) is Folder
                    && view_children(items@)[j].name() == "root"@),
        decreases n - i,
    {
        proof {
            lemma_view_children(items@);
        }
        let is_boot = match &items[i] {
            FileSystemItem::Folder { name, .. } => str_eq(name.as_str(), "root"),
            _ => false,
        };
        if is_boot {
            let ghost ov = view_children(items@);
            let ghost boot = ov[i as int];
            proof {
                assert(boot is Folder && boot.name() == "root"@);
                assert(has_bootstrap(ov));
                let bi = crate::view::bootstrap_index(ov);
                if bi != i as int {
                    assert(ov[bi].name() == ov[i as int].name());
                    assert(false);
                }
            }
            let target = &mut items[i];
            match target {
                FileSystemItem::Folder { items: boot_items, .. } => {
                    insert_into_children(boot_items, item);
                },
                _ => {
                    proof {
                        assert(false);
                    }
                },
            }
            proof {
                lemma_view_children(items@);
                let nv = view_children(items@);
                assert(nv =~= ov.update(
                    i as int,
                    boot.with_children(insert_child(boot.children(), item@)),
                ));
                assert(nv == root_insert(ov, item@));
                assert forall|k: int, l: int| 0 <= k < l < nv.len() implies nv[k].name()
                    != nv[l].name() by {
                    assert(nv[k].name() == ov[k].name());
                    assert(nv[l].name() == ov[l].name());
                }
                assert(children_wf(nv));
            }
            return true;
        }
        i += 1;
    }
    proof {
        lemma_view_children(items@);
        let ov = view_children(items@);
        assert(!has_bootstrap(ov));
    }
    false
}

/// The name a child is keyed by; only a `File` or `Folder` has one.
fn node_name<'a>(t: &'a FileSystemItem) -> (r: &'a str)
    requires
        !(t@ is Root),
    ensures
        r@ == t@.name(),
{
    match t {
        FileSystemItem::File { name, .. } => name.as_str(),
        FileSystemItem::Folder { name, .. } => name.as_str(),
        FileSystemItem::Root { .. } => {
            proof {
                assert(false);
            }
            ""
        },
    }
}

/// Borrow the first child of a list whose name equals `name`.
fn child_named_in<'a>(items: &'a Vec<FileSystemItem>, name: &str) -> (r: Option<
    &'a FileSystemItem,
>)
    requires
        children_wf(view_children(items@)),
    ensures
        r matches Some(c) ==> exists|i: int|
            0 <= i < view_children(items@).len() && #[trigger] view_children(items@)[i] == c@
                && c@.name() == name@,
        r is None ==> forall|i: int|
            0 <= i < view_children(items@).len() ==> (#[trigger] view_children(items@)[i]).name()
                != name@,
{
    let n = items.len();
    let mut i: usize = 0;
    while i < n
        invariant
            i <= n,
            n == items@.len(),
            children_wf(view_children(items@)),
            forall|j: int|
                0 <= j < i ==> (#[trigger] view_children(items@)[j]).name() != name@,
        decreases n - i,
    {
        proof {
            lemma_view_children(items@);
            assert(!(view_children(items@)[i as int] is Root));
        }
        if str_eq(node_name(&items[i]), name) {
            return Some(&items[i]);
        }
        i += 1;
    }
    proof {
        lemma_view_children(items@);
    }
    None
}

/// The stringified boolean that a folder descriptor carries.
fn bool_string(b: bool) -> (r: String)
    ensures
        r@ == bool_chars(b),
{
    if b {
        String::from_str("true")
    } else {
        String::from_str("false")
    }
}

/// The comma-joined names of a child list.
fn join_names(items: &Vec<FileSystemItem>) -> (r: String)
    requires
        children_wf(view_children(items@)),
    ensures
        r@ == joined_names(view_children(items@)),
{
    let ghost vc = view_children(items@);
    proof {
        lemma_view_children(items@);
        assert(vc.subrange(0, 0) =~= Seq::<NodeView>::empty());
    }
    let n = items.len();
    let mut r = String::new();
    let mut i: usize = 0;
    while i < n
        invariant
            i <= n,
            n == items@.len(),
            children_wf(view_children(items@)),
            vc == view_children(items@),
            vc.len() == n,
            r@ == joined_names(vc.subrange(0, i as int)),
        decreases n - i,
    {
        proof {
            lemma_view_children(items@);
            assert(!(vc[i as int] is Root));
        }
        if i > 0 {
            r.append(", ");
        }
        r.append(node_name(&items[i]));
        proof {
            let pre = vc.subrange(0, i as int);
            assert(vc.subrange(0, i as int + 1) =~= pre.push(vc[i as int]));
            lemma_joined_names_snoc(pre, vc[i as int]);
        }
        i += 1;
    }
    proof {
        assert(vc.subrange(0, n as int) =~= vc);
    }
    r
}

/// Build the descriptor vector of one matched child.
fn build_descriptor(it: &FileSystemItem) -> (r: Vec<String>)
    requires
        it@.wf(),
        !(it@ is Root),
    ensures
        r.deep_view() == descriptor(it@),
{
    let mut r: Vec<String> = Vec::new();
    match it {
        FileSystemItem::File { name, extension, path } => {
            r.push(String::from_str("file"));
            r.push(name.clone());
            r.push(path.clone());
            r.push(extension.clone());
            proof {
                assert(r.deep_view() =~= descriptor(it@));
            }
        },
        FileSystemItem::Folder { name, path, open, items } => {
            r.push(String::from_str("folder"));
            r.push(name.clone());
            r.push(path.clone());
            r.push(bool_string(*open));
            r.push(join_names(items));
            proof {
                assert(r.deep_view() =~= descriptor(it@));
            }
        },
        FileSystemItem::Root { .. } => {
            proof {
                assert(false);
            }
        },
    }
    r
}

/// Scan a child list for the first node whose path equals `path` and
/// describe it; the empty vector when none matches.
fn lookup_in_children(items: &Vec<FileSystemItem>, path: &str) -> (r: Vec<String>)
    requires
        children_wf(view_children(items@)),
    ensures
        r.deep_view() == lookup(view_children(items@), path@),
{
    let ghost vc = view_children(items@);
    proof {
        lemma_view_children(items@);
        assert(vc.subrange(0, vc.len() as int) =~= vc);
    }
    let n = items.len();
    let mut i: usize = 0;
    while i < n
        invariant
            i <= n,
            n == items@.len(),
            children_wf(view_children(items@)),
            vc == view_children(items@),
            vc.len() == n,
            lookup(vc, path@) == lookup(vc.subrange(i as int, n as int), path@),
        decreases n - i,
    {
        proof {
            lemma_view_children(items@);
            assert(!(vc[i as int] is Root));
            assert(vc.subrange(i as int, n as int)[0] == vc[i as int]);
        }
        let it = &items[i];
        let hit = match it {
            FileSystemItem::File { path: ip, .. } => str_eq(ip.as_str(), path),
            FileSystemItem::Folder { path: ip, .. } => str_eq(ip.as_str(), path),
            FileSystemItem::Root { .. } => false,
        };
        if hit {
            let d = build_descriptor(it);
            proof {
                assert(lookup(vc.subrange(i as int, n as int), path@) == descriptor(vc[i as int]));
            }
            return d;
        }
        proof {
            assert(vc.subrange(i as int, n as int).subrange(1, (n - i) as int) =~= vc.subrange(
                i as int + 1,
                n as int,
            ));
        }
        i += 1;
    }
    let r: Vec<String> = Vec::new();
    proof {
        assert(vc.subrange(n as int, n as int) =~= Seq::<NodeView>::empty());
        assert(r.deep_view() =~= lookup(vc, path@));
    }
    r
}

/// Insert `item` into a child list, keyed by its derived name: the first
/// child with the same name is overwritten in place, otherwise the item is
/// appended.
fn insert_into_children(items: &mut Vec<FileSystemItem>, item: FileSystemItem)
    requires
        children_wf(view_children(old(items)@)),
        item@.wf(),
        !(item@ is Root),
    ensures
        view_children(final(items)@) == insert_child(view_children(old(items)@), item@),
        children_wf(view_children(final(items)@)),
{
    let n = items.len();
    let mut i: usize = 0;
    while i < n
        invariant
            i <= n,
            n == items@.len(),
            items@ == old(items)@,
            children_wf(view_children(items@)),
            item@.wf(),
            !(item@ is Root),
            forall|j: int|
                0 <= j < i ==> (#[trigger] view_children(items@)[j]).name() != item@.name(),
        decreases n - i,
    {
        proof {
            lemma_view_children(items@);
            assert(!(view_children(items@)[i as int] is Root));
        }
        let same = str_eq(node_name(&items[i]), node_name(&item));
        if same {
            let ghost ov = view_children(items@);
            items.set(i, item);
            proof {
                lemma_view_children(items@);
                let nv = view_children(items@);
                assert(nv =~= ov.update(i as int, item@));
                lemma_insert_child_found(ov, item@, i as int);
                assert forall|k: int, l: int| 0 <= k < l < nv.len() implies nv[k].name()
                    != nv[l].name() by {
                    if l != i as int && k != i as int {
                        assert(nv[k] == ov[k] && nv[l] == ov[l]);
                    } else if k == i as int {
                        assert(nv[l] == ov[l] && ov[l].name() != ov[i as int].name());
                    } else {
                        assert(nv[k] == ov[k]);
                    }
                }
                assert(children_wf(nv));
            }
            return ;
        }
        i += 1;
    }
    let ghost ov = view_children(items@);
    proof {
        lemma_view_children(items@);
    }
    items.push(item);
    proof {
        lemma_view_children(items@);
        let nv = view_children(items@);
        assert(nv =~= ov.push(item@));
        lemma_insert_child_absent(ov, item@);
        assert forall|k: int, l: int| 0 <= k < l < nv.len() implies nv[k].name() != nv[l].name() by {
            if l < ov.len() {
                assert(nv[k] == ov[k] && nv[l] == ov[l]);
            } else {
                assert(nv[l] == item@ && nv[k] == ov[k]);
            }
        }
        assert(children_wf(nv));
    }
}

} // verus!
