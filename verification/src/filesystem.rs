//! An arena-backed directory tree built from a shell transcript.
//!
//! Nodes live in one vector; a folder maps child names to node indices
//! and remembers its parent. A cursor walks the tree while `cd` and `ls`
//! lines of a transcript are replayed.

use vstd::prelude::*;
use vstd::string::*;

use crate::text::{all_digits, digits_val, spec_lines, spec_tokens};

verus! {

/// A transcript line or tree operation that cannot be applied.
#[derive(Clone, Copy, PartialEq, Eq, Debug, Structural)]
pub enum FsError {
    /// Children can only be added to, or entered from, a folder.
    NotAFolder,
    /// The folder already has a child of that name.
    DuplicateName,
    /// The folder has no child of that name.
    NoSuchDir,
    /// A `$` line must be `$ ls` or `$ cd <dir>`.
    UnknownCommand,
    /// A listing entry must be `dir <name>` or `<size> <name>`.
    InvalidEntry,
}

/// The index of a node in the arena.
#[derive(Debug, Clone, Copy, PartialEq, Eq, Structural)]
pub struct NodeIdx(pub usize);

/// The data of a folder node: its parent and its named children.
#[derive(Debug)]
pub struct FolderData {
    pub parent: Option<NodeIdx>,
    pub children: Vec<(Vec<char>, NodeIdx)>,
}

/// A node of the tree: a file with its size, or a folder.
#[derive(Debug)]
pub enum Node {
    File(usize),
    Folder(FolderData),
}

/// The mathematical shape of one node.
pub enum FsEntry {
    File { size: int },
    Dir { parent: Option<int>, children: Seq<(Seq<char>, int)> },
}

/// The mathematical shape of the node `n`.
pub open spec fn node_model(n: Node) -> FsEntry {
    match n {
        Node::File(size) => FsEntry::File { size: size as int },
        Node::Folder(fd) => FsEntry::Dir {
            parent: match fd.parent {
                Some(p) => Some(p.0 as int),
                None => None,
            },
            children: Seq::new(
                fd.children@.len() as nat,
                |j: int| (fd.children@[j].0@, fd.children@[j].1.0 as int),
            ),
        },
    }
}

/// The index bound to `name` among `children`, searching in order.
pub open spec fn assoc_find(children: Seq<(Seq<char>, int)>, name: Seq<char>) -> Option<int>
    decreases children.len(),
{
    if children.len() == 0 {
        None
    } else if children[0].0 == name {
        Some(children[0].1)
    } else {
        assoc_find(children.skip(1), name)
    }
}

/// Whether one folder's data is consistent with an arena of `n` nodes:
/// its parent and children indices are in range, no child is the root,
/// and no two children share a name.
pub open spec fn dir_ok(parent: Option<int>, children: Seq<(Seq<char>, int)>, n: int) -> bool {
    &&& match parent {
        Some(p) => 0 <= p < n,
        None => true,
    }
    &&& forall|j: int| 0 <= j < children.len() ==> 0 < (#[trigger] children[j]).1 < n
    &&& forall|a: int, b: int|
        0 <= a < b < children.len() ==> children[a].0 != children[b].0
}

/// Whether an arena of nodes is a well-formed tree store: nonempty, its
/// first node the parentless root folder, and every folder consistent.
pub open spec fn fs_wf(nodes: Seq<FsEntry>) -> bool {
    &&& nodes.len() >= 1
    &&& nodes[0] is Dir
    &&& nodes[0]->Dir_parent is None
    &&& forall|i: int|
        0 <= i < nodes.len() && nodes[i] is Dir ==> dir_ok(
            (#[trigger] nodes[i])->Dir_parent,
            nodes[i]->Dir_children,
            nodes.len() as int,
        )
}

/// What adding `child` under the folder at `at` does: the new node goes
/// to the end of the arena, and the folder gains `name` bound to it.
/// Fails when the node at `at` is a file or already has a child `name`.
pub open spec fn spec_add_child(
    nodes: Seq<FsEntry>,
    at: int,
    name: Seq<char>,
    child: FsEntry,
) -> Result<Seq<FsEntry>, FsError>
    recommends
        0 <= at < nodes.len(),
{
    match nodes[at] {
        FsEntry::File { .. } => Err(FsError::NotAFolder),
        FsEntry::Dir { parent, children } => {
            if assoc_find(children, name) is Some {
                Err(FsError::DuplicateName)
            } else {
                Ok(
                    nodes.update(
                        at,
                        FsEntry::Dir { parent, children: children.push((name, nodes.len() as int)) },
                    ).push(child),
                )
            }
        },
    }
}

/// Where `cd` moves a cursor standing on the node `at`: `/` to the root,
/// `..` to the parent (the root when there is none), a name to that
/// child. Fails on a file, or when no child has the name.
pub open spec fn spec_cd(nodes: Seq<FsEntry>, at: int, path: Seq<char>) -> Result<int, FsError>
    recommends
        0 <= at < nodes.len(),
{
    match nodes[at] {
        FsEntry::File { .. } => Err(FsError::NotAFolder),
        FsEntry::Dir { parent, children } => {
            if path.len() == 1 && path[0] == '/' {
                Ok(0)
            } else if path.len() == 2 && path[0] == '.' && path[1] == '.' {
                match parent {
                    Some(p) => Ok(p),
                    None => Ok(0),
                }
            } else {
                match assoc_find(children, path) {
                    Some(idx) => Ok(idx),
                    None => Err(FsError::NoSuchDir),
                }
            }
        },
    }
}

/// The node arena of a directory tree.
#[derive(Debug)]
pub struct FileSystem(Vec<Node>);

impl View for FileSystem {
    type V = Seq<FsEntry>;

    closed spec fn view(&self) -> Seq<FsEntry> {
        Seq::new(self.0@.len() as nat, |i: int| node_model(self.0@[i]))
    }
}

/// A cursor standing on one node of a tree, used to mutate it.
#[derive(Debug, Clone, Copy)]
pub struct CurrentDirMut {
    idx: NodeIdx,
}

/// A cursor standing on one node of a tree, for reading.
#[derive(Debug, Clone, Copy)]
pub struct CurrentDir {
    idx: NodeIdx,
}

impl CurrentDir {
    /// The index of the node the cursor stands on.
    pub closed spec fn spec_idx(&self) -> int {
        self.idx.0 as int
    }

    /// A reading cursor at the same node as `cur`.
    pub fn of(cur: &CurrentDirMut) -> (r: Self)
        ensures
            r.spec_idx() == cur.spec_idx(),
    {
        CurrentDir { idx: cur.node_idx() }
    }
}

impl FileSystem {
    /// An arena holding only the root folder.
    pub fn new() -> (r: Self)
        ensures
            r@.len() == 1,
            r@[0] == (FsEntry::Dir { parent: None, children: Seq::<(Seq<char>, int)>::empty() }),
            fs_wf(r@),
    {
        let root = FolderData { parent: None, children: Vec::new() };
        let r = FileSystem(vec![Node::Folder(root)]);
        proof {
            assert(r@[0]->Dir_children =~= Seq::<(Seq<char>, int)>::empty());
            assert(r@[0] == (FsEntry::Dir {
                parent: None,
                children: Seq::<(Seq<char>, int)>::empty(),
            }));
        }
        r
    }

    /// A mutating cursor standing on the root.
    pub fn root_mut(&mut self) -> (r: CurrentDirMut)
        ensures
            final(self)@ == old(self)@,
            r.spec_idx() == 0,
    {
        CurrentDirMut { idx: NodeIdx(0) }
    }
}

/// Copies a character vector.
fn clone_chars(v: &Vec<char>) -> (r: Vec<char>)
    ensures
        r@ == v@,
{
    let mut out: Vec<char> = Vec::new();
    let mut i: usize = 0;
    while i < v.len()
        invariant
            0 <= i <= v@.len(),
            out@ == v@.take(i as int),
        decreases v@.len() - i,
    {
        out.push(v[i]);
        proof {
            assert(out@ =~= v@.take(i + 1));
        }
        i = i + 1;
    }
    proof {
        assert(out@ =~= v@);
    }
    out
}

impl CurrentDirMut {
    /// The index of the node the cursor stands on.
    pub closed spec fn spec_idx(&self) -> int {
        self.idx.0 as int
    }

    /// The index of the node the cursor stands on.
    pub fn node_idx(&self) -> (r: NodeIdx)
        ensures
            r.0 == self.spec_idx(),
    {
        self.idx
    }

    /// Adds `child` under the cursor's folder as `name`.
    fn add_child(&mut self, fs: &mut FileSystem, name: Vec<char>, child: Node) -> (r: Result<
        (),
        FsError,
    >)
        requires
            0 <= old(self).spec_idx() < old(fs)@.len(),
        ensures
            *final(self) == *old(self),
            match r {
                Ok(()) => spec_add_child(
                    old(fs)@,
                    old(self).spec_idx(),
                    name@,
                    node_model(child),
                ) == Ok::<Seq<FsEntry>, FsError>(final(fs)@),
                Err(e) => spec_add_child(
                    old(fs)@,
                    old(self).spec_idx(),
                    name@,
                    node_model(child),
                ) == Err::<Seq<FsEntry>, FsError>(e) && final(fs)@ == old(fs)@,
            },
    {
        let at: usize = self.idx.0;
        let child_idx: usize = fs.0.len();
        let ghost entry = fs@[at as int];

        // Read the folder, refusing a file, and copy its data with the
        // new child appended.
        let new_folder: FolderData = match &fs.0[at] {
            Node::File(_) => {
                return Err(FsError::NotAFolder);
            },
            Node::Folder(fd) => {
                let ghost cm = entry->Dir_children;
                let mut copied: Vec<(Vec<char>, NodeIdx)> = Vec::new();
                let mut j: usize = 0;
                while j < fd.children.len()
                    invariant
                        0 <= j <= fd.children@.len(),
                        at == old(self).spec_idx(),
                        fs@ == old(fs)@,
                        0 <= at < fs@.len(),
                        entry == fs@[at as int],
                        entry is Dir,
                        cm == entry->Dir_children,
                        child_idx == old(fs)@.len(),
                        cm.len() == fd.children@.len(),
                        forall|k: int|
                            0 <= k < fd.children@.len() ==> #[trigger] cm[k] == (
                            fd.children@[k].0@,
                            fd.children@[k].1.0 as int,
                            ),
                        copied@.len() == j,
                        forall|k: int|
                            0 <= k < j ==> (#[trigger] copied@[k]).0@ == cm[k].0 && copied@[k].1.0
                                == cm[k].1,
                        forall|k: int| 0 <= k < j ==> !(cm[k].0 == name@),
                    decreases fd.children@.len() - j,
                {
                    let (cname, cidx) = &fd.children[j];
                    if eq_chars(cname, &name) {
                        proof {
                            lemma_assoc_find_present(cm, name@, j as int);
                        }
                        return Err(FsError::DuplicateName);
                    }
                    copied.push((clone_chars(cname), *cidx));
                    j = j + 1;
                }
                proof {
                    lemma_assoc_find_absent(cm, name@);
                }
                copied.push((name, NodeIdx(child_idx)));
                FolderData {
                    parent: match fd.parent {
                        Some(p) => Some(p),
                        None => None,
                    },
                    children: copied,
                }
            },
        };
        let ghost new_entry = node_model(Node::Folder(new_folder));
        fs.0[at] = Node::Folder(new_folder);
        fs.0.push(child);
        proof {
            assert(entry is Dir);
            assert(new_entry is Dir);
            assert(new_entry->Dir_parent == entry->Dir_parent);
            assert(new_entry->Dir_children =~= entry->Dir_children.push((
                name@,
                child_idx as int,
            )));
            assert(new_entry == (FsEntry::Dir {
                parent: entry->Dir_parent,
                children: entry->Dir_children.push((name@, child_idx as int)),
            }));
            assert(fs@[at as int] == new_entry);
            assert(fs@ =~= old(fs)@.update(at as int, FsEntry::Dir {
                parent: entry->Dir_parent,
                children: entry->Dir_children.push((name@, child_idx as int)),
            }).push(node_model(child)));
        }
        Ok(())
    }

    /// Adds a file of the given size under the cursor's folder.
    pub fn add_file(&mut self, fs: &mut FileSystem, name: &str, size: usize) -> (r: Result<
        (),
        FsError,
    >)
        requires
            0 <= old(self).spec_idx() < old(fs)@.len(),
        ensures
            *final(self) == *old(self),
            match r {
                Ok(()) => spec_add_child(
                    old(fs)@,
                    old(self).spec_idx(),
                    name@,
                    FsEntry::File { size: size as int },
                ) == Ok::<Seq<FsEntry>, FsError>(final(fs)@),
                Err(e) => spec_add_child(
                    old(fs)@,
                    old(self).spec_idx(),
                    name@,
                    FsEntry::File { size: size as int },
                ) == Err::<Seq<FsEntry>, FsError>(e) && final(fs)@ == old(fs)@,
            },
    {
        self.add_child(fs, str_chars(name), Node::File(size))
    }

    /// Adds an empty folder under the cursor's folder.
    pub fn add_folder(&mut self, fs: &mut FileSystem, name: &str) -> (r: Result<(), FsError>)
        requires
            0 <= old(self).spec_idx() < old(fs)@.len(),
        ensures
            *final(self) == *old(self),
            match r {
                Ok(()) => spec_add_child(
                    old(fs)@,
                    old(self).spec_idx(),
                    name@,
                    FsEntry::Dir {
                        parent: Some(old(self).spec_idx()),
                        children: Seq::<(Seq<char>, int)>::empty(),
                    },
                ) == Ok::<Seq<FsEntry>, FsError>(final(fs)@),
                Err(e) => spec_add_child(
                    old(fs)@,
                    old(self).spec_idx(),
                    name@,
                    FsEntry::Dir {
                        parent: Some(old(self).spec_idx()),
                        children: Seq::<(Seq<char>, int)>::empty(),
                    },
                ) == Err::<Seq<FsEntry>, FsError>(e) && final(fs)@ == old(fs)@,
            },
    {
        let child = Node::Folder(FolderData { parent: Some(self.idx), children: Vec::new() });
        proof {
            assert(node_model(child)->Dir_children =~= Seq::<(Seq<char>, int)>::empty());
        }
        self.add_child(fs, str_chars(name), child)
    }

    /// Moves the cursor: `/` to the root, `..` to the parent (the root
    /// when there is none), any other path to the child of that name.
    pub fn change(self, fs: &FileSystem, path: &str) -> (r: Result<Self, FsError>)
        requires
            0 <= self.spec_idx() < fs@.len(),
        ensures
            match r {
                Ok(cur) => spec_cd(fs@, self.spec_idx(), path@) == Ok::<int, FsError>(
                    cur.spec_idx(),
                ) && 0 <= cur.spec_idx(),
                Err(e) => spec_cd(fs@, self.spec_idx(), path@) == Err::<int, FsError>(e),
            },
    {
        let chars: Vec<char> = str_chars(path);
        self.change_chars(fs, &chars)
    }

    /// As `change`, with the path given as characters.
    fn change_chars(self, fs: &FileSystem, path: &Vec<char>) -> (r: Result<Self, FsError>)
        requires
            0 <= self.spec_idx() < fs@.len(),
        ensures
            match r {
                Ok(cur) => spec_cd(fs@, self.spec_idx(), path@) == Ok::<int, FsError>(
                    cur.spec_idx(),
                ) && 0 <= cur.spec_idx(),
                Err(e) => spec_cd(fs@, self.spec_idx(), path@) == Err::<int, FsError>(e),
            },
    {
        let at: usize = self.idx.0;
        let ghost entry = fs@[at as int];
        proof {
            assert(entry == node_model(fs.0@[at as int]));
        }
        match &fs.0[at] {
            Node::File(_) => Err(FsError::NotAFolder),
            Node::Folder(fd) => {
                proof {
                    assert(entry is Dir);
                }
                if path.len() == 1 && path[0] == '/' {
                    return Ok(CurrentDirMut { idx: NodeIdx(0) });
                }
                if path.len() == 2 && path[0] == '.' && path[1] == '.' {
                    return match &fd.parent {
                        Some(p) => Ok(CurrentDirMut { idx: *p }),
                        None => Ok(CurrentDirMut { idx: NodeIdx(0) }),
                    };
                }
                let ghost cm = entry->Dir_children;
                let mut j: usize = 0;
                while j < fd.children.len()
                    invariant
                        0 <= j <= fd.children@.len(),
                        at == self.spec_idx(),
                        0 <= at < fs@.len(),
                        entry == fs@[at as int],
                        entry is Dir,
                        cm == entry->Dir_children,
                        !(path@.len() == 1 && path@[0] == '/'),
                        !(path@.len() == 2 && path@[0] == '.' && path@[1] == '.'),
                        cm.len() == fd.children@.len(),
                        forall|k: int|
                            0 <= k < fd.children@.len() ==> #[trigger] cm[k] == (
                            fd.children@[k].0@,
                            fd.children@[k].1.0 as int,
                            ),
                        forall|k: int| 0 <= k < j ==> !(cm[k].0 == path@),
                    decreases fd.children@.len() - j,
                {
                    let (cname, cidx) = &fd.children[j];
                    if eq_chars(cname, path) {
                        proof {
                            lemma_assoc_find_present(cm, path@, j as int);
                        }
                        return Ok(CurrentDirMut { idx: *cidx });
                    }
                    j = j + 1;
                }
                proof {
                    lemma_assoc_find_absent(cm, path@);
                }
                Err(FsError::NoSuchDir)
            },
        }
    }
}

/// The characters of `s`, in order.
fn str_chars(s: &str) -> (r: Vec<char>)
    ensures
        r@ == s@,
{
    let n: usize = s.unicode_len();
    let mut out: Vec<char> = Vec::new();
    let mut i: usize = 0;
    while i < n
        invariant
            0 <= i <= n,
            n == s@.len(),
            out@ == s@.take(i as int),
        decreases n - i,
    {
        out.push(s.get_char(i));
        proof {
            assert(out@ =~= s@.take(i + 1));
        }
        i = i + 1;
    }
    proof {
        assert(out@ =~= s@);
    }
    out
}

/// Whether two character vectors hold the same characters.
fn eq_chars(a: &Vec<char>, b: &Vec<char>) -> (r: bool)
    ensures
        r == (a@ == b@),
{
    if a.len() != b.len() {
        return false;
    }
    let mut i: usize = 0;
    while i < a.len()
        invariant
            0 <= i <= a@.len(),
            a@.len() == b@.len(),
            forall|k: int| 0 <= k < i ==> a@[k] == b@[k],
        decreases a@.len() - i,
    {
        if a[i] != b[i] {
            return false;
        }
        i = i + 1;
    }
    proof {
        assert(a@ =~= b@);
    }
    true
}

/// A search that reaches a match at `j` having skipped earlier names
/// finds exactly that entry.
proof fn lemma_assoc_find_present(children: Seq<(Seq<char>, int)>, name: Seq<char>, j: int)
    requires
        0 <= j < children.len(),
        children[j].0 == name,
        forall|k: int| 0 <= k < j ==> !((#[trigger] children[k]).0 == name),
    ensures
        assoc_find(children, name) == Some(children[j].1),
    decreases j,
{
    if j == 0 {
    } else {
        assert(children.skip(1)[j - 1] == children[j]);
        assert(forall|k: int|
            0 <= k < j - 1 ==> (#[trigger] children.skip(1)[k]) == children[k + 1]);
        lemma_assoc_find_present(children.skip(1), name, j - 1);
    }
}

/// A search that skipped every name finds nothing.
proof fn lemma_assoc_find_absent(children: Seq<(Seq<char>, int)>, name: Seq<char>)
    requires
        forall|k: int| 0 <= k < children.len() ==> !((#[trigger] children[k]).0 == name),
    ensures
        assoc_find(children, name) is None,
    decreases children.len(),
{
    if children.len() > 0 {
        assert(forall|k: int|
            0 <= k < children.skip(1).len() ==> (#[trigger] children.skip(1)[k]) == children[k
                + 1]);
        lemma_assoc_find_absent(children.skip(1), name);
    }
}


/// A search that finds nothing matched no name.
proof fn lemma_assoc_find_none_all_differ(children: Seq<(Seq<char>, int)>, name: Seq<char>)
    requires
        assoc_find(children, name) is None,
    ensures
        forall|k: int| 0 <= k < children.len() ==> !((#[trigger] children[k]).0 == name),
    decreases children.len(),
{
    if children.len() > 0 {
        lemma_assoc_find_none_all_differ(children.skip(1), name);
        assert(forall|k: int|
            0 <= k < children.skip(1).len() ==> (#[trigger] children.skip(1)[k]) == children[k
                + 1]);
        assert forall|k: int| 0 <= k < children.len() implies !((#[trigger] children[k]).0
            == name) by {
            if k > 0 {
                assert(children.skip(1)[k - 1] == children[k]);
            }
        }
    }
}

/// A found index was bound to some child.
proof fn lemma_assoc_find_some_in(children: Seq<(Seq<char>, int)>, name: Seq<char>, v: int)
    requires
        assoc_find(children, name) == Some(v),
    ensures
        exists|k: int| 0 <= k < children.len() && (#[trigger] children[k]).1 == v,
    decreases children.len(),
{
    if children.len() > 0 {
        if children[0].0 == name {
            assert(children[0].1 == v);
        } else {
            lemma_assoc_find_some_in(children.skip(1), name, v);
            let k = choose|k: int|
                0 <= k < children.skip(1).len() && (#[trigger] children.skip(1)[k]).1 == v;
            assert(children[k + 1] == children.skip(1)[k]);
        }
    }
}

/// Where `cd` succeeds on a well-formed arena, the cursor stays in range.
proof fn lemma_cd_range(nodes: Seq<FsEntry>, at: int, path: Seq<char>)
    requires
        fs_wf(nodes),
        0 <= at < nodes.len(),
        spec_cd(nodes, at, path) is Ok,
    ensures
        0 <= spec_cd(nodes, at, path)->Ok_0 < nodes.len(),
{
    let r = spec_cd(nodes, at, path)->Ok_0;
    match nodes[at] {
        FsEntry::File { .. } => {},
        FsEntry::Dir { parent, children } => {
            assert(dir_ok(parent, children, nodes.len() as int));
            if path.len() == 1 && path[0] == '/' {
            } else if path.len() == 2 && path[0] == '.' && path[1] == '.' {
            } else {
                lemma_assoc_find_some_in(children, path, r);
            }
        },
    }
}

/// Adding a file, or an empty folder whose parent is the target, keeps
/// the arena well formed and grows it by one node.
proof fn lemma_add_child_wf(nodes: Seq<FsEntry>, at: int, name: Seq<char>, child: FsEntry)
    requires
        fs_wf(nodes),
        0 <= at < nodes.len(),
        spec_add_child(nodes, at, name, child) is Ok,
        child is File || (child is Dir && child->Dir_parent == Some(at)
            && child->Dir_children.len() == 0),
    ensures
        ({
            let n2 = spec_add_child(nodes, at, name, child)->Ok_0;
            &&& fs_wf(n2)
            &&& n2.len() == nodes.len() + 1
            &&& n2[at] is Dir
        }),
{
    let n2 = spec_add_child(nodes, at, name, child)->Ok_0;
    match nodes[at] {
        FsEntry::File { .. } => {},
        FsEntry::Dir { parent, children } => {
            lemma_assoc_find_none_all_differ(children, name);
            let newkids = children.push((name, nodes.len() as int));
            assert(dir_ok(parent, children, nodes.len() as int));
            assert(dir_ok(parent, newkids, nodes.len() as int + 1)) by {
                assert(forall|j: int|
                    0 <= j < children.len() ==> (#[trigger] newkids[j]) == children[j]);
                assert(newkids[newkids.len() - 1] == (name, nodes.len() as int));
            }
            assert(n2[0] is Dir && n2[0]->Dir_parent is None) by {
                if at == 0 {
                    assert(n2[0] == (FsEntry::Dir { parent, children: newkids }));
                } else {
                    assert(n2[0] == nodes[0]);
                }
            }
            assert forall|i: int| 0 <= i < n2.len() && n2[i] is Dir implies dir_ok(
                (#[trigger] n2[i])->Dir_parent,
                n2[i]->Dir_children,
                n2.len() as int,
            ) by {
                if i == at {
                    assert(n2[i] == (FsEntry::Dir { parent, children: newkids }));
                } else if i < nodes.len() {
                    assert(n2[i] == nodes[i]);
                    assert(dir_ok(nodes[i]->Dir_parent, nodes[i]->Dir_children, nodes.len() as int));
                } else {
                    assert(n2[i] == child);
                }
            }
        },
    }
}

/// What one transcript line does to the arena, the cursor and the
/// listing state: `$ ls` opens a listing, `$ cd <dir>` moves the cursor
/// and closes it, and while a listing is open, `dir <name>` and
/// `<size> <name>` add a folder or a file under the cursor.
pub open spec fn spec_fs_step(
    nodes: Seq<FsEntry>,
    cur: int,
    in_ls: bool,
    line: Seq<char>,
) -> Result<(Seq<FsEntry>, int, bool), FsError> {
    let t = spec_tokens(line);
    if t.len() >= 1 && t[0] == "$"@ {
        if t.len() == 2 && t[1] == "ls"@ {
            Ok((nodes, cur, true))
        } else if t.len() == 3 && t[1] == "cd"@ {
            match spec_cd(nodes, cur, t[2]) {
                Ok(nc) => Ok((nodes, nc, false)),
                Err(e) => Err(e),
            }
        } else {
            Err(FsError::UnknownCommand)
        }
    } else if !in_ls {
        Err(FsError::UnknownCommand)
    } else if t.len() == 2 && t[0] == "dir"@ {
        match spec_add_child(
            nodes,
            cur,
            t[1],
            FsEntry::Dir { parent: Some(cur), children: Seq::<(Seq<char>, int)>::empty() },
        ) {
            Ok(n2) => Ok((n2, cur, true)),
            Err(e) => Err(e),
        }
    } else if t.len() == 2 && t[0].len() > 0 && all_digits(t[0]) && digits_val(t[0])
        <= usize::MAX {
        match spec_add_child(nodes, cur, t[1], FsEntry::File { size: digits_val(t[0]) }) {
            Ok(n2) => Ok((n2, cur, true)),
            Err(e) => Err(e),
        }
    } else {
        Err(FsError::InvalidEntry)
    }
}

/// What a whole transcript does, line by line: the first line that cannot
/// be applied stops the run with its error.
pub open spec fn spec_fs_run(
    nodes: Seq<FsEntry>,
    cur: int,
    in_ls: bool,
    lines: Seq<Seq<char>>,
) -> Result<(Seq<FsEntry>, int, bool), FsError>
    decreases lines.len(),
{
    if lines.len() == 0 {
        Ok((nodes, cur, in_ls))
    } else {
        match spec_fs_step(nodes, cur, in_ls, lines[0]) {
            Ok((n, c, l)) => spec_fs_run(n, c, l, lines.skip(1)),
            Err(e) => Err(e),
        }
    }
}

/// Running one more line at the end runs the earlier lines first.
proof fn lemma_fs_run_snoc(
    nodes: Seq<FsEntry>,
    cur: int,
    in_ls: bool,
    lines: Seq<Seq<char>>,
    line: Seq<char>,
)
    ensures
        spec_fs_run(nodes, cur, in_ls, lines.push(line)) == (match spec_fs_run(
            nodes,
            cur,
            in_ls,
            lines,
        ) {
            Ok((n, c, l)) => spec_fs_step(n, c, l, line),
            Err(e) => Err(e),
        }),
    decreases lines.len(),
{
    if lines.len() == 0 {
        assert(lines.push(line)[0] == line);
        assert(lines.push(line).skip(1) =~= Seq::<Seq<char>>::empty());
        let r = spec_fs_step(nodes, cur, in_ls, line);
        if r is Ok {
            let (n, c, l) = r->Ok_0;
            assert(spec_fs_run(n, c, l, Seq::<Seq<char>>::empty()) == Ok::<
                (Seq<FsEntry>, int, bool),
                FsError,
            >((n, c, l)));
        }
    } else {
        assert(lines.push(line).skip(1) =~= lines.skip(1).push(line));
        assert(lines.push(line)[0] == lines[0]);
        match spec_fs_step(nodes, cur, in_ls, lines[0]) {
            Err(e) => {},
            Ok((n, c, l)) => {
                lemma_fs_run_snoc(n, c, l, lines.skip(1), line);
            },
        }
    }
}

/// A run that fails on some line fails as a whole with that line's error.
proof fn lemma_fs_run_prefix_err(
    nodes: Seq<FsEntry>,
    cur: int,
    in_ls: bool,
    lines: Seq<Seq<char>>,
    k: int,
)
    requires
        0 <= k < lines.len(),
        spec_fs_run(nodes, cur, in_ls, lines.take(k + 1)) is Err,
    ensures
        spec_fs_run(nodes, cur, in_ls, lines) == spec_fs_run(nodes, cur, in_ls, lines.take(k + 1)),
    decreases lines.len() - k,
{
    if k + 1 == lines.len() {
        assert(lines.take(k + 1) =~= lines);
    } else {
        lemma_fs_run_snoc(nodes, cur, in_ls, lines.take(k + 1), lines[k + 1]);
        assert(lines.take(k + 2) =~= lines.take(k + 1).push(lines[k + 1]));
        lemma_fs_run_prefix_err(nodes, cur, in_ls, lines, k + 1);
    }
}

/// The starting arena of a transcript replay: one root folder.
pub open spec fn initial_arena() -> Seq<FsEntry> {
    seq![FsEntry::Dir { parent: None, children: Seq::<(Seq<char>, int)>::empty() }]
}

/// What parsing a transcript yields: the arena left by replaying every
/// line against a fresh root, starting outside any listing.
pub open spec fn spec_parse_fs(s: Seq<char>) -> Result<Seq<FsEntry>, FsError> {
    match spec_fs_run(initial_arena(), 0, false, spec_lines(s)) {
        Ok((n, c, l)) => Ok(n),
        Err(e) => Err(e),
    }
}

impl FileSystem {
    /// Replays a shell transcript: `$ cd <dir>` moves the cursor, `$ ls`
    /// opens a listing, and each listed `dir <name>` or `<size> <name>`
    /// adds a child under the cursor. The first line that cannot be
    /// applied stops the parse with its error.
    pub fn parse(s: &str) -> (r: Result<FileSystem, FsError>)
        ensures
            match r {
                Ok(fs) => spec_parse_fs(s@) == Ok::<Seq<FsEntry>, FsError>(fs@) && fs_wf(fs@),
                Err(e) => spec_parse_fs(s@) == Err::<Seq<FsEntry>, FsError>(e),
            },
    {
        let lines: Vec<Vec<char>> = crate::text::split_lines(s);
        let ghost sl = spec_lines(s@);
        let mut fs = FileSystem::new();
        let mut cur: CurrentDirMut = fs.root_mut();
        let mut in_ls: bool = false;
        proof {
            assert(fs@ =~= initial_arena());
            assert(spec_fs_run(initial_arena(), 0, false, sl.take(0)) == Ok::<
                (Seq<FsEntry>, int, bool),
                FsError,
            >((fs@, cur.spec_idx(), in_ls)));
        }
        let mut i: usize = 0;
        while i < lines.len()
            invariant
                0 <= i <= lines@.len(),
                sl == spec_lines(s@),
                lines@.len() == sl.len(),
                forall|k: int| 0 <= k < lines@.len() ==> #[trigger] lines@[k]@ == sl[k],
                fs_wf(fs@),
                0 <= cur.spec_idx() < fs@.len(),
                spec_fs_run(initial_arena(), 0, false, sl.take(i as int)) == Ok::<
                    (Seq<FsEntry>, int, bool),
                    FsError,
                >((fs@, cur.spec_idx(), in_ls)),
            decreases lines@.len() - i,
        {
            let line: &Vec<char> = &lines[i];
            let toks: Vec<Vec<char>> = crate::text::tokens(line);
            let ghost st = spec_tokens(sl[i as int]);
            proof {
                lemma_fs_run_snoc(
                    initial_arena(),
                    0,
                    false,
                    sl.take(i as int),
                    sl[i as int],
                );
                assert(sl.take(i + 1) =~= sl.take(i as int).push(sl[i as int]));
            }
            let step_err: FsError;
            if toks.len() >= 1 && crate::text::is_word(&toks[0], "$") {
                if toks.len() == 2 && crate::text::is_word(&toks[1], "ls") {
                    in_ls = true;
                    i = i + 1;
                    continue ;
                } else if toks.len() == 3 && crate::text::is_word(&toks[1], "cd") {
                    match cur.change_chars(&fs, &toks[2]) {
                        Ok(next) => {
                            proof {
                                lemma_cd_range(fs@, cur.spec_idx(), st[2]);
                            }
                            cur = next;
                            in_ls = false;
                            i = i + 1;
                            continue ;
                        },
                        Err(e) => {
                            step_err = e;
                        },
                    }
                } else {
                    step_err = FsError::UnknownCommand;
                }
            } else if !in_ls {
                step_err = FsError::UnknownCommand;
            } else if toks.len() == 2 && crate::text::is_word(&toks[0], "dir") {
                let name: Vec<char> = clone_chars(&toks[1]);
                let child = Node::Folder(
                    FolderData { parent: Some(cur.node_idx()), children: Vec::new() },
                );
                let ghost cm = node_model(child);
                proof {
                    assert(cm->Dir_children =~= Seq::<(Seq<char>, int)>::empty());
                    assert(cm == (FsEntry::Dir {
                        parent: Some(cur.spec_idx()),
                        children: Seq::<(Seq<char>, int)>::empty(),
                    }));
                }
                let ghost pre = fs@;
                match cur.add_child(&mut fs, name, child) {
                    Ok(()) => {
                        proof {
                            lemma_add_child_wf(pre, cur.spec_idx(), st[1], cm);
                        }
                        in_ls = true;
                        i = i + 1;
                        continue ;
                    },
                    Err(e) => {
                        step_err = e;
                    },
                }
            } else if toks.len() == 2 {
                match crate::text::parse_usize(&toks[0]) {
                    Some(size) => {
                        let name: Vec<char> = clone_chars(&toks[1]);
                        let ghost pre = fs@;
                        match cur.add_child(&mut fs, name, Node::File(size)) {
                            Ok(()) => {
                                proof {
                                    lemma_add_child_wf(
                                        pre,
                                        cur.spec_idx(),
                                        st[1],
                                        FsEntry::File { size: size as int },
                                    );
                                }
                                in_ls = true;
                                i = i + 1;
                                continue ;
                            },
                            Err(e) => {
                                step_err = e;
                            },
                        }
                    },
                    None => {
                        step_err = FsError::InvalidEntry;
                    },
                }
            } else {
                step_err = FsError::InvalidEntry;
            }
            proof {
                assert(spec_fs_run(initial_arena(), 0, false, sl.take(i + 1)) == Err::<
                    (Seq<FsEntry>, int, bool),
                    FsError,
                >(step_err));
                lemma_fs_run_prefix_err(initial_arena(), 0, false, sl, i as int);
            }
            return Err(step_err);
        }
        proof {
            assert(sl.take(sl.len() as int) =~= sl);
        }
        Ok(fs)
    }
}

} // verus!
