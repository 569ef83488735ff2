//! The unpack pipeline: replays tar layers, in manifest order, into one
//! cumulative tree with overlay semantics — later layers override earlier
//! ones, whiteouts delete, opaque markers clear a directory — then
//! serializes the tree, stores it content-addressed, and commits an
//! artifact rooted at it.

use vstd::prelude::*;
use crate::digest::{bytes_eq, clone_bytes, Descriptor, Digest, MediaType};
use crate::repo::{clone_metadata, spec_commit, spec_put, MetaEntry, Repo, RepoView};
use crate::sha::{sha256, sha256_of};
use crate::tarfmt::{next_entry, spec_next, ItemView, TarItem};
use crate::RepoError;

verus! {

/// One reconstructed filesystem node.
#[derive(Debug)]
pub enum TreeEntry {
    /// A regular file whose content is the object at `digest`.
    File { digest: Vec<u8>, size: u64, mode: u64 },
    /// A directory.
    Dir { mode: u64 },
    /// A symbolic link to `target`.
    Symlink { target: Vec<u8> },
    /// A hard link to the file at path `target`.
    Hardlink { target: Vec<u8> },
    /// A character device.
    CharDev { major: u64, minor: u64, mode: u64 },
    /// A block device.
    BlockDev { major: u64, minor: u64, mode: u64 },
    /// A named pipe.
    Fifo { mode: u64 },
}

/// Model of one filesystem node.
#[verifier::ext_equal]
pub ghost enum EntryView {
    File { digest: Seq<u8>, size: u64, mode: u64 },
    Dir { mode: u64 },
    Symlink { target: Seq<u8> },
    Hardlink { target: Seq<u8> },
    CharDev { major: u64, minor: u64, mode: u64 },
    BlockDev { major: u64, minor: u64, mode: u64 },
    Fifo { mode: u64 },
}

impl View for TreeEntry {
    type V = EntryView;

    open spec fn view(&self) -> EntryView {
        match self {
            TreeEntry::File { digest, size, mode } => EntryView::File {
                digest: digest@,
                size: *size,
                mode: *mode,
            },
            TreeEntry::Dir { mode } => EntryView::Dir { mode: *mode },
            TreeEntry::Symlink { target } => EntryView::Symlink { target: target@ },
            TreeEntry::Hardlink { target } => EntryView::Hardlink { target: target@ },
            TreeEntry::CharDev { major, minor, mode } => EntryView::CharDev {
                major: *major,
                minor: *minor,
                mode: *mode,
            },
            TreeEntry::BlockDev { major, minor, mode } => EntryView::BlockDev {
                major: *major,
                minor: *minor,
                mode: *mode,
            },
            TreeEntry::Fifo { mode } => EntryView::Fifo { mode: *mode },
        }
    }
}

impl TreeEntry {
    /// An independent copy.
    pub fn dup(&self) -> (e: TreeEntry)
        ensures
            e@ == self@,
    {
        match self {
            TreeEntry::File { digest, size, mode } => TreeEntry::File {
                digest: clone_bytes(digest.as_slice()),
                size: *size,
                mode: *mode,
            },
            TreeEntry::Dir { mode } => TreeEntry::Dir { mode: *mode },
            TreeEntry::Symlink { target } => TreeEntry::Symlink {
                target: clone_bytes(target.as_slice()),
            },
            TreeEntry::Hardlink { target } => TreeEntry::Hardlink {
                target: clone_bytes(target.as_slice()),
            },
            TreeEntry::CharDev { major, minor, mode } => TreeEntry::CharDev {
                major: *major,
                minor: *minor,
                mode: *mode,
            },
            TreeEntry::BlockDev { major, minor, mode } => TreeEntry::BlockDev {
                major: *major,
                minor: *minor,
                mode: *mode,
            },
            TreeEntry::Fifo { mode } => TreeEntry::Fifo { mode: *mode },
        }
    }
}

/// The model of a path: its components as byte strings.
pub open spec fn path_of(p: Seq<Vec<u8>>) -> Seq<Seq<u8>> {
    p.map_values(|c: Vec<u8>| c@)
}

/// Whether `q` equals `p` or lies below it.
pub open spec fn extends(q: Seq<Seq<u8>>, p: Seq<Seq<u8>>) -> bool {
    q.len() >= p.len() && q.subrange(0, p.len() as int) == p
}

/// Whether `q` lies strictly below `p`.
pub open spec fn strictly_under(q: Seq<Seq<u8>>, p: Seq<Seq<u8>>) -> bool {
    q.len() > p.len() && q.subrange(0, p.len() as int) == p
}

/// One named node of the cumulative tree.
#[derive(Debug)]
pub struct TreeNode {
    pub path: Vec<Vec<u8>>,
    pub entry: TreeEntry,
}

impl TreeNode {
    /// The node's path model.
    pub open spec fn pathv(&self) -> Seq<Seq<u8>> {
        path_of(self.path@)
    }

    /// An independent copy.
    pub fn dup(&self) -> (n: TreeNode)
        ensures
            n.pathv() == self.pathv(),
            n.entry@ == self.entry@,
    {
        let mut path: Vec<Vec<u8>> = Vec::new();
        let mut i: usize = 0;
        while i < self.path.len()
            invariant
                i <= self.path@.len(),
                path@.len() == i,
                forall|j: int| 0 <= j < i ==> (#[trigger] path@[j])@ == self.path@[j]@,
            decreases self.path@.len() - i,
        {
            path.push(clone_bytes(self.path[i].as_slice()));
            i = i + 1;
        }
        let n = TreeNode { path, entry: self.entry.dup() };
        proof {
            assert(n.pathv() =~= self.pathv());
        }
        n
    }
}

/// Compares two paths.
pub fn path_eq(a: &Vec<Vec<u8>>, b: &Vec<Vec<u8>>) -> (r: bool)
    ensures
        r == (path_of(a@) == path_of(b@)),
{
    if a.len() != b.len() {
        proof {
            assert(path_of(a@).len() == a@.len());
            assert(path_of(b@).len() == b@.len());
        }
        return false;
    }
    let mut i: usize = 0;
    while i < a.len()
        invariant
            a@.len() == b@.len(),
            i <= a@.len(),
            forall|j: int| 0 <= j < i ==> (#[trigger] a@[j])@ == b@[j]@,
        decreases a@.len() - i,
    {
        if !bytes_eq(a[i].as_slice(), b[i].as_slice()) {
            proof {
                assert(path_of(a@)[i as int] == a@[i as int]@);
                assert(path_of(b@)[i as int] == b@[i as int]@);
            }
            return false;
        }
        i = i + 1;
    }
    proof {
        assert(path_of(a@) =~= path_of(b@));
    }
    true
}

/// Whether `path_of(q@)` extends (or strictly descends from) `path_of(p@)`.
pub fn path_extends(q: &Vec<Vec<u8>>, p: &Vec<Vec<u8>>, strict: bool) -> (r: bool)
    ensures
        !strict ==> r == extends(path_of(q@), path_of(p@)),
        strict ==> r == strictly_under(path_of(q@), path_of(p@)),
{
    proof {
        assert(path_of(q@).len() == q@.len());
        assert(path_of(p@).len() == p@.len());
    }
    if q.len() < p.len() || (strict && q.len() == p.len()) {
        return false;
    }
    let mut i: usize = 0;
    while i < p.len()
        invariant
            p@.len() <= q@.len(),
            i <= p@.len(),
            forall|j: int| 0 <= j < i ==> (#[trigger] q@[j])@ == p@[j]@,
        decreases p@.len() - i,
    {
        if !bytes_eq(q[i].as_slice(), p[i].as_slice()) {
            proof {
                assert(path_of(q@).subrange(0, p@.len() as int)[i as int] == q@[i as int]@);
                assert(path_of(p@)[i as int] == p@[i as int]@);
            }
            return false;
        }
        i = i + 1;
    }
    proof {
        assert(path_of(q@).subrange(0, p@.len() as int) =~= path_of(p@));
    }
    true
}

/// The cumulative tree built over a stack of layers.
#[derive(Debug)]
pub struct Tree {
    nodes: Vec<TreeNode>,
}

/// The path-to-entry map denoted by a node sequence.
pub open spec fn tree_map_of(nodes: Seq<TreeNode>) -> Map<Seq<Seq<u8>>, EntryView>
    decreases nodes.len(),
{
    if nodes.len() == 0 {
        Map::empty()
    } else {
        tree_map_of(nodes.drop_last()).insert(nodes.last().pathv(), nodes.last().entry@)
    }
}

/// A path occurs in the tree map exactly when some node carries it.
pub proof fn lemma_tree_map_contains(nodes: Seq<TreeNode>, p: Seq<Seq<u8>>)
    ensures
        tree_map_of(nodes).contains_key(p) <==> exists|i: int|
            0 <= i < nodes.len() && (#[trigger] nodes[i]).pathv() == p,
    decreases nodes.len(),
{
    if nodes.len() > 0 {
        lemma_tree_map_contains(nodes.drop_last(), p);
        if nodes.last().pathv() == p {
            assert(nodes[nodes.len() - 1].pathv() == p);
        } else {
            if tree_map_of(nodes).contains_key(p) {
                let i = choose|i: int|
                    0 <= i < nodes.drop_last().len() && (#[trigger] nodes.drop_last()[i]).pathv()
                        == p;
                assert(nodes[i].pathv() == p);
            }
            if exists|i: int| 0 <= i < nodes.len() && (#[trigger] nodes[i]).pathv() == p {
                let i = choose|i: int| 0 <= i < nodes.len() && (#[trigger] nodes[i]).pathv() == p;
                assert(i < nodes.len() - 1);
                assert(nodes.drop_last()[i].pathv() == p);
            }
        }
    }
}

/// With distinct paths, each node is what the tree map holds at its path.
pub proof fn lemma_tree_map_index(nodes: Seq<TreeNode>, i: int)
    requires
        0 <= i < nodes.len(),
        forall|j: int, k: int|
            0 <= j < k < nodes.len() ==> (#[trigger] nodes[j]).pathv() != (
            #[trigger] nodes[k]).pathv(),
    ensures
        tree_map_of(nodes).contains_key(nodes[i].pathv()),
        tree_map_of(nodes)[nodes[i].pathv()] == nodes[i].entry@,
    decreases nodes.len(),
{
    if i == nodes.len() - 1 {
        assert(nodes.last() == nodes[i]);
    } else {
        assert(forall|j: int, k: int|
            0 <= j < k < nodes.drop_last().len() ==> (#[trigger] nodes.drop_last()[j]).pathv() != (
            #[trigger] nodes.drop_last()[k]).pathv());
        lemma_tree_map_index(nodes.drop_last(), i);
        assert(nodes.drop_last()[i] == nodes[i]);
        assert(nodes[i].pathv() != nodes.last().pathv());
    }
}

impl View for Tree {
    type V = Map<Seq<Seq<u8>>, EntryView>;

    closed spec fn view(&self) -> Map<Seq<Seq<u8>>, EntryView> {
        tree_map_of(self.nodes@)
    }
}

/// A tree map with everything at or (strictly) below `p` removed.
pub open spec fn map_remove_under(
    m: Map<Seq<Seq<u8>>, EntryView>,
    p: Seq<Seq<u8>>,
    strict: bool,
) -> Map<Seq<Seq<u8>>, EntryView> {
    Map::new(
        |q: Seq<Seq<u8>>|
            m.contains_key(q) && !(if strict {
                strictly_under(q, p)
            } else {
                extends(q, p)
            }),
        |q: Seq<Seq<u8>>| m[q],
    )
}

impl Tree {
    /// The map a well-formed tree denotes agrees with `has` and `at`.
    proof fn lemma_view(&self)
        requires
            self.wf(),
        ensures
            forall|p: Seq<Seq<u8>>|
                #![trigger self@.contains_key(p)]
                self@.contains_key(p) == self.has(p),
            forall|p: Seq<Seq<u8>>|
                #![trigger self@[p]]
                self.has(p) ==> self@[p] == self.at(p),
    {
        assert forall|p: Seq<Seq<u8>>| #![trigger self@.contains_key(p)]
            self@.contains_key(p) == self.has(p) by {
            lemma_tree_map_contains(self.nodes@, p);
        }
        assert forall|p: Seq<Seq<u8>>| #![trigger self@[p]] self.has(p) implies self@[p]
            == self.at(p) by {
            lemma_tree_map_contains(self.nodes@, p);
            let i = choose|i: int|
                0 <= i < self.nodes@.len() && (#[trigger] self.nodes@[i]).pathv() == p;
            lemma_tree_map_index(self.nodes@, i);
            let w = choose|w: int|
                0 <= w < self.nodes@.len() && (#[trigger] self.nodes@[w]).pathv() == p;
            assert(w == i);
        }
    }
}

impl Tree {
    /// Well-formed: node paths are distinct.
    pub closed spec fn wf(&self) -> bool {
        forall|j: int, k: int|
            0 <= j < k < self.nodes@.len() ==> (#[trigger] self.nodes@[j]).pathv() != (
            #[trigger] self.nodes@[k]).pathv()
    }

    /// Whether the tree holds a node at `p`.
    pub closed spec fn has(&self, p: Seq<Seq<u8>>) -> bool {
        exists|i: int| 0 <= i < self.nodes@.len() && (#[trigger] self.nodes@[i]).pathv() == p
    }

    /// The node at `p`.
    pub closed spec fn at(&self, p: Seq<Seq<u8>>) -> EntryView {
        self.nodes@[choose|i: int|
            0 <= i < self.nodes@.len() && (#[trigger] self.nodes@[i]).pathv() == p].entry@
    }

    /// How many nodes the tree holds.
    pub fn len(&self) -> (n: usize)
        ensures
            n == self.count(),
    {
        self.nodes.len()
    }

    /// The number of nodes.
    pub closed spec fn count(&self) -> nat {
        self.nodes@.len()
    }

    /// An empty tree.
    pub fn new() -> (t: Tree)
        ensures
            t.wf(),
            forall|p: Seq<Seq<u8>>| !(#[trigger] t.has(p)),
            t.count() == 0,
            t@ == Map::<Seq<Seq<u8>>, EntryView>::empty(),
    {
        Tree { nodes: Vec::new() }
    }

    fn find(&self, path: &Vec<Vec<u8>>) -> (r: Option<usize>)
        ensures
            r matches Some(i) ==> i < self.nodes@.len() && self.nodes@[i as int].pathv()
                == path_of(path@),
            r is None ==> forall|i: int|
                0 <= i < self.nodes@.len() ==> (#[trigger] self.nodes@[i]).pathv() != path_of(
                    path@,
                ),
            r is Some <==> self.has(path_of(path@)),
    {
        let mut i: usize = 0;
        while i < self.nodes.len()
            invariant
                i <= self.nodes@.len(),
                forall|j: int|
                    0 <= j < i ==> (#[trigger] self.nodes@[j]).pathv() != path_of(path@),
            decreases self.nodes@.len() - i,
        {
            if path_eq(&self.nodes[i].path, path) {
                proof {
                    assert((#[trigger] self.nodes@[i as int]).pathv() == path_of(path@));
                }
                return Some(i);
            }
            i = i + 1;
        }
        None
    }

    /// Looks the tree up at a path.
    pub fn get_entry(&self, path: &Vec<Vec<u8>>) -> (r: Option<&TreeEntry>)
        requires
            self.wf(),
        ensures
            r is Some <==> self.has(path_of(path@)),
            r matches Some(e) ==> e@ == self.at(path_of(path@)),
            r is Some <==> self@.contains_key(path_of(path@)),
            r matches Some(e) ==> e@ == self@[path_of(path@)],
    {
        proof {
            self.lemma_view();
        }
        match self.find(path) {
            Some(i) => {
                proof {
                    let p = path_of(path@);
                    let w = choose|k: int|
                        0 <= k < self.nodes@.len() && (#[trigger] self.nodes@[k]).pathv() == p;
                    assert(w == i as int);
                }
                Some(&self.nodes[i].entry)
            },
            None => None,
        }
    }

    #[verifier::rlimit(100)]
    fn remove_under(&mut self, path: &Vec<Vec<u8>>, strict: bool)
        requires
            old(self).wf(),
        ensures
            final(self).wf(),
            forall|q: Seq<Seq<u8>>|
                #![trigger final(self).has(q)]
                final(self).has(q) <==> (old(self).has(q) && !(if strict {
                    strictly_under(q, path_of(path@))
                } else {
                    extends(q, path_of(path@))
                })),
            forall|q: Seq<Seq<u8>>|
                #![trigger final(self).at(q)]
                final(self).has(q) ==> final(self).at(q) == old(self).at(q),
            final(self)@ == map_remove_under(old(self)@, path_of(path@), strict),
    {
        let ghost p = path_of(path@);
        let mut kept: Vec<TreeNode> = Vec::new();
        let mut i: usize = 0;
        while i < self.nodes.len()
            invariant
                old(self).wf(),
                self.nodes@ == old(self).nodes@,
                i <= self.nodes@.len(),
                p == path_of(path@),
                forall|j: int|
                    #![trigger kept@[j]]
                    0 <= j < kept@.len() ==> exists|t: int|
                        0 <= t < i && (#[trigger] self.nodes@[t]).pathv() == kept@[j].pathv()
                            && self.nodes@[t].entry@ == kept@[j].entry@,
                forall|j: int|
                    #![trigger kept@[j]]
                    0 <= j < kept@.len() ==> !(if strict {
                        strictly_under(kept@[j].pathv(), p)
                    } else {
                        extends(kept@[j].pathv(), p)
                    }),
                forall|t: int|
                    0 <= t < i && !(if strict {
                        strictly_under((#[trigger] self.nodes@[t]).pathv(), p)
                    } else {
                        extends(self.nodes@[t].pathv(), p)
                    }) ==> exists|j: int|
                        0 <= j < kept@.len() && (#[trigger] kept@[j]).pathv()
                            == self.nodes@[t].pathv(),
                forall|j: int, k: int|
                    0 <= j < k < kept@.len() ==> (#[trigger] kept@[j]).pathv() != (
                    #[trigger] kept@[k]).pathv(),
            decreases self.nodes@.len() - i,
        {
            let ghost kept_prev = kept@;
            let drop_it = path_extends(&self.nodes[i].path, path, strict);
            if !drop_it {
                kept.push(self.nodes[i].dup());
                proof {
                    assert(kept@[kept@.len() - 1].pathv() == self.nodes@[i as int].pathv());
                    assert forall|j: int| #![trigger kept@[j]] 0 <= j < kept@.len() implies exists|
                        t: int,
                    |
                        0 <= t < i + 1 && (#[trigger] self.nodes@[t]).pathv() == kept@[j].pathv()
                            && self.nodes@[t].entry@ == kept@[j].entry@ by {
                        if j < kept_prev.len() {
                            assert(kept@[j] == kept_prev[j]);
                            let t = choose|t: int|
                                0 <= t < i && (#[trigger] self.nodes@[t]).pathv()
                                    == kept_prev[j].pathv() && self.nodes@[t].entry@
                                    == kept_prev[j].entry@;
                            assert(self.nodes@[t].pathv() == kept@[j].pathv()
                                && self.nodes@[t].entry@ == kept@[j].entry@);
                        } else {
                            assert(self.nodes@[i as int].pathv() == kept@[j].pathv()
                                && self.nodes@[i as int].entry@ == kept@[j].entry@);
                        }
                    }
                    assert forall|t: int|
                        0 <= t < i + 1 && !(if strict {
                            strictly_under((#[trigger] self.nodes@[t]).pathv(), p)
                        } else {
                            extends(self.nodes@[t].pathv(), p)
                        }) implies exists|j: int|
                        0 <= j < kept@.len() && (#[trigger] kept@[j]).pathv()
                            == self.nodes@[t].pathv() by {
                        if t < i {
                            let j = choose|j: int|
                                0 <= j < kept_prev.len() && (#[trigger] kept_prev[j]).pathv()
                                    == self.nodes@[t].pathv();
                            assert(kept@[j].pathv() == self.nodes@[t].pathv());
                        } else {
                            assert(kept@[kept@.len() - 1].pathv() == self.nodes@[t].pathv());
                        }
                    }
                    assert forall|j: int| 0 <= j < kept_prev.len() implies (
                    #[trigger] kept@[j]).pathv() != kept@[kept@.len() - 1].pathv() by {
                        let t = choose|t: int|
                            0 <= t < i && (#[trigger] self.nodes@[t]).pathv()
                                == kept_prev[j].pathv() && self.nodes@[t].entry@
                                == kept_prev[j].entry@;
                        assert(self.nodes@[t].pathv() != self.nodes@[i as int].pathv());
                    }
                }
            }
            i = i + 1;
        }
        self.nodes = kept;
        proof {
            assert forall|q: Seq<Seq<u8>>| #![trigger self.has(q)]
                self.has(q) <==> (old(self).has(q) && !(if strict {
                    strictly_under(q, p)
                } else {
                    extends(q, p)
                })) by {
                if self.has(q) {
                    let j = choose|j: int|
                        0 <= j < self.nodes@.len() && (#[trigger] self.nodes@[j]).pathv() == q;
                    let t = choose|t: int|
                        0 <= t < old(self).nodes@.len() && (#[trigger] old(self).nodes@[t]).pathv()
                            == self.nodes@[j].pathv() && old(self).nodes@[t].entry@
                            == self.nodes@[j].entry@;
                    assert(old(self).nodes@[t].pathv() == q);
                }
                if old(self).has(q) && !(if strict {
                    strictly_under(q, p)
                } else {
                    extends(q, p)
                }) {
                    let t = choose|t: int|
                        0 <= t < old(self).nodes@.len() && (#[trigger] old(self).nodes@[t]).pathv()
                            == q;
                    let j = choose|j: int|
                        0 <= j < self.nodes@.len() && (#[trigger] self.nodes@[j]).pathv()
                            == old(self).nodes@[t].pathv();
                    assert(self.nodes@[j].pathv() == q);
                }
            }
            assert forall|q: Seq<Seq<u8>>| #![trigger self.at(q)] self.has(q) implies self.at(q)
                == old(self).at(q) by {
                let j = choose|j: int|
                    0 <= j < self.nodes@.len() && (#[trigger] self.nodes@[j]).pathv() == q;
                let t = choose|t: int|
                    0 <= t < old(self).nodes@.len() && (#[trigger] old(self).nodes@[t]).pathv()
                        == self.nodes@[j].pathv() && old(self).nodes@[t].entry@
                        == self.nodes@[j].entry@;
                let w = choose|w: int|
                    0 <= w < self.nodes@.len() && (#[trigger] self.nodes@[w]).pathv() == q;
                assert(w == j);
                let ow = choose|ow: int|
                    0 <= ow < old(self).nodes@.len() && (#[trigger] old(self).nodes@[ow]).pathv()
                        == q;
                assert(ow == t);
            }
            old(self).lemma_view();
            self.lemma_view();
            assert(self@ =~= map_remove_under(old(self)@, p, strict));
        }
    }

    /// Applies a whiteout: removes the node at `path` and everything
    /// below it.  Stored objects are untouched — only name bindings go.
    pub fn remove_subtree(&mut self, path: &Vec<Vec<u8>>)
        requires
            old(self).wf(),
        ensures
            final(self).wf(),
            forall|q: Seq<Seq<u8>>|
                #![trigger final(self).has(q)]
                final(self).has(q) <==> (old(self).has(q) && !extends(q, path_of(path@))),
            forall|q: Seq<Seq<u8>>|
                #![trigger final(self).at(q)]
                final(self).has(q) ==> final(self).at(q) == old(self).at(q),
            final(self)@ == map_remove_under(old(self)@, path_of(path@), false),
    {
        self.remove_under(path, false)
    }

    /// Applies an opaque-directory marker: clears everything strictly
    /// below `path`, keeping the directory itself.
    pub fn clear_children(&mut self, path: &Vec<Vec<u8>>)
        requires
            old(self).wf(),
        ensures
            final(self).wf(),
            forall|q: Seq<Seq<u8>>|
                #![trigger final(self).has(q)]
                final(self).has(q) <==> (old(self).has(q) && !strictly_under(q, path_of(path@))),
            forall|q: Seq<Seq<u8>>|
                #![trigger final(self).at(q)]
                final(self).has(q) ==> final(self).at(q) == old(self).at(q),
            final(self)@ == map_remove_under(old(self)@, path_of(path@), true),
    {
        self.remove_under(path, true)
    }

    /// Binds `path` to `entry`, the later layer winning over whatever was
    /// there.  A non-directory replaces the old node and everything below
    /// it; a directory updates the node but keeps existing children.
    #[verifier::rlimit(100)]
    pub fn set_entry(&mut self, path: Vec<Vec<u8>>, entry: TreeEntry)
        requires
            old(self).wf(),
        ensures
            final(self).wf(),
            final(self).has(path_of(path@)),
            final(self).at(path_of(path@)) == entry@,
            entry@ matches EntryView::Dir { .. } ==> forall|q: Seq<Seq<u8>>|
                #![trigger final(self).has(q)]
                q != path_of(path@) ==> (final(self).has(q) == old(self).has(q)),
            !(entry@ matches EntryView::Dir { .. }) ==> forall|q: Seq<Seq<u8>>|
                #![trigger final(self).has(q)]
                q != path_of(path@) ==> (final(self).has(q) <==> (old(self).has(q)
                    && !strictly_under(q, path_of(path@)))),
            forall|q: Seq<Seq<u8>>|
                #![trigger final(self).at(q)]
                q != path_of(path@) && final(self).has(q) ==> final(self).at(q) == old(self).at(
                    q,
                ),
            entry@ matches EntryView::Dir { .. } ==> final(self)@ == old(self)@.insert(
                path_of(path@),
                entry@,
            ),
            !(entry@ matches EntryView::Dir { .. }) ==> final(self)@ == map_remove_under(
                old(self)@,
                path_of(path@),
                true,
            ).insert(path_of(path@), entry@),
    {
        let ghost p = path_of(path@);
        let ghost ev = entry@;
        let is_dir = match &entry {
            TreeEntry::Dir { .. } => true,
            _ => false,
        };
        if is_dir {
            match self.find(&path) {
                Some(i) => {
                    let node = TreeNode { path, entry };
                    proof {
                        assert(node.pathv() == p);
                    }
                    self.nodes[i] = node;
                    proof {
                        self.lemma_after_update(old(self), i as int, p);
                        old(self).lemma_view();
                        self.lemma_view();
                        assert(self@ =~= old(self)@.insert(p, ev));
                    }
                },
                None => {
                    self.push_node(TreeNode { path, entry });
                    proof {
                        old(self).lemma_view();
                        self.lemma_view();
                        assert(self@ =~= old(self)@.insert(p, ev));
                    }
                },
            }
        } else {
            self.remove_under(&path, false);
            proof {
                assert(p.subrange(0, p.len() as int) =~= p);
                assert(extends(p, p));
                assert(!self.has(p));
            }
            let ghost mid = *self;
            self.push_node(TreeNode { path, entry });
            proof {
                assert forall|q: Seq<Seq<u8>>| #![trigger self.has(q)] q != p implies (self.has(q)
                    <==> (old(self).has(q) && !strictly_under(q, p))) by {
                    if q != p {
                        assert(self.has(q) == mid.has(q));
                        assert(mid.has(q) <==> (old(self).has(q) && !extends(q, p)));
                        if extends(q, p) && q.len() == p.len() {
                            assert(q.subrange(0, p.len() as int) =~= q);
                        }
                    }
                }
                old(self).lemma_view();
                self.lemma_view();
                assert forall|q: Seq<Seq<u8>>|
                    #![trigger map_remove_under(old(self)@, p, true).contains_key(q)]
                    q != p implies (map_remove_under(old(self)@, p, true).contains_key(q) == (
                old(self).has(q) && !strictly_under(q, p))) by {}
                assert(self@ =~= map_remove_under(old(self)@, p, true).insert(p, ev));
            }
        }
    }

    fn push_node(&mut self, node: TreeNode)
        requires
            old(self).wf(),
            !old(self).has(node.pathv()),
        ensures
            final(self).wf(),
            final(self).has(node.pathv()),
            final(self).at(node.pathv()) == node.entry@,
            forall|q: Seq<Seq<u8>>|
                #![trigger final(self).has(q)]
                q != node.pathv() ==> final(self).has(q) == old(self).has(q),
            forall|q: Seq<Seq<u8>>|
                #![trigger final(self).at(q)]
                q != node.pathv() && final(self).has(q) ==> final(self).at(q) == old(self).at(q),
    {
        let ghost pv = node.pathv();
        self.nodes.push(node);
        proof {
            let n = self.nodes@.len() - 1;
            assert(self.nodes@[n].pathv() == pv);
            assert forall|j: int, k: int| 0 <= j < k < self.nodes@.len() implies (
            #[trigger] self.nodes@[j]).pathv() != (#[trigger] self.nodes@[k]).pathv() by {
                if k < n {
                    assert(old(self).nodes@[j].pathv() != old(self).nodes@[k].pathv());
                } else {
                    assert(self.nodes@[j] == old(self).nodes@[j]);
                    assert(old(self).has(old(self).nodes@[j].pathv()));
                }
            }
            assert forall|q: Seq<Seq<u8>>| #![trigger self.has(q)] q != pv implies self.has(q)
                == old(self).has(q) by {
                if self.has(q) && q != pv {
                    let j = choose|j: int|
                        0 <= j < self.nodes@.len() && (#[trigger] self.nodes@[j]).pathv() == q;
                    assert(j < n);
                    assert(old(self).nodes@[j].pathv() == q);
                }
                if old(self).has(q) {
                    let j = choose|j: int|
                        0 <= j < old(self).nodes@.len() && (#[trigger] old(self).nodes@[j]).pathv()
                            == q;
                    assert(self.nodes@[j].pathv() == q);
                }
            }
            assert forall|q: Seq<Seq<u8>>| #![trigger self.at(q)] q != pv && self.has(q) implies
                self.at(q) == old(self).at(q) by {
                let j = choose|j: int|
                    0 <= j < self.nodes@.len() && (#[trigger] self.nodes@[j]).pathv() == q;
                assert(j < n);
                assert(old(self).nodes@[j].pathv() == q);
                let w = choose|w: int|
                    0 <= w < self.nodes@.len() && (#[trigger] self.nodes@[w]).pathv() == q;
                assert(w == j);
                let ow = choose|ow: int|
                    0 <= ow < old(self).nodes@.len() && (#[trigger] old(self).nodes@[ow]).pathv()
                        == q;
                assert(ow == j);
            }
            assert(self.has(pv)) by {
                assert(self.nodes@[n].pathv() == pv);
            }
            let w = choose|w: int|
                0 <= w < self.nodes@.len() && (#[trigger] self.nodes@[w]).pathv() == pv;
            assert(w == n);
        }
    }

    proof fn lemma_after_update(&self, prev: &Tree, i: int, p: Seq<Seq<u8>>)
        requires
            prev.wf(),
            0 <= i < prev.nodes@.len(),
            prev.nodes@[i].pathv() == p,
            self.nodes@ == prev.nodes@.update(i, self.nodes@[i]),
            self.nodes@[i].pathv() == p,
        ensures
            self.wf(),
            self.has(p),
            self.at(p) == self.nodes@[i].entry@,
            forall|q: Seq<Seq<u8>>|
                #![trigger self.has(q)]
                q != p ==> self.has(q) == prev.has(q),
            forall|q: Seq<Seq<u8>>|
                #![trigger self.at(q)]
                q != p && self.has(q) ==> self.at(q) == prev.at(q),
    {
        assert forall|j: int, k: int| 0 <= j < k < self.nodes@.len() implies (
        #[trigger] self.nodes@[j]).pathv() != (#[trigger] self.nodes@[k]).pathv() by {
            assert(prev.nodes@[j].pathv() != prev.nodes@[k].pathv());
        }
        assert(self.has(p)) by {
            assert(self.nodes@[i].pathv() == p);
        }
        let w = choose|w: int|
            0 <= w < self.nodes@.len() && (#[trigger] self.nodes@[w]).pathv() == p;
        assert(w == i);
        assert forall|q: Seq<Seq<u8>>| #![trigger self.has(q)] q != p implies self.has(q)
            == prev.has(q) by {
            if self.has(q) && q != p {
                let j = choose|j: int|
                    0 <= j < self.nodes@.len() && (#[trigger] self.nodes@[j]).pathv() == q;
                assert(j != i);
                assert(prev.nodes@[j].pathv() == q);
            }
            if prev.has(q) && q != p {
                let j = choose|j: int|
                    0 <= j < prev.nodes@.len() && (#[trigger] prev.nodes@[j]).pathv() == q;
                assert(j != i);
                assert(self.nodes@[j].pathv() == q);
            }
        }
        assert forall|q: Seq<Seq<u8>>| #![trigger self.at(q)] q != p && self.has(q) implies self.at(
            q,
        ) == prev.at(q) by {
            let j = choose|j: int|
                0 <= j < self.nodes@.len() && (#[trigger] self.nodes@[j]).pathv() == q;
            assert(j != i);
            assert(prev.nodes@[j].pathv() == q);
            let ow = choose|ow: int|
                0 <= ow < prev.nodes@.len() && (#[trigger] prev.nodes@[ow]).pathv() == q;
            assert(ow == j);
        }
    }
}

/// The whiteout marker prefix on a file name.
pub open spec fn wh_prefix() -> Seq<u8> {
    seq![46u8, 119u8, 104u8, 46u8]
}

/// Whether a name component is a whiteout marker.
pub open spec fn is_whiteout(c: Seq<u8>) -> bool {
    c.len() >= 4 && c.subrange(0, 4) == wh_prefix()
}

/// The opaque-directory marker component.
pub open spec fn opaque_marker() -> Seq<u8> {
    seq![46u8, 119u8, 104u8, 46u8, 46u8, 119u8, 104u8, 46u8, 46u8, 111u8, 112u8, 113u8]
}

fn comp_is_whiteout(c: &[u8]) -> (r: bool)
    ensures
        r == is_whiteout(c@),
{
    if c.len() >= 4 && c[0] == 46 && c[1] == 119 && c[2] == 104 && c[3] == 46 {
        proof {
            assert(c@.subrange(0, 4) =~= wh_prefix());
        }
        true
    } else {
        proof {
            if c@.len() >= 4 && c@.subrange(0, 4) == wh_prefix() {
                assert(c@[0] == 46 && c@[1] == 119 && c@[2] == 104 && c@[3] == 46) by {
                    assert(c@.subrange(0, 4)[0] == c@[0]);
                    assert(c@.subrange(0, 4)[1] == c@[1]);
                    assert(c@.subrange(0, 4)[2] == c@[2]);
                    assert(c@.subrange(0, 4)[3] == c@[3]);
                }
            }
        }
        false
    }
}

fn comp_is_opaque(c: &[u8]) -> (r: bool)
    ensures
        r == (c@ == opaque_marker()),
{
    let m: [u8; 12] = [46, 119, 104, 46, 46, 119, 104, 46, 46, 111, 112, 113];
    let r = bytes_eq(c, m.as_slice());
    proof {
        assert(m@ =~= opaque_marker());
    }
    r
}

/// One step of splitting a tar entry name: `cur` is the component being
/// read, `acc` the components finished before byte `i`.  A `/` or the
/// end of the name closes `cur`: empty and `.` components are dropped,
/// `..` is refused, anything else is appended.
pub open spec fn split_loop(name: Seq<u8>, i: int, cur: Seq<u8>, acc: Seq<Seq<u8>>) -> Result<
    Seq<Seq<u8>>,
    (),
>
    decreases name.len() - i,
{
    if i < 0 || i >= name.len() {
        if cur == seq![46u8, 46u8] {
            Err(())
        } else if cur.len() > 0 && cur != seq![46u8] {
            Ok(acc.push(cur))
        } else {
            Ok(acc)
        }
    } else if name[i] == 47 {
        if cur == seq![46u8, 46u8] {
            Err(())
        } else if cur.len() > 0 && cur != seq![46u8] {
            split_loop(name, i + 1, Seq::empty(), acc.push(cur))
        } else {
            split_loop(name, i + 1, Seq::empty(), acc)
        }
    } else {
        split_loop(name, i + 1, cur.push(name[i]), acc)
    }
}

/// The path components of a tar entry name: split on `/`, with empty
/// and `.` components dropped; a `..` component anywhere is refused.
pub open spec fn spec_split(name: Seq<u8>) -> Result<Seq<Seq<u8>>, ()> {
    split_loop(name, 0, Seq::empty(), Seq::empty())
}

/// Splits a tar entry name into path components: exactly `spec_split`,
/// with the refusal surfaced as `LayerFormat`.
pub fn split_components(name: &[u8]) -> (r: Result<Vec<Vec<u8>>, RepoError>)
    ensures
        r matches Ok(p) ==> spec_split(name@) == Ok::<Seq<Seq<u8>>, ()>(path_of(p@)) && (forall|
            i: int,
        |
            0 <= i < p@.len() ==> (#[trigger] p@[i])@.len() > 0 && p@[i]@ != seq![46u8] && p@[i]@
                != seq![46u8, 46u8]),
        r matches Err(e) ==> e == RepoError::LayerFormat && spec_split(name@) is Err,
{
    let mut comps: Vec<Vec<u8>> = Vec::new();
    let mut cur: Vec<u8> = Vec::new();
    let mut i: usize = 0;
    proof {
        assert(path_of(comps@) =~= Seq::<Seq<u8>>::empty());
    }
    while i < name.len()
        invariant
            i <= name@.len(),
            split_loop(name@, i as int, cur@, path_of(comps@)) == spec_split(name@),
            forall|j: int|
                0 <= j < comps@.len() ==> (#[trigger] comps@[j])@.len() > 0 && comps@[j]@ != seq![
                    46u8,
                ] && comps@[j]@ != seq![46u8, 46u8],
        decreases name@.len() - i,
    {
        let b = name[i];
        if b == 47 {
            if cur.len() == 2 && cur[0] == 46 && cur[1] == 46 {
                proof {
                    assert(cur@ =~= seq![46u8, 46u8]);
                }
                return Err(RepoError::LayerFormat);
            }
            let keep = cur.len() > 0 && !(cur.len() == 1 && cur[0] == 46);
            if keep {
                proof {
                    assert(cur@ != seq![46u8, 46u8]) by {
                        if cur@ == seq![46u8, 46u8] {
                            assert(cur@.len() == 2 && cur@[0] == 46 && cur@[1] == 46);
                        }
                    }
                    assert(cur@ != seq![46u8]) by {
                        if cur@ == seq![46u8] {
                            assert(cur@.len() == 1 && cur@[0] == 46);
                        }
                    }
                    assert(path_of(comps@.push(cur)) =~= path_of(comps@).push(cur@));
                }
                comps.push(cur);
                cur = Vec::new();
            } else {
                proof {
                    if cur@.len() > 0 && cur@ != seq![46u8] {
                        assert(cur@.len() == 1 && cur@[0] == 46);
                        assert(cur@ =~= seq![46u8]);
                    }
                }
                cur = Vec::new();
            }
        } else {
            cur.push(b);
        }
        i = i + 1;
    }
    if cur.len() == 2 && cur[0] == 46 && cur[1] == 46 {
        proof {
            assert(cur@ =~= seq![46u8, 46u8]);
        }
        return Err(RepoError::LayerFormat);
    }
    let keep = cur.len() > 0 && !(cur.len() == 1 && cur[0] == 46);
    if keep {
        proof {
            assert(cur@ != seq![46u8, 46u8]) by {
                if cur@ == seq![46u8, 46u8] {
                    assert(cur@.len() == 2 && cur@[0] == 46 && cur@[1] == 46);
                }
            }
            assert(cur@ != seq![46u8]) by {
                if cur@ == seq![46u8] {
                    assert(cur@.len() == 1 && cur@[0] == 46);
                }
            }
            assert(path_of(comps@.push(cur)) =~= path_of(comps@).push(cur@));
        }
        comps.push(cur);
    } else {
        proof {
            if cur@.len() > 0 && cur@ != seq![46u8] {
                assert(cur@.len() == 1 && cur@[0] == 46);
                assert(cur@ =~= seq![46u8]);
            }
        }
    }
    Ok(comps)
}

/// The whiteout's victim: the marker's parent path plus the marked name
/// with its four-byte marker prefix stripped.
pub open spec fn whiteout_target(path: Seq<Seq<u8>>) -> Seq<Seq<u8>>
    recommends
        path.len() > 0,
{
    path.drop_last().push(path.last().subrange(4, path.last().len() as int))
}

/// The joint transition of one tar entry on the repository and the
/// cumulative tree.  Extended-header entries change nothing; a malformed
/// name or an unknown entry kind is a format error; the opaque marker
/// clears its directory; a whiteout removes its victim's subtree; a
/// regular file admits its content as an object — refused as `SealError`
/// when the integrity mode cannot admit it — and every other kind binds
/// its path, a non-directory replacing whatever stood at or below it.
pub open spec fn apply_item_spec(
    v: RepoView,
    m: Map<Seq<Seq<u8>>, EntryView>,
    item: ItemView,
) -> Result<(RepoView, Map<Seq<Seq<u8>>, EntryView>), RepoError> {
    let tf = item.header.typeflag;
    if tf == 120 || tf == 103 {
        Ok((v, m))
    } else {
        match spec_split(item.header.name) {
            Err(_) => Err(RepoError::LayerFormat),
            Ok(path) => {
                if path.len() == 0 {
                    Ok((v, m))
                } else if path.last() == opaque_marker() {
                    Ok((v, map_remove_under(m, path.drop_last(), true)))
                } else if is_whiteout(path.last()) {
                    Ok((v, map_remove_under(m, whiteout_target(path), false)))
                } else if tf == 48 || tf == 0 || tf == 55 {
                    let d = sha256_of(item.data);
                    let put = spec_put(v, item.data, d);
                    if put.1 is Err {
                        Err(RepoError::SealError)
                    } else {
                        Ok(
                            (
                                put.0,
                                map_remove_under(m, path, true).insert(
                                    path,
                                    EntryView::File {
                                        digest: d,
                                        size: item.header.size,
                                        mode: item.header.mode,
                                    },
                                ),
                            ),
                        )
                    }
                } else if tf == 53 {
                    Ok((v, m.insert(path, EntryView::Dir { mode: item.header.mode })))
                } else if tf == 50 {
                    Ok(
                        (
                            v,
                            map_remove_under(m, path, true).insert(
                                path,
                                EntryView::Symlink { target: item.header.linkname },
                            ),
                        ),
                    )
                } else if tf == 49 {
                    Ok(
                        (
                            v,
                            map_remove_under(m, path, true).insert(
                                path,
                                EntryView::Hardlink { target: item.header.linkname },
                            ),
                        ),
                    )
                } else if tf == 51 {
                    Ok(
                        (
                            v,
                            map_remove_under(m, path, true).insert(
                                path,
                                EntryView::CharDev {
                                    major: item.header.devmajor,
                                    minor: item.header.devminor,
                                    mode: item.header.mode,
                                },
                            ),
                        ),
                    )
                } else if tf == 52 {
                    Ok(
                        (
                            v,
                            map_remove_under(m, path, true).insert(
                                path,
                                EntryView::BlockDev {
                                    major: item.header.devmajor,
                                    minor: item.header.devminor,
                                    mode: item.header.mode,
                                },
                            ),
                        ),
                    )
                } else if tf == 54 {
                    Ok(
                        (
                            v,
                            map_remove_under(m, path, true).insert(
                                path,
                                EntryView::Fifo { mode: item.header.mode },
                            ),
                        ),
                    )
                } else {
                    Err(RepoError::LayerFormat)
                }
            },
        }
    }
}

impl Tree {
    /// Applies one tar entry: exactly the `apply_item_spec` transition on
    /// the repository and the tree, an error leaving both untouched.
    ///
    /// GNU long-name/long-link entries are not supported and fall to the
    /// unknown-kind refusal; pax extended headers are skipped without
    /// applying their overrides, so an entry whose path needs them binds
    /// under its ustar name.  This keeps every accepted layer's meaning
    /// exactly what the transition states.
    #[verifier::rlimit(100)]
    pub fn apply_item(&mut self, repo: &mut Repo, item: &TarItem) -> (r: Result<(), RepoError>)
        requires
            old(self).wf(),
            old(repo).wf(),
        ensures
            final(self).wf(),
            final(repo).wf(),
            final(repo)@.integrity_required == old(repo)@.integrity_required,
            final(repo)@.sealing_available == old(repo)@.sealing_available,
            final(repo)@.tags == old(repo)@.tags,
            final(repo)@.artifacts == old(repo)@.artifacts,
            forall|d: Seq<u8>|
                #![trigger old(repo)@.objects.contains_key(d)]
                old(repo)@.objects.contains_key(d) ==> final(repo)@.objects.contains_key(d),
            apply_item_spec(old(repo)@, old(self)@, item@) matches Ok(t) ==> r is Ok
                && final(repo)@ == t.0 && final(self)@ == t.1,
            apply_item_spec(old(repo)@, old(self)@, item@) matches Err(e) ==> r == Err::<
                (),
                RepoError,
            >(e) && final(repo)@ == old(repo)@ && final(self)@ == old(self)@,
            r matches Err(e) ==> e == RepoError::LayerFormat || e == RepoError::SealError,
    {
        let tf = item.header.typeflag;
        if tf == 120 || tf == 103 {
            // pax extended headers carry metadata this tree does not record
            return Ok(());
        }
        let mut path = match split_components(item.header.name.as_slice()) {
            Ok(p) => p,
            Err(e) => {
                return Err(e);
            },
        };
        let ghost pv = path_of(path@);
        if path.len() == 0 {
            // the archive's root directory entry; the root is implicit
            return Ok(());
        }
        proof {
            assert(pv.last() == path@[path@.len() - 1]@);
        }
        let last = &path[path.len() - 1];
        if comp_is_opaque(last.as_slice()) {
            let _ = path.pop();
            proof {
                assert(path_of(path@) =~= pv.drop_last());
            }
            self.clear_children(&path);
            return Ok(());
        }
        if comp_is_whiteout(last.as_slice()) {
            let mut stripped: Vec<u8> = Vec::new();
            let mut k: usize = 4;
            let n = path.len() - 1;
            let whole = &path[n];
            proof {
                assert(stripped@ =~= whole@.subrange(4, 4));
            }
            while k < whole.len()
                invariant
                    whole@.len() >= 4,
                    4 <= k <= whole@.len(),
                    stripped@ == whole@.subrange(4, k as int),
                decreases whole@.len() - k,
            {
                proof {
                    assert(whole@.subrange(4, k + 1) =~= whole@.subrange(4, k as int).push(
                        whole@[k as int],
                    ));
                }
                stripped.push(whole[k]);
                k = k + 1;
            }
            let _ = path.pop();
            path.push(stripped);
            proof {
                assert(path_of(path@) =~= whiteout_target(pv));
            }
            self.remove_subtree(&path);
            return Ok(());
        }
        if tf == 48 || tf == 0 || tf == 55 {
            let d = sha256(item.data.as_slice());
            let digest = Digest::new_sha256(d);
            let data = clone_bytes(item.data.as_slice());
            match repo.put_object(data, &digest, MediaType::Other) {
                Ok(desc) => {
                    let entry = TreeEntry::File {
                        digest: desc.digest.bytes,
                        size: item.header.size,
                        mode: item.header.mode,
                    };
                    self.set_entry(path, entry);
                    Ok(())
                },
                Err(e) => {
                    proof {
                        assert(e == RepoError::SealError);
                    }
                    Err(e)
                },
            }
        } else if tf == 53 {
            self.set_entry(path, TreeEntry::Dir { mode: item.header.mode });
            Ok(())
        } else if tf == 50 {
            let target = clone_bytes(item.header.linkname.as_slice());
            self.set_entry(path, TreeEntry::Symlink { target });
            Ok(())
        } else if tf == 49 {
            let target = clone_bytes(item.header.linkname.as_slice());
            self.set_entry(path, TreeEntry::Hardlink { target });
            Ok(())
        } else if tf == 51 {
            self.set_entry(
                path,
                TreeEntry::CharDev {
                    major: item.header.devmajor,
                    minor: item.header.devminor,
                    mode: item.header.mode,
                },
            );
            Ok(())
        } else if tf == 52 {
            self.set_entry(
                path,
                TreeEntry::BlockDev {
                    major: item.header.devmajor,
                    minor: item.header.devminor,
                    mode: item.header.mode,
                },
            );
            Ok(())
        } else if tf == 54 {
            self.set_entry(path, TreeEntry::Fifo { mode: item.header.mode });
            Ok(())
        } else {
            Err(RepoError::LayerFormat)
        }
    }

    /// Applies one whole tar layer, entry by entry, in order: exactly
    /// the `apply_layer_spec` replay of the bytes.  On an error, entries
    /// before the failing one have already been applied; the caller
    /// discards the tree and commits nothing.
    pub fn apply_layer(&mut self, repo: &mut Repo, layer: &[u8]) -> (r: Result<(), RepoError>)
        requires
            old(self).wf(),
            old(repo).wf(),
        ensures
            final(self).wf(),
            final(repo).wf(),
            final(repo)@.integrity_required == old(repo)@.integrity_required,
            final(repo)@.sealing_available == old(repo)@.sealing_available,
            final(repo)@.tags == old(repo)@.tags,
            final(repo)@.artifacts == old(repo)@.artifacts,
            forall|d: Seq<u8>|
                #![trigger old(repo)@.objects.contains_key(d)]
                old(repo)@.objects.contains_key(d) ==> final(repo)@.objects.contains_key(d),
            apply_layer_spec(old(repo)@, old(self)@, layer@, 0) matches Ok(t) ==> r is Ok
                && final(repo)@ == t.0 && final(self)@ == t.1,
            apply_layer_spec(old(repo)@, old(self)@, layer@, 0) matches Err(e) ==> r == Err::<
                (),
                RepoError,
            >(e),
            r matches Err(e) ==> e == RepoError::LayerFormat || e == RepoError::SealError,
    {
        let mut offset: usize = 0;
        loop
            invariant
                self.wf(),
                repo.wf(),
                offset <= layer@.len(),
                repo@.integrity_required == old(repo)@.integrity_required,
                repo@.sealing_available == old(repo)@.sealing_available,
                repo@.tags == old(repo)@.tags,
                repo@.artifacts == old(repo)@.artifacts,
                forall|d: Seq<u8>|
                    #![trigger old(repo)@.objects.contains_key(d)]
                    old(repo)@.objects.contains_key(d) ==> repo@.objects.contains_key(d),
                apply_layer_spec(old(repo)@, old(self)@, layer@, 0) == apply_layer_spec(
                    repo@,
                    self@,
                    layer@,
                    offset as int,
                ),
            decreases layer@.len() - offset,
        {
            match next_entry(layer, offset) {
                Ok(None) => {
                    return Ok(());
                },
                Ok(Some(item)) => {
                    let ghost v_pre = repo@;
                    let ghost m_pre = self@;
                    match self.apply_item(repo, &item) {
                        Ok(_) => {},
                        Err(e) => {
                            proof {
                                assert(apply_layer_spec(v_pre, m_pre, layer@, offset as int)
                                    == Err::<(RepoView, Map<Seq<Seq<u8>>, EntryView>), RepoError>(
                                    e,
                                ));
                            }
                            return Err(e);
                        },
                    }
                    proof {
                        assert(apply_layer_spec(v_pre, m_pre, layer@, offset as int)
                            == apply_layer_spec(repo@, self@, layer@, item.next as int));
                    }
                    offset = item.next;
                },
                Err(e) => {
                    return Err(e);
                },
            }
        }
    }
}

/// The replay of a whole tar layer from `offset`: entries applied in
/// order until the archive's end, the first failure deciding the error.
pub open spec fn apply_layer_spec(
    v: RepoView,
    m: Map<Seq<Seq<u8>>, EntryView>,
    layer: Seq<u8>,
    offset: int,
) -> Result<(RepoView, Map<Seq<Seq<u8>>, EntryView>), RepoError>
    decreases layer.len() - offset,
{
    if offset < 0 || offset > layer.len() {
        Err(RepoError::LayerFormat)
    } else {
        match spec_next(layer, offset) {
            Err(_) => Err(RepoError::LayerFormat),
            Ok(None) => Ok((v, m)),
            Ok(Some(item)) => match apply_item_spec(v, m, item) {
                Err(e) => Err(e),
                Ok(t) => apply_layer_spec(t.0, t.1, layer, item.next),
            },
        }
    }
}

/// A 64-bit value as eight little-endian bytes.
pub open spec fn le64(v: u64) -> Seq<u8> {
    seq![
        (v % 256) as u8,
        ((v / 256) % 256) as u8,
        ((v / 65536) % 256) as u8,
        ((v / 16777216) % 256) as u8,
        ((v / 4294967296) % 256) as u8,
        ((v / 1099511627776) % 256) as u8,
        ((v / 281474976710656) % 256) as u8,
        ((v / 72057594037927936) % 256) as u8,
    ]
}

/// A length-prefixed byte string.
pub open spec fn enc_bytes(b: Seq<u8>) -> Seq<u8> {
    le64(b.len() as u64) + b
}

/// The components of a path, each length-prefixed, in order.
pub open spec fn enc_comps(p: Seq<Seq<u8>>) -> Seq<u8>
    decreases p.len(),
{
    if p.len() == 0 {
        Seq::empty()
    } else {
        enc_comps(p.drop_last()) + enc_bytes(p.last())
    }
}

/// One node of the serialized tree: a kind byte, the path, the fields.
pub open spec fn enc_node(p: Seq<Seq<u8>>, e: EntryView) -> Seq<u8> {
    le64(p.len() as u64) + enc_comps(p) + match e {
        EntryView::File { digest, size, mode } => seq![1u8] + enc_bytes(digest) + le64(size)
            + le64(mode),
        EntryView::Dir { mode } => seq![2u8] + le64(mode),
        EntryView::Symlink { target } => seq![3u8] + enc_bytes(target),
        EntryView::Hardlink { target } => seq![4u8] + enc_bytes(target),
        EntryView::CharDev { major, minor, mode } => seq![5u8] + le64(major) + le64(minor) + le64(
            mode,
        ),
        EntryView::BlockDev { major, minor, mode } => seq![6u8] + le64(major) + le64(minor)
            + le64(mode),
        EntryView::Fifo { mode } => seq![7u8] + le64(mode),
    }
}

/// The serialized tree: its nodes' records, in order.
pub open spec fn enc_tree(nodes: Seq<TreeNode>) -> Seq<u8>
    decreases nodes.len(),
{
    if nodes.len() == 0 {
        Seq::empty()
    } else {
        enc_tree(nodes.drop_last()) + enc_node(nodes.last().pathv(), nodes.last().entry@)
    }
}

fn push_le64(out: &mut Vec<u8>, v: u64)
    ensures
        final(out)@ == old(out)@ + le64(v),
{
    out.push((v % 256) as u8);
    out.push(((v / 256) % 256) as u8);
    out.push(((v / 65536) % 256) as u8);
    out.push(((v / 16777216) % 256) as u8);
    out.push(((v / 4294967296) % 256) as u8);
    out.push(((v / 1099511627776) % 256) as u8);
    out.push(((v / 281474976710656) % 256) as u8);
    out.push(((v / 72057594037927936) % 256) as u8);
    proof {
        assert(out@ =~= old(out)@ + le64(v));
    }
}

fn push_bytes(out: &mut Vec<u8>, b: &[u8])
    ensures
        final(out)@ == old(out)@ + enc_bytes(b@),
{
    push_le64(out, b.len() as u64);
    let mut i: usize = 0;
    while i < b.len()
        invariant
            i <= b@.len(),
            out@ == old(out)@ + le64(b@.len() as u64) + b@.subrange(0, i as int),
        decreases b@.len() - i,
    {
        proof {
            assert((old(out)@ + le64(b@.len() as u64) + b@.subrange(0, i as int)).push(
                b@[i as int],
            ) =~= old(out)@ + le64(b@.len() as u64) + b@.subrange(0, i + 1));
        }
        out.push(b[i]);
        i = i + 1;
    }
    proof {
        assert(b@.subrange(0, b@.len() as int) =~= b@);
        assert(old(out)@ + le64(b@.len() as u64) + b@ =~= old(out)@ + enc_bytes(b@));
    }
}

impl Tree {
    /// Serializes the tree into one metadata byte string, so the whole
    /// reconstructed filesystem is reachable from the single
    /// content-addressed object holding it.
    #[verifier::rlimit(100)]
    pub fn serialize(&self) -> (r: Vec<u8>)
        ensures
            r@ == self.spec_encoding(),
    {
        let mut out: Vec<u8> = Vec::new();
        let mut i: usize = 0;
        while i < self.nodes.len()
            invariant
                i <= self.nodes@.len(),
                out@ == enc_tree(self.nodes@.subrange(0, i as int)),
            decreases self.nodes@.len() - i,
        {
            let ghost before = out@;
            let node = &self.nodes[i];
            push_le64(&mut out, node.path.len() as u64);
            let mut j: usize = 0;
            while j < node.path.len()
                invariant
                    j <= node.path@.len(),
                    out@ == before + le64(node.path@.len() as u64) + enc_comps(
                        node.pathv().subrange(0, j as int),
                    ),
                decreases node.path@.len() - j,
            {
                proof {
                    assert(node.pathv().subrange(0, j + 1).drop_last() =~= node.pathv().subrange(
                        0,
                        j as int,
                    ));
                    assert(node.pathv().subrange(0, j + 1).last() == node.path@[j as int]@);
                }
                push_bytes(&mut out, node.path[j].as_slice());
                proof {
                    assert(out@ =~= before + le64(node.path@.len() as u64) + enc_comps(
                        node.pathv().subrange(0, j + 1),
                    ));
                }
                j = j + 1;
            }
            proof {
                assert(node.pathv().subrange(0, node.pathv().len() as int) =~= node.pathv());
            }
            match &self.nodes[i].entry {
                TreeEntry::File { digest, size, mode } => {
                    out.push(1);
                    push_bytes(&mut out, digest.as_slice());
                    push_le64(&mut out, *size);
                    push_le64(&mut out, *mode);
                },
                TreeEntry::Dir { mode } => {
                    out.push(2);
                    push_le64(&mut out, *mode);
                },
                TreeEntry::Symlink { target } => {
                    out.push(3);
                    push_bytes(&mut out, target.as_slice());
                },
                TreeEntry::Hardlink { target } => {
                    out.push(4);
                    push_bytes(&mut out, target.as_slice());
                },
                TreeEntry::CharDev { major, minor, mode } => {
                    out.push(5);
                    push_le64(&mut out, *major);
                    push_le64(&mut out, *minor);
                    push_le64(&mut out, *mode);
                },
                TreeEntry::BlockDev { major, minor, mode } => {
                    out.push(6);
                    push_le64(&mut out, *major);
                    push_le64(&mut out, *minor);
                    push_le64(&mut out, *mode);
                },
                TreeEntry::Fifo { mode } => {
                    out.push(7);
                    push_le64(&mut out, *mode);
                },
            }
            proof {
                assert(out@ =~= before + enc_node(
                    self.nodes@[i as int].pathv(),
                    self.nodes@[i as int].entry@,
                ));
                assert(self.nodes@.subrange(0, i + 1).drop_last() =~= self.nodes@.subrange(
                    0,
                    i as int,
                ));
                assert(self.nodes@.subrange(0, i + 1).last() == self.nodes@[i as int]);
            }
            i = i + 1;
        }
        proof {
            assert(self.nodes@.subrange(0, self.nodes@.len() as int) =~= self.nodes@);
        }
        out
    }
}

/// What gzip decompression yields on a byte string, if it is well-formed
/// gzip data; the result is a function of the input alone.
pub uninterp spec fn gunzip_of(bytes: Seq<u8>) -> Option<Seq<u8>>;

/// Relies on `flate2::read::GzDecoder`: decompresses a gzip stream, a
/// pure function of the input bytes, refusing malformed input.
#[verifier::external_body]
fn gunzip(bytes: &[u8]) -> (r: Result<Vec<u8>, RepoError>)
    ensures
        r matches Ok(v) ==> gunzip_of(bytes@) == Some(v@),
        r matches Err(e) ==> gunzip_of(bytes@) is None && e == RepoError::LayerFormat,
{
    let mut d = flate2::read::GzDecoder::new(bytes);
    let mut out: Vec<u8> = Vec::new();
    match std::io::Read::read_to_end(&mut d, &mut out) {
        Ok(_) => Ok(out),
        Err(_) => Err(RepoError::LayerFormat),
    }
}

/// The result of an unpack: the committed artifact and the tree it
/// serialized.
pub struct UnpackResult {
    pub artifact: u64,
    pub tree: Tree,
}

/// The replay of a pulled artifact's layers from the `i`-th on: each
/// layer's stored bytes — absent layers refused as `NotFound` — are
/// decompressed when their media kind says so, refused as `LayerFormat`
/// when not well-formed gzip, and replayed over the tree in order.
pub open spec fn unpack_layers_spec(
    v: RepoView,
    m: Map<Seq<Seq<u8>>, EntryView>,
    descs: Seq<crate::digest::DescriptorView>,
    i: int,
) -> Result<(RepoView, Map<Seq<Seq<u8>>, EntryView>), RepoError>
    decreases descs.len() - i,
{
    if i < 0 || i >= descs.len() {
        Ok((v, m))
    } else {
        let d = descs[i];
        if !v.objects.contains_key(d.digest) {
            Err(RepoError::NotFound)
        } else if d.media == MediaType::LayerTarGzip {
            match gunzip_of(v.objects[d.digest].data) {
                None => Err(RepoError::LayerFormat),
                Some(tar) => match apply_layer_spec(v, m, tar, 0) {
                    Err(e) => Err(e),
                    Ok(t) => unpack_layers_spec(t.0, t.1, descs, i + 1),
                },
            }
        } else {
            match apply_layer_spec(v, m, v.objects[d.digest].data, 0) {
                Err(e) => Err(e),
                Ok(t) => unpack_layers_spec(t.0, t.1, descs, i + 1),
            }
        }
    }
}

/// Consumes a pulled artifact's layer blobs, in order, replays them into
/// one deduplicated tree — exactly the `unpack_layers_spec` replay —
/// stores the serialized tree content-addressed, and commits an artifact
/// rooted at it, carrying the given metadata.
///
/// Success is owed whenever the replay succeeds and the integrity mode
/// can admit the tree object; the only failure after a clean replay is
/// `SealError` on that final object.  On any failure no artifact is
/// committed and the tag namespace is untouched.
pub fn unpack_import(repo: &mut Repo, layer_descs: &Vec<Descriptor>, metadata: &Vec<MetaEntry>) -> (r:
    Result<UnpackResult, RepoError>)
    requires
        old(repo).wf(),
        forall|i: int| 0 <= i < layer_descs@.len() ==> (#[trigger] layer_descs@[i]).wf(),
    ensures
        final(repo).wf(),
        final(repo)@.integrity_required == old(repo)@.integrity_required,
        final(repo)@.sealing_available == old(repo)@.sealing_available,
        final(repo)@.tags == old(repo)@.tags,
        unpack_layers_spec(
            old(repo)@,
            Map::empty(),
            layer_descs@.map_values(|d: Descriptor| d@),
            0,
        ) matches Err(e) ==> r matches Err(e2) && e2 == e,
        unpack_layers_spec(
            old(repo)@,
            Map::empty(),
            layer_descs@.map_values(|d: Descriptor| d@),
            0,
        ) matches Ok(t) ==> (r matches Err(e) ==> e == RepoError::SealError) && ((
        !t.0.integrity_required || t.0.sealing_available) ==> r is Ok),
        r matches Ok(u) ==> (unpack_layers_spec(
            old(repo)@,
            Map::empty(),
            layer_descs@.map_values(|d: Descriptor| d@),
            0,
        ) matches Ok(t) && u.tree@ == t.1 && final(repo)@ == spec_commit(
            spec_put(t.0, enc_tree_of(&u.tree), sha256_of(enc_tree_of(&u.tree))).0,
            crate::digest::DescriptorView {
                digest: sha256_of(enc_tree_of(&u.tree)),
                size: enc_tree_of(&u.tree).len() as u64,
                media: MediaType::Other,
            },
            metadata@.map_values(|e: MetaEntry| e@),
        )),
        r matches Ok(u) ==> u.tree.wf() && u.artifact == old(repo)@.artifacts.len()
            && final(repo)@.artifacts.len() == old(repo)@.artifacts.len() + 1
            && final(repo)@.artifacts.last().root
            == (crate::digest::DescriptorView {
            digest: sha256_of(enc_tree_of(&u.tree)),
            size: enc_tree_of(&u.tree).len() as u64,
            media: MediaType::Other,
        }) && final(repo)@.artifacts.last().metadata == metadata@.map_values(|e: MetaEntry| e@)
            && final(repo)@.objects.contains_key(sha256_of(enc_tree_of(&u.tree))),
        r is Err ==> final(repo)@.artifacts == old(repo)@.artifacts,
{
    let ghost descs = layer_descs@.map_values(|d: Descriptor| d@);
    let mut tree = Tree::new();
    let mut i: usize = 0;
    while i < layer_descs.len()
        invariant
            repo.wf(),
            tree.wf(),
            i <= layer_descs@.len(),
            descs == layer_descs@.map_values(|d: Descriptor| d@),
            forall|j: int| 0 <= j < layer_descs@.len() ==> (#[trigger] layer_descs@[j]).wf(),
            repo@.integrity_required == old(repo)@.integrity_required,
            repo@.sealing_available == old(repo)@.sealing_available,
            repo@.tags == old(repo)@.tags,
            repo@.artifacts == old(repo)@.artifacts,
            unpack_layers_spec(old(repo)@, Map::empty(), descs, 0) == unpack_layers_spec(
                repo@,
                tree@,
                descs,
                i as int,
            ),
        decreases layer_descs@.len() - i,
    {
        let ghost v_pre = repo@;
        let ghost m_pre = tree@;
        proof {
            assert(descs[i as int] == layer_descs@[i as int]@);
        }
        let blob = match repo.get_object(&layer_descs[i]) {
            Ok(b) => b,
            Err(e) => {
                proof {
                    assert(unpack_layers_spec(v_pre, m_pre, descs, i as int) == Err::<
                        (RepoView, Map<Seq<Seq<u8>>, EntryView>),
                        RepoError,
                    >(e));
                }
                return Err(e);
            },
        };
        let is_gzip = match layer_descs[i].media {
            MediaType::LayerTarGzip => true,
            _ => false,
        };
        let tar_bytes = if is_gzip {
            match gunzip(blob.as_slice()) {
                Ok(t) => t,
                Err(e) => {
                    proof {
                        assert(unpack_layers_spec(v_pre, m_pre, descs, i as int) == Err::<
                            (RepoView, Map<Seq<Seq<u8>>, EntryView>),
                            RepoError,
                        >(e));
                    }
                    return Err(e);
                },
            }
        } else {
            blob
        };
        match tree.apply_layer(repo, tar_bytes.as_slice()) {
            Ok(_) => {},
            Err(e) => {
                proof {
                    assert(unpack_layers_spec(v_pre, m_pre, descs, i as int) == Err::<
                        (RepoView, Map<Seq<Seq<u8>>, EntryView>),
                        RepoError,
                    >(e));
                }
                return Err(e);
            },
        }
        proof {
            assert(unpack_layers_spec(v_pre, m_pre, descs, i as int) == unpack_layers_spec(
                repo@,
                tree@,
                descs,
                i + 1,
            ));
        }
        i = i + 1;
    }
    proof {
        assert(unpack_layers_spec(old(repo)@, Map::empty(), descs, 0) == Ok::<
            (RepoView, Map<Seq<Seq<u8>>, EntryView>),
            RepoError,
        >((repo@, tree@)));
    }
    let ghost v_done = repo@;
    let encoded = tree.serialize();
    let tree_digest = Digest::new_sha256(sha256(encoded.as_slice()));
    let size = encoded.len() as u64;
    let root_result = repo.put_object(encoded, &tree_digest, MediaType::Other);
    let root = match root_result {
        Ok(d) => d,
        Err(e) => {
            proof {
                assert(spec_put(v_done, enc_tree_of(&tree), sha256_of(enc_tree_of(&tree))).1
                    == Err::<(), RepoError>(e));
                assert(e == RepoError::SealError);
                assert(v_done.integrity_required && !v_done.sealing_available);
            }
            return Err(e);
        },
    };
    proof {
        assert(root@ =~= (crate::digest::DescriptorView {
            digest: sha256_of(enc_tree_of(&tree)),
            size: enc_tree_of(&tree).len() as u64,
            media: MediaType::Other,
        }));
    }
    let id = repo.commit_artifact(root, clone_metadata(metadata));
    proof {
        assert(repo@.artifacts.last().metadata == metadata@.map_values(|e: MetaEntry| e@));
    }
    Ok(UnpackResult { artifact: id, tree })
}

/// The serialized form of a tree, as the model sees it.
pub open spec fn enc_tree_of(t: &Tree) -> Seq<u8> {
    t.spec_encoding()
}

impl Tree {
    /// The tree's serialized form.
    pub closed spec fn spec_encoding(&self) -> Seq<u8> {
        enc_tree(self.nodes@)
    }
}

} // verus!
