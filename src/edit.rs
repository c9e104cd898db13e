use vstd::prelude::*;

use crate::lookup::{
    ints, lemma_walk_path, lookup_addr, node_at, path_at, strip_dot, valid_addr,
};
use crate::tree::{join_path, DirTree, DirType, Node};

verus! {

/// Why an operation on the tree could not be done.
#[derive(Clone, Copy, Debug, PartialEq, Eq, Structural)]
pub enum TreeError {
    /// The path resolves to no node.
    NotFound,
    /// The node is a symbolic link, whose removal is not supported.
    Unsupported,
}

/// What deleting a node takes on disk.
#[derive(Debug)]
pub enum Removal {
    /// The root: nothing is removed.
    Root,
    /// A directory, removed with everything under it, at this path.
    Dir(String),
    /// A single file at this path.
    File(String),
}

/// `new` is `old` with the node at address `a` changed as `step` allows,
/// the nodes on the way down keeping their names, kinds and other children.
pub open spec fn changed_at(
    old: Node,
    new: Node,
    a: Seq<int>,
    step: spec_fn(Node, Node) -> bool,
) -> bool
    decreases a.len(),
{
    if a.len() == 0 {
        step(old, new)
    } else {
        &&& new.name == old.name
        &&& new.type_ == old.type_
        &&& 0 <= a[0] < old.children@.len()
        &&& new.children@.len() == old.children@.len()
        &&& forall|i: int|
            0 <= i < old.children@.len() && i != a[0] ==> new.children@[i] == old.children@[i]
        &&& changed_at(old.children@[a[0]], new.children@[a[0]], a.drop_first(), step)
    }
}

/// `n` is `o` after a scan that found `entries`: an unscanned directory gets
/// one unscanned child per entry, in order; any other node is left as it is.
pub open spec fn scanned(o: Node, n: Node, entries: Seq<(String, DirType)>) -> bool {
    &&& n.name == o.name
    &&& n.type_ == o.type_
    &&& if o.type_ == DirType::Dir && o.children@.len() == 0 {
        &&& n.children@.len() == entries.len()
        &&& forall|i: int|
            0 <= i < entries.len() ==> {
                &&& (#[trigger] n.children@[i]).name@ == entries[i].0@
                &&& n.children@[i].type_ == entries[i].1
                &&& n.children@[i].children@.len() == 0
            }
    } else {
        n.children == o.children
    }
}

/// Whether a node is named other than `name`.
pub open spec fn other_name(name: Seq<char>) -> spec_fn(Node) -> bool {
    |c: Node| c.name@ != name
}

/// `n` is `o` without its children named `name`.
pub open spec fn detached(o: Node, n: Node, name: Seq<char>) -> bool {
    &&& n.name == o.name
    &&& n.type_ == o.type_
    &&& n.children@ == o.children@.filter(other_name(name))
}

impl Node {
    /// Adds one child per entry, in order, if this node is a directory that
    /// has no children yet; does nothing otherwise.
    pub fn scan_dir(&mut self, entries: Vec<(String, DirType)>)
        ensures
            scanned(*old(self), *final(self), entries@),
    {
        if self.type_ == DirType::Dir && self.children.len() == 0 {
            let ghost es = entries@;
            let mut entries = entries;
            let n = entries.len();
            let mut i: usize = 0;
            while i < n
                invariant
                    n == es.len(),
                    i <= n,
                    entries@ == es.skip(i as int),
                    self.name == old(self).name,
                    self.type_ == old(self).type_,
                    self.children@.len() == i,
                    forall|k: int|
                        0 <= k < i ==> {
                            &&& (#[trigger] self.children@[k]).name@ == es[k].0@
                            &&& self.children@[k].type_ == es[k].1
                            &&& self.children@[k].children@.len() == 0
                        },
                decreases n - i,
            {
                let (name, kind) = entries.remove(0);
                assert(es.skip(i as int).drop_first() =~= es.skip(i + 1));
                self.add_child(Node::new(name, kind));
                i = i + 1;
            }
        }
    }

    /// Removes every child named `name`, keeping the order of the others.
    pub fn detach_named(&mut self, name: &String)
        ensures
            detached(*old(self), *final(self), name@),
    {
        let ghost cs = self.children@;
        let ghost keep = other_name(name@);
        let mut rest = Vec::new();
        std::mem::swap(&mut rest, &mut self.children);
        let mut kept: Vec<Node> = Vec::new();
        let n = rest.len();
        let mut i: usize = 0;
        while i < n
            invariant
                n == cs.len(),
                i <= n,
                rest@ == cs.skip(i as int),
                kept@ == cs.take(i as int).filter(keep),
                keep == other_name(name@),
                self.name == old(self).name,
                self.type_ == old(self).type_,
            decreases n - i,
        {
            let c = rest.remove(0);
            assert(cs.skip(i as int).drop_first() =~= cs.skip(i + 1));
            assert(cs.take(i + 1).drop_last() =~= cs.take(i as int));
            reveal(Seq::filter);
            assert(c == cs[i as int]);
            assert(cs.take(i + 1).last() == cs[i as int]);
            assert(cs.take(i + 1).filter(keep) == if keep(cs[i as int]) {
                cs.take(i as int).filter(keep).push(cs[i as int])
            } else {
                cs.take(i as int).filter(keep)
            });
            let ghost k0 = kept@;
            if !(c.name == *name) {
                assert(keep(cs[i as int]));
                kept.push(c);
                assert(kept@ == k0.push(cs[i as int]));
            } else {
                assert(!keep(cs[i as int]));
            }
            assert(kept@ == cs.take(i + 1).filter(keep));
            i = i + 1;
        }
        assert(cs.take(n as int) =~= cs);
        self.children = kept;
    }

    /// Scans the node at address `addr[i..]` below this one.
    fn scan_at(&mut self, addr: &Vec<usize>, i: usize, entries: Vec<(String, DirType)>)
        requires
            i <= addr@.len(),
            valid_addr(*old(self), ints(addr@).skip(i as int)),
        ensures
            changed_at(
                *old(self),
                *final(self),
                ints(addr@).skip(i as int),
                |o: Node, n: Node| scanned(o, n, entries@),
            ),
        decreases addr@.len() - i,
    {
        if i == addr.len() {
            assert(ints(addr@).skip(i as int) =~= seq![]);
            self.scan_dir(entries);
        } else {
            let j = addr[i];
            assert(ints(addr@).skip(i as int).drop_first() =~= ints(addr@).skip(i + 1));
            assert(ints(addr@).skip(i as int)[0] == j);
            self.children[j].scan_at(addr, i + 1, entries);
        }
    }

    /// Removes the children named `name` of the node at address `addr[i..]`
    /// below this one.
    fn detach_at(&mut self, addr: &Vec<usize>, i: usize, name: &String)
        requires
            i <= addr@.len(),
            valid_addr(*old(self), ints(addr@).skip(i as int)),
        ensures
            changed_at(
                *old(self),
                *final(self),
                ints(addr@).skip(i as int),
                |o: Node, n: Node| detached(o, n, name@),
            ),
        decreases addr@.len() - i,
    {
        if i == addr.len() {
            assert(ints(addr@).skip(i as int) =~= seq![]);
            self.detach_named(name);
        } else {
            let j = addr[i];
            assert(ints(addr@).skip(i as int).drop_first() =~= ints(addr@).skip(i + 1));
            assert(ints(addr@).skip(i as int)[0] == j);
            self.children[j].detach_at(addr, i + 1, name);
        }
    }
}

/// What removing the node at `path` from the tree under `root` takes: an
/// unresolved path is `NotFound`, the root needs nothing, a symbolic link
/// is `Unsupported`, a directory or a file is deleted at its full path.
pub open spec fn removal_of(root: Node, path: Seq<char>, r: Result<Removal, TreeError>) -> bool {
    match lookup_addr(root, path) {
        None => r == Err::<Removal, TreeError>(TreeError::NotFound),
        Some(a) => if a.len() == 0 {
            r matches Ok(Removal::Root)
        } else {
            let full = path_at(root, root.name@, a);
            match node_at(root, a).type_ {
                DirType::Symlink => r == Err::<Removal, TreeError>(TreeError::Unsupported),
                DirType::Dir => r matches Ok(Removal::Dir(p)) && p@ == full,
                DirType::File => r matches Ok(Removal::File(p)) && p@ == full,
            }
        },
    }
}

impl DirTree {
    /// Scans the node at `path` with the entries read from its directory
    /// (see `Node::scan_dir`).
    pub fn scan_dir(&mut self, path: &str, entries: Vec<(String, DirType)>) -> (r: Result<
        (),
        TreeError,
    >)
        ensures
            match lookup_addr(old(self).base_node, path@) {
                None => r == Err::<(), TreeError>(TreeError::NotFound) && *final(self) == *old(
                    self,
                ),
                Some(a) => r is Ok && changed_at(
                    old(self).base_node,
                    final(self).base_node,
                    a,
                    |o: Node, n: Node| scanned(o, n, entries@),
                ),
            },
    {
        let addr = match self.resolve(path) {
            Some((a, _)) => a,
            None => return Err(TreeError::NotFound),
        };
        assert(ints(addr@).skip(0) =~= ints(addr@));
        self.base_node.scan_at(&addr, 0, entries);
        Ok(())
    }

    /// What removing the node at `path` takes, without changing the tree.
    pub fn removal_for(&self, path: &str) -> (r: Result<Removal, TreeError>)
        ensures
            removal_of(self.base_node, path@, r),
    {
        self.plan_removal(path).0
    }

    /// What removing the node at `path` takes, with the node's address and
    /// name when it is to be detached.
    fn plan_removal(&self, path: &str) -> (r: (Result<Removal, TreeError>, Option<(Vec<usize>, String)>))
        ensures
            removal_of(self.base_node, path@, r.0),
            (r.0 matches Ok(Removal::Dir(_)) || r.0 matches Ok(Removal::File(_))) ==> (r.1 matches Some(
                (a, name),
            ) && lookup_addr(self.base_node, path@) == Some(ints(a@)) && valid_addr(
                self.base_node,
                ints(a@),
            ) && name@ == node_at(self.base_node, ints(a@)).name@),
    {
        let (addr, kind, name) = match self.resolve(path) {
            Some((a, m)) => (a, m.type_, m.name.clone()),
            None => return (Err(TreeError::NotFound), None),
        };
        if addr.len() == 0 {
            return (Ok(Removal::Root), None);
        }
        let n = path.unicode_len();
        let mut start: usize = 0;
        if n >= 2 && path.get_char(0) == '.' && path.get_char(1) == '/' {
            start = 2;
        }
        let ghost s = strip_dot(path@);
        assert(s =~= path@.subrange(start as int, n as int));
        let mut full = self.base_node.name.clone();
        full.append("/");
        full.append(path.substring_char(start, n));
        proof {
            reveal_strlit("/");
            assert(path@ != seq!['.']) by {
                if path@ == seq!['.'] {
                    assert(ints(addr@).len() == 0);
                }
            }
            lemma_walk_path(self.base_node, s, self.base_node.name@);
            assert(full@ =~= join_path(self.base_node.name@, s));
        }
        match kind {
            DirType::Dir => (Ok(Removal::Dir(full)), Some((addr, name))),
            DirType::File => (Ok(Removal::File(full)), Some((addr, name))),
            DirType::Symlink => (Err(TreeError::Unsupported), None),
        }
    }

    /// Detaches the node at `path` from its parent, with every sibling of
    /// the same name, and says what deleting it takes on disk. The root, an
    /// unresolved path and a symbolic link leave the tree as it is.
    pub fn remove_node(&mut self, path: &str) -> (r: Result<Removal, TreeError>)
        ensures
            removal_of(old(self).base_node, path@, r),
            match r {
                Ok(Removal::Dir(_)) | Ok(Removal::File(_)) => {
                    let a = lookup_addr(old(self).base_node, path@)->Some_0;
                    let name = node_at(old(self).base_node, a).name@;
                    changed_at(
                        old(self).base_node,
                        final(self).base_node,
                        a.drop_last(),
                        |o: Node, n: Node| detached(o, n, name),
                    )
                },
                _ => *final(self) == *old(self),
            },
    {
        let (r, target) = self.plan_removal(path);
        let (addr, name) = match target {
            Some(t) => t,
            None => return r,
        };
        match r {
            Ok(Removal::Dir(_)) | Ok(Removal::File(_)) => {},
            _ => return r,
        }
        let mut parent = addr;
        let ghost a = ints(parent@);
        parent.pop();
        assert(ints(parent@).skip(0) =~= a.drop_last());
        proof {
            assert(a.drop_last() =~= a.subrange(0, a.len() - 1));
            lemma_valid_prefix(self.base_node, a);
        }
        self.base_node.detach_at(&parent, 0, &name);
        r
    }
}

/// Every prefix of a valid address is valid.
pub proof fn lemma_valid_prefix(n: Node, a: Seq<int>)
    requires
        valid_addr(n, a),
        a.len() > 0,
    ensures
        valid_addr(n, a.drop_last()),
    decreases a.len(),
{
    if a.len() > 1 {
        lemma_valid_prefix(n.children@[a[0]], a.drop_first());
        assert(a.drop_last().drop_first() =~= a.drop_first().drop_last());
    } else {
        assert(a.drop_last() =~= seq![]);
    }
}

} // verus!
