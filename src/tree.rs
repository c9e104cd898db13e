use vstd::prelude::*;

use crate::selection::Selection;

verus! {

/// The kind of a filesystem entry mirrored by a node.
#[derive(Clone, Copy, Debug, PartialEq, Eq, Structural)]
pub enum DirType {
    File,
    Dir,
    Symlink,
}

/// One entry of the in-memory mirror: a name, a kind and the children
/// found when the entry was scanned, in enumeration order.
#[derive(Debug)]
pub struct Node {
    pub name: String,
    pub type_: DirType,
    pub children: Vec<Node>,
}

/// One display row: name, kind, depth, whether the node is the last of its
/// siblings, and whether it is effectively selected.
pub type TupleNode = (String, DirType, usize, bool, bool);

/// What a row of the flattened tree says of one node.
pub struct Entry {
    pub path: Seq<char>,
    pub name: Seq<char>,
    pub kind: DirType,
    pub depth: int,
    pub is_last: bool,
    pub selected: bool,
}

/// The path of a child named `name` under a parent whose path is `parent`.
pub open spec fn join_path(parent: Seq<char>, name: Seq<char>) -> Seq<char> {
    parent + seq!['/'] + name
}

/// The character views of a sequence of strings.
pub open spec fn strs(v: Seq<String>) -> Seq<Seq<char>> {
    v.map_values(|s: String| s@)
}

/// Pre-order paths of the subtree of `n`, whose own path is `path`.
pub open spec fn subtree_paths(n: Node, path: Seq<char>) -> Seq<Seq<char>>
    decreases n,
{
    seq![path] + forest_paths(n.children@, path)
}

/// Pre-order paths of the subtrees of `cs`, children of the node at `parent`.
pub open spec fn forest_paths(cs: Seq<Node>, parent: Seq<char>) -> Seq<Seq<char>>
    decreases cs,
{
    if cs.len() == 0 {
        seq![]
    } else {
        forest_paths(cs.drop_last(), parent) + subtree_paths(
            cs.last(),
            join_path(parent, cs.last().name@),
        )
    }
}

/// Pre-order entries of the subtree of `n`: `path` is its path, `depth` its
/// number of ancestors, `is_last` whether it ends its sibling group and
/// `inherited` whether an ancestor is effectively selected in `sel`.
pub open spec fn subtree_entries(
    n: Node,
    path: Seq<char>,
    depth: int,
    is_last: bool,
    inherited: bool,
    sel: Set<Seq<char>>,
) -> Seq<Entry>
    decreases n,
{
    let selected = inherited || sel.contains(path);
    seq![Entry { path, name: n.name@, kind: n.type_, depth, is_last, selected }]
        + forest_entries(n.children@, n.children@.len() as int, path, depth + 1, selected, sel)
}

/// Pre-order entries of the subtrees of `cs`, the first children of a group
/// of `total` siblings under the node at `parent`.
pub open spec fn forest_entries(
    cs: Seq<Node>,
    total: int,
    parent: Seq<char>,
    depth: int,
    inherited: bool,
    sel: Set<Seq<char>>,
) -> Seq<Entry>
    decreases cs,
{
    if cs.len() == 0 {
        seq![]
    } else {
        forest_entries(cs.drop_last(), total, parent, depth, inherited, sel) + subtree_entries(
            cs.last(),
            join_path(parent, cs.last().name@),
            depth,
            cs.len() == total,
            inherited,
            sel,
        )
    }
}

/// The number of levels below `n`: 0 for a node without children.
pub open spec fn height(n: Node) -> nat
    decreases n,
{
    if n.children@.len() == 0 {
        0
    } else {
        1 + forest_height(n.children@)
    }
}

/// The largest height among the nodes of `cs`, 0 if there is none.
pub open spec fn forest_height(cs: Seq<Node>) -> nat
    decreases cs,
{
    if cs.len() == 0 {
        0
    } else {
        let h = height(cs.last());
        let f = forest_height(cs.drop_last());
        if h > f {
            h
        } else {
            f
        }
    }
}

/// No node of `cs` is higher than `forest_height(cs)`.
pub proof fn lemma_child_height(cs: Seq<Node>)
    ensures
        forall|k: int| 0 <= k < cs.len() ==> #[trigger] height(cs[k]) <= forest_height(cs),
    decreases cs.len(),
{
    if cs.len() > 0 {
        lemma_child_height(cs.drop_last());
        assert forall|k: int| 0 <= k < cs.len() implies #[trigger] height(cs[k]) <= forest_height(
            cs,
        ) by {
            if k < cs.len() - 1 {
                assert(cs[k] == cs.drop_last()[k]);
            }
        }
    }
}

/// A bound on every node of `cs` bounds `forest_height(cs)`.
pub proof fn lemma_forest_height_bound(cs: Seq<Node>, m: nat)
    requires
        forall|k: int| 0 <= k < cs.len() ==> #[trigger] height(cs[k]) <= m,
    ensures
        forest_height(cs) <= m,
    decreases cs.len(),
{
    if cs.len() > 0 {
        assert forall|k: int| 0 <= k < cs.len() - 1 implies #[trigger] height(cs.drop_last()[k])
            <= m by {
            assert(cs.drop_last()[k] == cs[k]);
        }
        lemma_forest_height_bound(cs.drop_last(), m);
        assert(height(cs[cs.len() - 1]) <= m);
    }
}

/// The display row of an entry.
pub open spec fn entry_row(e: Entry) -> (Seq<char>, DirType, int, bool, bool) {
    (e.name, e.kind, e.depth, e.is_last, e.selected)
}

/// The display rows of a sequence of entries.
pub open spec fn entry_rows(es: Seq<Entry>) -> Seq<(Seq<char>, DirType, int, bool, bool)> {
    es.map_values(|e: Entry| entry_row(e))
}

/// The abstract rows of a sequence of display tuples.
pub open spec fn rows(v: Seq<TupleNode>) -> Seq<(Seq<char>, DirType, int, bool, bool)> {
    v.map_values(|t: TupleNode| (t.0@, t.1, t.2 as int, t.3, t.4))
}

impl Node {
    /// A node with no children yet.
    pub fn new(name: String, type_: DirType) -> (r: Node)
        ensures
            r.name@ == name@,
            r.type_ == type_,
            r.children@.len() == 0,
    {
        Node { name, type_, children: Vec::new() }
    }

    /// Appends `child` after the existing children.
    pub fn add_child(&mut self, child: Node)
        ensures
            final(self).name == old(self).name,
            final(self).type_ == old(self).type_,
            final(self).children@ == old(self).children@.push(child),
    {
        self.children.push(child);
    }

    /// The path of this node: its name for the root (`parent_path` is
    /// `None`), else the parent's path, a slash and the name.
    pub fn full_path(&self, parent_path: Option<&str>) -> (r: String)
        ensures
            r@ == match parent_path {
                None => self.name@,
                Some(p) => join_path(p@, self.name@),
            },
    {
        match parent_path {
            None => self.name.clone(),
            Some(p) => {
                let mut r = String::from_str(p);
                r.append("/");
                r.append(self.name.as_str());
                proof {
                    reveal_strlit("/");
                }
                r
            },
        }
    }

    /// Appends the pre-order paths of this subtree to `array`; `path` is the
    /// path of this node.
    pub fn to_array(&self, path: &String, array: &mut Vec<String>)
        ensures
            strs(final(array)@) == strs(old(array)@) + subtree_paths(*self, path@),
        decreases self,
    {
        let ghost a0 = strs(array@);
        array.push(path.clone());
        assert(strs(array@) =~= a0 + seq![path@]);
        let n = self.children.len();
        let mut i: usize = 0;
        while i < n
            invariant
                n == self.children@.len(),
                i <= n,
                strs(array@) == a0 + seq![path@] + forest_paths(
                    self.children@.take(i as int),
                    path@,
                ),
            decreases n - i,
        {
            let child = &self.children[i];
            let cp = child.full_path(Some(path.as_str()));
            child.to_array(&cp, array);
            assert(self.children@.take(i + 1).drop_last() =~= self.children@.take(i as int));
            i = i + 1;
        }
        assert(self.children@.take(n as int) =~= self.children@);
    }

    /// Whether this subtree has at most `limit` levels below its root.
    pub fn height_within(&self, limit: usize) -> (r: bool)
        ensures
            r == (height(*self) <= limit),
        decreases self,
    {
        let n = self.children.len();
        if n == 0 {
            return true;
        }
        if limit == 0 {
            return false;
        }
        proof {
            lemma_child_height(self.children@);
        }
        let mut i: usize = 0;
        while i < n
            invariant
                n == self.children@.len(),
                i <= n,
                limit > 0,
                forall|k: int| 0 <= k < i ==> #[trigger] height(self.children@[k]) <= limit - 1,
                forall|k: int|
                    0 <= k < n ==> #[trigger] height(self.children@[k]) <= forest_height(
                        self.children@,
                    ),
            decreases n - i,
        {
            if !self.children[i].height_within(limit - 1) {
                assert(height(self.children@[i as int]) <= forest_height(self.children@));
                return false;
            }
            i = i + 1;
        }
        proof {
            lemma_forest_height_bound(self.children@, (limit - 1) as nat);
        }
        true
    }

    /// Whether this node, at `path`, is effectively selected, given whether
    /// its parent is.
    pub fn is_selected(&self, path: &str, selected: &Selection, parent_selected: bool) -> (r: bool)
        ensures
            r == (parent_selected || selected@.contains(path@)),
    {
        parent_selected || selected.contains(path)
    }

    /// Whether this node's parent is effectively selected: never for the
    /// root (`parent` is `None`); otherwise `parent` gives the parent's path
    /// and whether the parent's own parent is effectively selected.
    pub fn is_parent_selected(&self, parent: Option<(&str, bool)>, selected: &Selection) -> (r:
        bool)
        ensures
            r == match parent {
                None => false,
                Some((p, grand)) => grand || selected@.contains(p@),
            },
    {
        match parent {
            None => false,
            Some((p, grand)) => grand || selected.contains(p),
        }
    }

    /// Appends the display rows of this subtree to `items` in pre-order;
    /// `path`, `depth`, `is_last` and `parent_selected` describe this node.
    pub fn to_enriched_array(
        &self,
        path: &String,
        items: &mut Vec<TupleNode>,
        selected: &Selection,
        depth: usize,
        is_last: bool,
        parent_selected: bool,
    )
        requires
            depth + height(*self) <= usize::MAX,
        ensures
            rows(final(items)@) == rows(old(items)@) + entry_rows(
                subtree_entries(*self, path@, depth as int, is_last, parent_selected, selected@),
            ),
        decreases self,
    {
        let ghost r0 = rows(items@);
        let ghost sel = selected@;
        let is_sel = self.is_selected(path.as_str(), selected, parent_selected);
        items.push((self.name.clone(), self.type_, depth, is_last, is_sel));
        let ghost head = seq![
            Entry {
                path: path@,
                name: self.name@,
                kind: self.type_,
                depth: depth as int,
                is_last,
                selected: is_sel,
            },
        ];
        assert(rows(items@) =~= r0 + entry_rows(head));
        let n = self.children.len();
        proof {
            lemma_child_height(self.children@);
        }
        let ghost child_depth = depth + 1;
        let mut i: usize = 0;
        while i < n
            invariant
                n == self.children@.len(),
                i <= n,
                sel == selected@,
                child_depth == depth + 1,
                depth + height(*self) <= usize::MAX,
                forall|k: int|
                    0 <= k < n ==> #[trigger] height(self.children@[k]) <= forest_height(
                        self.children@,
                    ),
                rows(items@) == r0 + entry_rows(head) + entry_rows(
                    forest_entries(
                        self.children@.take(i as int),
                        n as int,
                        path@,
                        child_depth as int,
                        is_sel,
                        sel,
                    ),
                ),
            decreases n - i,
        {
            let child = &self.children[i];
            let cp = child.full_path(Some(path.as_str()));
            assert(height(*child) <= forest_height(self.children@));
            child.to_enriched_array(&cp, items, selected, depth + 1, i == n - 1, is_sel);
            let ghost taken = self.children@.take(i + 1);
            assert(taken.drop_last() =~= self.children@.take(i as int));
            let ghost fe = forest_entries(taken.drop_last(), n as int, path@, child_depth as int, is_sel, sel);
            let ghost ce = subtree_entries(*child, cp@, child_depth as int, i == n - 1, is_sel, sel);
            assert(entry_rows(fe + ce) =~= entry_rows(fe) + entry_rows(ce));
            i = i + 1;
        }
        assert(self.children@.take(n as int) =~= self.children@);
        assert(entry_rows(
            subtree_entries(*self, path@, depth as int, is_last, parent_selected, selected@),
        ) =~= entry_rows(head) + entry_rows(
            forest_entries(self.children@, n as int, path@, child_depth as int, is_sel, sel),
        ));
    }
}

/// The tree: the root node and everything scanned beneath it.
#[derive(Debug)]
pub struct DirTree {
    pub base_node: Node,
}

impl DirTree {
    /// A tree whose root is an unscanned directory named `path`.
    pub fn new(path: String) -> (r: DirTree)
        ensures
            r.base_node.name@ == path@,
            r.base_node.type_ == DirType::Dir,
            r.base_node.children@.len() == 0,
    {
        DirTree { base_node: Node::new(path, DirType::Dir) }
    }

    /// The paths of all nodes in pre-order, the root first.
    pub open spec fn paths(&self) -> Seq<Seq<char>> {
        subtree_paths(self.base_node, self.base_node.name@)
    }

    /// The entries of all nodes in pre-order under the selection `sel`.
    pub open spec fn entries(&self, sel: Set<Seq<char>>) -> Seq<Entry> {
        subtree_entries(self.base_node, self.base_node.name@, 0, false, false, sel)
    }

    /// The full paths of all nodes in navigation order.
    pub fn to_array(&self) -> (r: Vec<String>)
        ensures
            strs(r@) == self.paths(),
    {
        let mut array: Vec<String> = Vec::new();
        let root = self.base_node.full_path(None);
        self.base_node.to_array(&root, &mut array);
        assert(strs(Seq::<String>::empty()) =~= Seq::<Seq<char>>::empty());
        assert(strs(array@) =~= self.paths());
        array
    }

    /// The display rows of all nodes in navigation order.
    pub fn to_enriched_array(&self, selected: &Selection) -> (r: Vec<TupleNode>)
        requires
            height(self.base_node) <= usize::MAX,
        ensures
            rows(r@) == entry_rows(self.entries(selected@)),
    {
        let mut items: Vec<TupleNode> = Vec::new();
        let root = self.base_node.full_path(None);
        self.base_node.to_enriched_array(&root, &mut items, selected, 0, false, false);
        assert(rows(Seq::<TupleNode>::empty()) =~= Seq::empty());
        assert(rows(items@) =~= entry_rows(self.entries(selected@)));
        items
    }
}

} // verus!
