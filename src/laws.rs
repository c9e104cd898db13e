use vstd::prelude::*;

use crate::tree::{
    forest_entries, forest_paths, join_path, subtree_entries, subtree_paths, DirTree, Node,
};

verus! {

/// The navigation paths and the display entries of a subtree list the same
/// nodes in the same order, whatever the selection: both have one item per
/// node, and the i-th entry carries the i-th path.
pub proof fn lemma_paths_match_entries(
    n: Node,
    path: Seq<char>,
    depth: int,
    is_last: bool,
    inherited: bool,
    sel: Set<Seq<char>>,
)
    ensures
        subtree_paths(n, path).len() == subtree_entries(n, path, depth, is_last, inherited, sel).len(),
        forall|i: int|
            0 <= i < subtree_paths(n, path).len() ==> subtree_paths(n, path)[i] == subtree_entries(
                n,
                path,
                depth,
                is_last,
                inherited,
                sel,
            )[i].path,
    decreases n,
{
    let selected = inherited || sel.contains(path);
    lemma_forest_paths_match_entries(
        n.children@,
        n.children@.len() as int,
        path,
        depth + 1,
        selected,
        sel,
    );
}

/// The forest form of `lemma_paths_match_entries`.
pub proof fn lemma_forest_paths_match_entries(
    cs: Seq<Node>,
    total: int,
    parent: Seq<char>,
    depth: int,
    inherited: bool,
    sel: Set<Seq<char>>,
)
    ensures
        forest_paths(cs, parent).len() == forest_entries(cs, total, parent, depth, inherited, sel).len(),
        forall|i: int|
            0 <= i < forest_paths(cs, parent).len() ==> forest_paths(cs, parent)[i] == forest_entries(
                cs,
                total,
                parent,
                depth,
                inherited,
                sel,
            )[i].path,
    decreases cs,
{
    if cs.len() > 0 {
        let c = cs.last();
        let cp = join_path(parent, c.name@);
        lemma_forest_paths_match_entries(cs.drop_last(), total, parent, depth, inherited, sel);
        lemma_paths_match_entries(c, cp, depth, cs.len() == total, inherited, sel);
    }
}

/// Whether `path` ends with a slash and then `name`.
pub open spec fn ends_with_name(path: Seq<char>, name: Seq<char>) -> bool {
    &&& path.len() > name.len()
    &&& path.subrange(path.len() - name.len() - 1, path.len() as int) == seq!['/'] + name
}

/// Below its first entry, the path of each entry of a subtree ends with a
/// slash and the entry's name; the first entry is the subtree's root.
pub proof fn lemma_entry_paths_end_with_name(
    n: Node,
    path: Seq<char>,
    depth: int,
    is_last: bool,
    inherited: bool,
    sel: Set<Seq<char>>,
)
    ensures
        subtree_entries(n, path, depth, is_last, inherited, sel)[0].path == path,
        subtree_entries(n, path, depth, is_last, inherited, sel)[0].name == n.name@,
        forall|i: int|
            0 < i < subtree_entries(n, path, depth, is_last, inherited, sel).len() ==> {
                let e = #[trigger] subtree_entries(n, path, depth, is_last, inherited, sel)[i];
                ends_with_name(e.path, e.name)
            },
    decreases n,
{
    let selected = inherited || sel.contains(path);
    lemma_forest_paths_end_with_name(n.children@, n.children@.len() as int, path, depth + 1, selected, sel);
    let es = subtree_entries(n, path, depth, is_last, inherited, sel);
    let fe = forest_entries(n.children@, n.children@.len() as int, path, depth + 1, selected, sel);
    assert forall|i: int| 0 < i < es.len() implies {
        let e = #[trigger] es[i];
        ends_with_name(e.path, e.name)
    } by {
        assert(es[i] == fe[i - 1]);
    }
}

/// The forest form of `lemma_entry_paths_end_with_name`: every entry's path
/// ends with a slash and its name.
pub proof fn lemma_forest_paths_end_with_name(
    cs: Seq<Node>,
    total: int,
    parent: Seq<char>,
    depth: int,
    inherited: bool,
    sel: Set<Seq<char>>,
)
    ensures
        forall|i: int|
            0 <= i < forest_entries(cs, total, parent, depth, inherited, sel).len() ==> {
                let e = #[trigger] forest_entries(cs, total, parent, depth, inherited, sel)[i];
                ends_with_name(e.path, e.name)
            },
    decreases cs,
{
    if cs.len() > 0 {
        let c = cs.last();
        let cp = join_path(parent, c.name@);
        lemma_forest_paths_end_with_name(cs.drop_last(), total, parent, depth, inherited, sel);
        lemma_entry_paths_end_with_name(c, cp, depth, cs.len() == total, inherited, sel);
        let es = forest_entries(cs, total, parent, depth, inherited, sel);
        let front = forest_entries(cs.drop_last(), total, parent, depth, inherited, sel);
        let back = subtree_entries(c, cp, depth, cs.len() == total, inherited, sel);
        assert(es == front + back);
        assert forall|i: int| 0 <= i < es.len() implies {
            let e = #[trigger] es[i];
            ends_with_name(e.path, e.name)
        } by {
            if i < front.len() {
                assert(es[i] == front[i]);
            } else {
                assert(es[i] == back[i - front.len()]);
                if i == front.len() {
                    assert(cp.subrange(cp.len() - c.name@.len() - 1, cp.len() as int) =~= seq!['/']
                        + c.name@);
                }
            }
        }
    }
}

/// For the whole tree: `to_array` and `to_enriched_array` have the same
/// length under any selection, and their rows at one index describe one
/// node: the row's path is the listed path, the first row is the root, and
/// every later listed path ends with a slash and the row's name.
pub proof fn lemma_tree_paths_match_entries(t: DirTree, sel: Set<Seq<char>>)
    ensures
        t.paths().len() == t.entries(sel).len(),
        forall|i: int| 0 <= i < t.paths().len() ==> t.paths()[i] == t.entries(sel)[i].path,
        t.paths()[0] == t.base_node.name@,
        t.entries(sel)[0].name == t.base_node.name@,
        forall|i: int|
            0 < i < t.paths().len() ==> ends_with_name(
                #[trigger] t.paths()[i],
                t.entries(sel)[i].name,
            ),
{
    lemma_paths_match_entries(t.base_node, t.base_node.name@, 0, false, false, sel);
    lemma_entry_paths_end_with_name(t.base_node, t.base_node.name@, 0, false, false, sel);
    assert forall|i: int| 0 < i < t.paths().len() implies ends_with_name(
        #[trigger] t.paths()[i],
        t.entries(sel)[i].name,
    ) by {
        let e = t.entries(sel)[i];
        assert(ends_with_name(e.path, e.name));
    }
}

/// Selection is inherited downwards: when a node is explicitly selected, or
/// an ancestor is effectively selected, every entry of its subtree is
/// effectively selected, whether or not its own path is in the selection.
pub proof fn lemma_selection_inherited(
    n: Node,
    path: Seq<char>,
    depth: int,
    is_last: bool,
    inherited: bool,
    sel: Set<Seq<char>>,
)
    requires
        inherited || sel.contains(path),
    ensures
        forall|i: int|
            0 <= i < subtree_entries(n, path, depth, is_last, inherited, sel).len()
                ==> #[trigger] subtree_entries(n, path, depth, is_last, inherited, sel)[i].selected,
    decreases n,
{
    lemma_forest_selection_inherited(
        n.children@,
        n.children@.len() as int,
        path,
        depth + 1,
        sel,
    );
}

/// The forest form of `lemma_selection_inherited`.
pub proof fn lemma_forest_selection_inherited(
    cs: Seq<Node>,
    total: int,
    parent: Seq<char>,
    depth: int,
    sel: Set<Seq<char>>,
)
    ensures
        forall|i: int|
            0 <= i < forest_entries(cs, total, parent, depth, true, sel).len()
                ==> #[trigger] forest_entries(cs, total, parent, depth, true, sel)[i].selected,
    decreases cs,
{
    if cs.len() > 0 {
        let c = cs.last();
        lemma_forest_selection_inherited(cs.drop_last(), total, parent, depth, sel);
        lemma_selection_inherited(c, join_path(parent, c.name@), depth, cs.len() == total, true, sel);
    }
}

/// The first entry of a subtree is its root, with the depth and flag it was
/// given; every later entry lies deeper.
pub proof fn lemma_subtree_depths(
    n: Node,
    path: Seq<char>,
    depth: int,
    is_last: bool,
    inherited: bool,
    sel: Set<Seq<char>>,
)
    ensures
        subtree_entries(n, path, depth, is_last, inherited, sel).len() > 0,
        subtree_entries(n, path, depth, is_last, inherited, sel)[0].depth == depth,
        subtree_entries(n, path, depth, is_last, inherited, sel)[0].is_last == is_last,
        forall|i: int|
            0 < i < subtree_entries(n, path, depth, is_last, inherited, sel).len()
                ==> #[trigger] subtree_entries(n, path, depth, is_last, inherited, sel)[i].depth
                > depth,
    decreases n,
{
    let selected = inherited || sel.contains(path);
    lemma_forest_depths(n.children@, n.children@.len() as int, path, depth + 1, selected, sel);
}

/// Every entry of a forest lies at least at the forest's depth.
pub proof fn lemma_forest_depths(
    cs: Seq<Node>,
    total: int,
    parent: Seq<char>,
    depth: int,
    inherited: bool,
    sel: Set<Seq<char>>,
)
    ensures
        forall|i: int|
            0 <= i < forest_entries(cs, total, parent, depth, inherited, sel).len()
                ==> #[trigger] forest_entries(cs, total, parent, depth, inherited, sel)[i].depth
                >= depth,
    decreases cs,
{
    if cs.len() > 0 {
        let c = cs.last();
        lemma_forest_depths(cs.drop_last(), total, parent, depth, inherited, sel);
        lemma_subtree_depths(c, join_path(parent, c.name@), depth, cs.len() == total, inherited, sel);
    }
}

/// Whether no entry of `es` after index `i` lies at depth `depth`.
pub open spec fn none_later_at(es: Seq<crate::tree::Entry>, i: int, depth: int) -> bool {
    forall|j: int| i < j < es.len() ==> #[trigger] es[j].depth != depth
}

/// The forest form of `lemma_last_sibling`, for the first `cs.len()` of
/// `total` siblings.
pub proof fn lemma_forest_last_sibling(
    cs: Seq<Node>,
    total: int,
    parent: Seq<char>,
    depth: int,
    inherited: bool,
    sel: Set<Seq<char>>,
)
    requires
        cs.len() <= total,
    ensures
        ({
            let es = forest_entries(cs, total, parent, depth, inherited, sel);
            &&& forall|i: int|
                0 <= i < es.len() && #[trigger] es[i].depth == depth ==> (es[i].is_last <==> (
                cs.len() == total && none_later_at(es, i, depth)))
            &&& cs.len() > 0 ==> exists|i: int|
                0 <= i < es.len() && #[trigger] es[i].depth == depth && none_later_at(es, i, depth)
        }),
    decreases cs,
{
    if cs.len() > 0 {
        let c = cs.last();
        let es = forest_entries(cs, total, parent, depth, inherited, sel);
        let front = forest_entries(cs.drop_last(), total, parent, depth, inherited, sel);
        let back = subtree_entries(c, join_path(parent, c.name@), depth, cs.len() == total, inherited, sel);
        lemma_forest_last_sibling(cs.drop_last(), total, parent, depth, inherited, sel);
        lemma_subtree_depths(c, join_path(parent, c.name@), depth, cs.len() == total, inherited, sel);
        assert(es == front + back);
        let f = front.len() as int;
        assert(es[f] == back[0]);
        assert(none_later_at(es, f, depth)) by {
            assert forall|j: int| f < j < es.len() implies #[trigger] es[j].depth != depth by {
                assert(es[j] == back[j - f]);
            }
        }
        assert forall|i: int|
            0 <= i < es.len() && #[trigger] es[i].depth == depth implies (es[i].is_last <==> (
            cs.len() == total && none_later_at(es, i, depth))) by {
            if i < f {
                assert(es[i] == front[i]);
                assert(!none_later_at(es, i, depth)) by {
                    assert(es[f].depth == depth);
                }
            } else if i > f {
                assert(es[i] == back[i - f]);
            }
        }
    }
}

/// Within each sibling group the last child, and only it, is flagged as
/// last: among the entries of a node's subtree, those one level deeper than
/// the node are its children; each is flagged last exactly when no child
/// follows it, and if the node has children one of them is flagged.
pub proof fn lemma_last_sibling(
    n: Node,
    path: Seq<char>,
    depth: int,
    is_last: bool,
    inherited: bool,
    sel: Set<Seq<char>>,
)
    ensures
        ({
            let es = subtree_entries(n, path, depth, is_last, inherited, sel);
            &&& forall|i: int|
                0 <= i < es.len() && #[trigger] es[i].depth == depth + 1 ==> (es[i].is_last
                    <==> none_later_at(es, i, depth + 1))
            &&& n.children@.len() > 0 ==> exists|i: int|
                0 <= i < es.len() && #[trigger] es[i].depth == depth + 1 && es[i].is_last
        }),
{
    let selected = inherited || sel.contains(path);
    let es = subtree_entries(n, path, depth, is_last, inherited, sel);
    let fe = forest_entries(n.children@, n.children@.len() as int, path, depth + 1, selected, sel);
    lemma_forest_last_sibling(n.children@, n.children@.len() as int, path, depth + 1, selected, sel);
    assert(es.len() == fe.len() + 1);
    assert forall|i: int| 0 < i < es.len() implies #[trigger] es[i] == fe[i - 1] by {}
    assert forall|i: int|
        0 <= i < es.len() && #[trigger] es[i].depth == depth + 1 implies (es[i].is_last
            <==> none_later_at(es, i, depth + 1)) by {
        assert(i > 0);
        assert(es[i] == fe[i - 1]);
        if none_later_at(fe, i - 1, depth + 1) {
            assert forall|j: int| i < j < es.len() implies #[trigger] es[j].depth != depth + 1 by {
                assert(es[j] == fe[j - 1]);
            }
        }
        if none_later_at(es, i, depth + 1) {
            assert forall|j: int| i - 1 < j < fe.len() implies #[trigger] fe[j].depth != depth + 1 by {
                assert(es[j + 1] == fe[j]);
            }
        }
    }
    if n.children@.len() > 0 {
        let k = choose|k: int|
            0 <= k < fe.len() && #[trigger] fe[k].depth == depth + 1 && none_later_at(fe, k, depth + 1);
        assert(es[k + 1] == fe[k]);
        assert(es[k + 1].is_last);
    }
}

} // verus!
