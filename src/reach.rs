use vstd::prelude::*;

use crate::edit::{changed_at, detached, other_name, removal_of, Removal, TreeError};
use crate::lookup::{
    find_named, lemma_find_named_range, lemma_seg_len, lookup_addr, node_at, path_at, seg_len,
    strip_dot, valid_addr, walk,
};
use crate::tree::{forest_paths, join_path, subtree_paths, DirTree, Node};

verus! {

/// Names that paths can tell apart: below `n`, no name holds a slash and
/// no two siblings share a name.
pub open spec fn names_ok(n: Node) -> bool
    decreases n,
{
    forall|i: int|
        0 <= i < n.children@.len() ==> {
            &&& !(#[trigger] n.children@[i]).name@.contains('/')
            &&& forall|k: int|
                0 <= k < n.children@.len() && k != i ==> n.children@[k].name@
                    != n.children@[i].name@
            &&& names_ok(n.children@[i])
        }
}

/// The names on the way from `n` down to the node at address `a`, joined
/// by slashes.
pub open spec fn rel_path(n: Node, a: Seq<int>) -> Seq<char>
    decreases a.len(),
{
    if a.len() == 0 || !(0 <= a[0] < n.children@.len()) {
        seq![]
    } else if a.len() == 1 {
        n.children@[a[0]].name@
    } else {
        let c = n.children@[a[0]];
        c.name@ + seq!['/'] + rel_path(c, a.drop_first())
    }
}

/// The path of a node is its name for the root, and for a child its
/// parent's path, a slash and its own name.
pub proof fn lemma_path_of_child(n: Node, p: Seq<char>, a: Seq<int>, j: int)
    requires
        valid_addr(n, a),
        0 <= j < node_at(n, a).children@.len(),
    ensures
        path_at(n, p, seq![]) == p,
        path_at(n, p, a.push(j)) == join_path(path_at(n, p, a), node_at(n, a).children@[j].name@),
    decreases a.len(),
{
    if a.len() == 0 {
        let c = n.children@[j];
        assert(a.push(j).drop_first() =~= seq![]);
        assert(path_at(c, join_path(p, c.name@), seq![]) == join_path(p, c.name@));
    } else {
        let c = n.children@[a[0]];
        lemma_path_of_child(c, join_path(p, c.name@), a.drop_first(), j);
        assert(a.push(j).drop_first() =~= a.drop_first().push(j));
        assert(a.push(j)[0] == a[0]);
    }
}

/// The only child with a name that no sibling shares is found by that name.
proof fn lemma_find_unique(cs: Seq<Node>, j: int, t: int)
    requires
        0 <= t <= j < cs.len(),
        forall|k: int| 0 <= k < cs.len() && k != j ==> cs[k].name@ != cs[j].name@,
    ensures
        find_named(cs, cs[j].name@, t) == Some(j),
    decreases j - t,
{
    if t < j {
        lemma_find_unique(cs, j, t + 1);
    }
}

/// A string without a slash is one whole segment.
proof fn lemma_seg_whole(name: Seq<char>, rest: Seq<char>)
    requires
        !name.contains('/'),
    ensures
        seg_len(name) == name.len(),
        seg_len(name + seq!['/'] + rest) == name.len(),
{
    lemma_seg_len(name);
    if seg_len(name) < name.len() {
        assert(name.contains(name[seg_len(name) as int]));
    }
    let s = name + seq!['/'] + rest;
    lemma_seg_len(s);
    if seg_len(s) < name.len() {
        assert(s[seg_len(s) as int] == name[seg_len(s) as int]);
        assert(name.contains(name[seg_len(s) as int]));
    }
    if seg_len(s) > name.len() {
        assert(s[name.len() as int] == '/');
    }
}

/// Walking the names on the way to a node reaches that node, and the
/// node's path is the path of `n` followed by those names.
pub proof fn lemma_walk_rel_path(n: Node, p: Seq<char>, a: Seq<int>)
    requires
        names_ok(n),
        valid_addr(n, a),
        a.len() > 0,
    ensures
        walk(n, rel_path(n, a)) == Some(a),
        path_at(n, p, a) == join_path(p, rel_path(n, a)),
    decreases a.len(),
{
    let j = a[0];
    let cs = n.children@;
    let c = cs[j];
    let s = rel_path(n, a);
    assert(!c.name@.contains('/'));
    lemma_find_unique(cs, j, 0);
    if a.len() == 1 {
        lemma_seg_whole(c.name@, seq![]);
        assert(s.subrange(0, s.len() as int) =~= s);
        assert(a =~= seq![j]);
        assert(a.drop_first() =~= seq![]);
        assert(path_at(c, join_path(p, c.name@), seq![]) == join_path(p, c.name@));
    } else {
        let rest = a.drop_first();
        let r = rel_path(c, rest);
        lemma_walk_rel_path(c, join_path(p, c.name@), rest);
        lemma_seg_whole(c.name@, r);
        let k = c.name@.len();
        assert(s.subrange(0, k as int) =~= c.name@);
        assert(s.subrange(k as int + 1, s.len() as int) =~= r);
        assert(seq![j] + rest =~= a);
        assert(join_path(join_path(p, c.name@), r) =~= join_path(p, s));
    }
}

/// Every node reachable from a root named "." is found again by its own
/// path, provided no name holds a slash and siblings have distinct names.
pub proof fn lemma_lookup_full_path(t: DirTree, a: Seq<int>)
    requires
        t.base_node.name@ == seq!['.'],
        names_ok(t.base_node),
        valid_addr(t.base_node, a),
    ensures
        t.lookup(path_at(t.base_node, t.base_node.name@, a)) == Some(node_at(t.base_node, a)),
{
    let root = t.base_node;
    let p = path_at(root, root.name@, a);
    if a.len() > 0 {
        lemma_walk_rel_path(root, root.name@, a);
        let r = rel_path(root, a);
        assert(p.len() >= 2 && p[0] == '.' && p[1] == '/');
        assert(p != seq!['.']);
        assert(strip_dot(p) =~= r);
    }
}

/// `walk` returns no empty address.
proof fn lemma_walk_nonempty(n: Node, s: Seq<char>)
    ensures
        walk(n, s) matches Some(a) ==> a.len() > 0,
{
}

/// `find_named` depends on the names of the nodes alone.
proof fn lemma_find_same_names(cs: Seq<Node>, ds: Seq<Node>, nm: Seq<char>, t: int)
    requires
        cs.len() == ds.len(),
        forall|i: int| 0 <= i < cs.len() ==> #[trigger] cs[i].name@ == ds[i].name@,
    ensures
        find_named(cs, nm, t) == find_named(ds, nm, t),
    decreases cs.len() - t,
{
    if 0 <= t < cs.len() {
        lemma_find_same_names(cs, ds, nm, t + 1);
    }
}

/// After the children named like the walked node are detached from its
/// parent, the same walk finds nothing.
proof fn lemma_walk_after_detach(old: Node, new: Node, s: Seq<char>, a: Seq<int>)
    requires
        walk(old, s) == Some(a),
        changed_at(
            old,
            new,
            a.drop_last(),
            |o: Node, n: Node| detached(o, n, node_at(old, a).name@),
        ),
    ensures
        walk(new, s) is None,
    decreases s.len(),
{
    let k = seg_len(s);
    let seg = s.subrange(0, k as int);
    lemma_find_named_range(old.children@, seg, 0);
    let j = find_named(old.children@, seg, 0)->Some_0;
    let c = old.children@[j];
    if k >= s.len() {
        assert(a == seq![j]);
        assert(a.drop_last() =~= seq![]);
        assert(a.drop_first() =~= seq![]);
        assert(node_at(c, a.drop_first()) == c);
        assert(node_at(old, a) == c);
        let keep = other_name(node_at(old, a).name@);
        assert(detached(old, new, node_at(old, a).name@));
        assert(new.children@ == old.children@.filter(keep));
        lemma_find_named_range(new.children@, seg, 0);
        if let Some(i) = find_named(new.children@, seg, 0) {
            old.children@.lemma_filter_pred(keep, i);
        }
    } else {
        let rest = s.subrange(k as int + 1, s.len() as int);
        let b = walk(c, rest)->Some_0;
        lemma_walk_nonempty(c, rest);
        assert(a == seq![j] + b);
        assert(a.drop_last() =~= seq![j] + b.drop_last());
        assert(a.drop_last()[0] == j);
        assert(a.drop_last().drop_first() =~= b.drop_last());
        assert(a.drop_first() =~= b);
        assert(node_at(old, a) == node_at(c, b));
        let nc = new.children@[j];
        let step = |o: Node, n: Node| detached(o, n, node_at(old, a).name@);
        assert(changed_at(c, nc, b.drop_last(), step));
        if b.drop_last().len() > 0 {
            assert(nc.name == c.name);
        } else {
            assert(step(c, nc));
            assert(nc.name == c.name);
        }
        assert forall|i: int| 0 <= i < old.children@.len() implies #[trigger] old.children@[i].name@
            == new.children@[i].name@ by {
            if i != j {
                assert(new.children@[i] == old.children@[i]);
            }
        }
        lemma_find_same_names(old.children@, new.children@, seg, 0);
        lemma_walk_after_detach(c, nc, rest, b);
    }
}

/// Once `remove_node` has detached a node, its path resolves to nothing.
pub proof fn lemma_removed_path_unresolved(
    before: DirTree,
    after: DirTree,
    path: Seq<char>,
    r: Result<Removal, TreeError>,
)
    requires
        removal_of(before.base_node, path, r),
        r matches Ok(Removal::Dir(_)) || r matches Ok(Removal::File(_)),
        ({
            let a = lookup_addr(before.base_node, path)->Some_0;
            changed_at(
                before.base_node,
                after.base_node,
                a.drop_last(),
                |o: Node, n: Node| detached(o, n, node_at(before.base_node, a).name@),
            )
        }),
    ensures
        after.lookup(path) is None,
{
    let a = lookup_addr(before.base_node, path)->Some_0;
    assert(a.len() > 0);
    assert(path != seq!['.']);
    lemma_walk_after_detach(before.base_node, after.base_node, strip_dot(path), a);
}

/// Whether `q` is the path of a node below `n`, whose own path is `p`.
pub open spec fn is_node_path(n: Node, p: Seq<char>, q: Seq<char>) -> bool {
    exists|b: Seq<int>| valid_addr(n, b) && q == #[trigger] path_at(n, p, b)
}

/// Every path in the pre-order listing of a subtree is the path of a node
/// of that subtree.
pub proof fn lemma_listed_paths_are_nodes(n: Node, p: Seq<char>)
    ensures
        forall|i: int|
            0 <= i < subtree_paths(n, p).len() ==> is_node_path(
                n,
                p,
                #[trigger] subtree_paths(n, p)[i],
            ),
    decreases n,
{
    let cs = n.children@;
    let sp = subtree_paths(n, p);
    let fp = forest_paths(cs, p);
    lemma_forest_listed(cs, p);
    assert forall|i: int| 0 <= i < sp.len() implies is_node_path(n, p, #[trigger] sp[i]) by {
        if i == 0 {
            assert(valid_addr(n, seq![]) && sp[0] == path_at(n, p, seq![]));
        } else {
            assert(sp[i] == fp[i - 1]);
            assert(path_in_forest(cs, p, fp[i - 1]));
            let (j, b) = choose|j: int, b: Seq<int>|
                0 <= j < cs.len() && valid_addr(cs[j], b) && fp[i - 1] == #[trigger] path_at(
                    cs[j],
                    join_path(p, cs[j].name@),
                    b,
                );
            let a = seq![j] + b;
            assert(a.drop_first() =~= b);
            assert(a[0] == j);
            assert(valid_addr(n, a) && sp[i] == path_at(n, p, a));
        }
    }
}

/// Whether `q` is the path of a node below one of `cs`, children of the
/// node at `p`.
pub open spec fn path_in_forest(cs: Seq<Node>, p: Seq<char>, q: Seq<char>) -> bool {
    exists|j: int, b: Seq<int>|
        0 <= j < cs.len() && valid_addr(cs[j], b) && q == #[trigger] path_at(
            cs[j],
            join_path(p, cs[j].name@),
            b,
        )
}

/// The forest form of `lemma_listed_paths_are_nodes`.
proof fn lemma_forest_listed(cs: Seq<Node>, p: Seq<char>)
    ensures
        forall|i: int|
            0 <= i < forest_paths(cs, p).len() ==> path_in_forest(
                cs,
                p,
                #[trigger] forest_paths(cs, p)[i],
            ),
    decreases cs,
{
    if cs.len() > 0 {
        let c = cs.last();
        let front = forest_paths(cs.drop_last(), p);
        let back = subtree_paths(c, join_path(p, c.name@));
        lemma_forest_listed(cs.drop_last(), p);
        lemma_listed_paths_are_nodes(c, join_path(p, c.name@));
        let fp = forest_paths(cs, p);
        assert(fp == front + back);
        assert forall|i: int| 0 <= i < fp.len() implies path_in_forest(cs, p, #[trigger] fp[i]) by {
            if i < front.len() {
                assert(fp[i] == front[i]);
                assert(path_in_forest(cs.drop_last(), p, front[i]));
                let (j, b) = choose|j: int, b: Seq<int>|
                    0 <= j < cs.drop_last().len() && valid_addr(cs.drop_last()[j], b) && front[i]
                        == #[trigger] path_at(
                        cs.drop_last()[j],
                        join_path(p, cs.drop_last()[j].name@),
                        b,
                    );
                assert(cs.drop_last()[j] == cs[j]);
                assert(0 <= j < cs.len() && valid_addr(cs[j], b) && fp[i] == path_at(
                    cs[j],
                    join_path(p, cs[j].name@),
                    b,
                ));
            } else {
                let k = i - front.len();
                assert(fp[i] == back[k]);
                assert(is_node_path(c, join_path(p, c.name@), back[k]));
                let b = choose|b: Seq<int>|
                    valid_addr(c, b) && back[k] == #[trigger] path_at(c, join_path(p, c.name@), b);
                let j = cs.len() - 1;
                assert(cs[j] == c);
                assert(0 <= j < cs.len() && valid_addr(cs[j], b) && fp[i] == path_at(
                    cs[j],
                    join_path(p, cs[j].name@),
                    b,
                ));
            }
        }
    }
}

/// Filtering keeps sibling names distinct.
proof fn lemma_filter_distinct_names(cs: Seq<Node>, keep: spec_fn(Node) -> bool)
    requires
        forall|i: int, k: int|
            0 <= i < cs.len() && 0 <= k < cs.len() && i != k ==> cs[i].name@ != cs[k].name@,
    ensures
        forall|i: int, k: int|
            0 <= i < cs.filter(keep).len() && 0 <= k < cs.filter(keep).len() && i != k
                ==> cs.filter(keep)[i].name@ != cs.filter(keep)[k].name@,
    decreases cs.len(),
{
    reveal(Seq::filter);
    if cs.len() > 0 {
        let rest = cs.drop_last();
        let fr = rest.filter(keep);
        lemma_filter_distinct_names(rest, keep);
        if keep(cs.last()) {
            let out = cs.filter(keep);
            assert(out == fr.push(cs.last()));
            assert forall|i: int| 0 <= i < fr.len() implies #[trigger] fr[i].name@ != cs.last().name@ by {
                assert(fr.contains(fr[i]));
                rest.lemma_filter_contains_rev(keep, fr[i]);
                let m = choose|m: int| 0 <= m < rest.len() && rest[m] == fr[i];
                assert(cs[m] == rest[m]);
            }
            assert forall|i: int, k: int|
                0 <= i < out.len() && 0 <= k < out.len() && i != k implies out[i].name@
                != out[k].name@ by {
                if i < fr.len() && k < fr.len() {
                    assert(out[i] == fr[i] && out[k] == fr[k]);
                } else if i < fr.len() {
                    assert(out[i] == fr[i]);
                } else if k < fr.len() {
                    assert(out[k] == fr[k]);
                }
            }
        }
    }
}

/// Detaching children keeps names that paths can tell apart.
proof fn lemma_detach_keeps_names_ok(old: Node, new: Node, a: Seq<int>, name: Seq<char>)
    requires
        names_ok(old),
        changed_at(old, new, a, |o: Node, n: Node| detached(o, n, name)),
    ensures
        names_ok(new),
    decreases a.len(),
{
    let ocs = old.children@;
    let ncs = new.children@;
    if a.len() == 0 {
        let keep = other_name(name);
        assert(detached(old, new, name));
        assert(ncs == ocs.filter(keep));
        assert forall|i: int, k: int|
            0 <= i < ocs.len() && 0 <= k < ocs.len() && i != k implies ocs[i].name@
            != ocs[k].name@ by {
            assert(names_ok(old));
            assert(ocs[k].name@ != ocs[i].name@);
        }
        lemma_filter_distinct_names(ocs, keep);
        assert forall|i: int| 0 <= i < ncs.len() implies {
            &&& !(#[trigger] ncs[i]).name@.contains('/')
            &&& forall|k: int| 0 <= k < ncs.len() && k != i ==> ncs[k].name@ != ncs[i].name@
            &&& names_ok(ncs[i])
        } by {
            assert(ncs.contains(ncs[i]));
            ocs.lemma_filter_contains_rev(keep, ncs[i]);
            let m = choose|m: int| 0 <= m < ocs.len() && ocs[m] == ncs[i];
            assert(!ocs[m].name@.contains('/'));
        }
    } else {
        let j = a[0];
        lemma_detach_keeps_names_ok(ocs[j], ncs[j], a.drop_first(), name);
        let step = |o: Node, n: Node| detached(o, n, name);
        assert(changed_at(ocs[j], ncs[j], a.drop_first(), step));
        assert(ncs[j].name == ocs[j].name) by {
            if a.drop_first().len() == 0 {
                assert(step(ocs[j], ncs[j]));
            }
        }
        assert forall|i: int| 0 <= i < ncs.len() implies #[trigger] ncs[i].name@ == ocs[i].name@ by {
            if i != j {
                assert(ncs[i] == ocs[i]);
            }
        }
        assert forall|i: int| 0 <= i < ncs.len() implies {
            &&& !(#[trigger] ncs[i]).name@.contains('/')
            &&& forall|k: int| 0 <= k < ncs.len() && k != i ==> ncs[k].name@ != ncs[i].name@
            &&& names_ok(ncs[i])
        } by {
            assert(ncs[i].name@ == ocs[i].name@);
            assert(!ocs[i].name@.contains('/'));
            assert forall|k: int| 0 <= k < ncs.len() && k != i implies ncs[k].name@
                != ncs[i].name@ by {
                assert(ncs[k].name@ == ocs[k].name@);
            }
            if i != j {
                assert(ncs[i] == ocs[i]);
            }
        }
    }
}

/// A walk that goes through `s` and on resolves `s` itself.
proof fn lemma_walk_prefix(n: Node, s: Seq<char>, r: Seq<char>)
    requires
        walk(n, s + seq!['/'] + r) is Some,
    ensures
        walk(n, s) is Some,
    decreases s.len(),
{
    let t = s + seq!['/'] + r;
    lemma_seg_len(s);
    lemma_seg_len(t);
    let k = seg_len(t);
    if seg_len(s) < s.len() {
        assert(t[seg_len(s) as int] == '/');
    }
    if k < seg_len(s) {
        assert(t[k as int] == s[k as int]);
    }
    if seg_len(s) == s.len() {
        if k > s.len() {
            assert(t[s.len() as int] == '/');
        }
    }
    assert(k == seg_len(s));
    assert(t.subrange(0, k as int) =~= s.subrange(0, k as int));
    let j = find_named(n.children@, s.subrange(0, k as int), 0)->Some_0;
    if k < s.len() {
        let rest = s.subrange(k as int + 1, s.len() as int);
        assert(t.subrange(k as int + 1, t.len() as int) =~= rest + seq!['/'] + r);
        lemma_walk_prefix(n.children@[j], rest, r);
    }
}

/// Once `remove_node` has detached a node from a tree whose root is "." and
/// whose names paths can tell apart, no listed path is the removed path or
/// lies below it.
pub proof fn lemma_removed_paths_unlisted(
    before: DirTree,
    after: DirTree,
    path: Seq<char>,
    r: Result<Removal, TreeError>,
)
    requires
        before.base_node.name@ == seq!['.'],
        names_ok(before.base_node),
        removal_of(before.base_node, path, r),
        r matches Ok(Removal::Dir(_)) || r matches Ok(Removal::File(_)),
        ({
            let a = lookup_addr(before.base_node, path)->Some_0;
            changed_at(
                before.base_node,
                after.base_node,
                a.drop_last(),
                |o: Node, n: Node| detached(o, n, node_at(before.base_node, a).name@),
            )
        }),
    ensures
        !after.paths().contains(path),
        forall|rest: Seq<char>| !after.paths().contains(#[trigger] (path + seq!['/'] + rest)),
{
    let a = lookup_addr(before.base_node, path)->Some_0;
    let root = after.base_node;
    lemma_removed_path_unresolved(before, after, path, r);
    lemma_detach_keeps_names_ok(
        before.base_node,
        root,
        a.drop_last(),
        node_at(before.base_node, a).name@,
    );
    assert(root.name == before.base_node.name) by {
        let step = |o: Node, n: Node| detached(o, n, node_at(before.base_node, a).name@);
        if a.drop_last().len() == 0 {
            assert(step(before.base_node, root));
        }
    }
    lemma_listed_paths_are_nodes(root, root.name@);
    assert(path != seq!['.']);
    assert forall|q: Seq<char>| after.paths().contains(q) implies after.lookup(q) is Some by {
        let i = choose|i: int| 0 <= i < after.paths().len() && after.paths()[i] == q;
        assert(is_node_path(root, root.name@, after.paths()[i]));
        let b = choose|b: Seq<int>|
            valid_addr(root, b) && after.paths()[i] == #[trigger] path_at(root, root.name@, b);
        lemma_lookup_full_path(after, b);
    }
    assert forall|rest: Seq<char>| !after.paths().contains(#[trigger] (path + seq!['/'] + rest)) by {
        let q = path + seq!['/'] + rest;
        if after.paths().contains(q) {
            let i = choose|i: int| 0 <= i < after.paths().len() && after.paths()[i] == q;
            assert(is_node_path(root, root.name@, after.paths()[i]));
            let b = choose|b: Seq<int>|
                valid_addr(root, b) && after.paths()[i] == #[trigger] path_at(root, root.name@, b);
            lemma_lookup_full_path(after, b);
            if b.len() == 0 {
                assert(q.len() > 1);
            } else {
                lemma_walk_rel_path(root, root.name@, b);
                assert(q[0] == '.' && q[1] == '/');
            }
            assert(q != seq!['.']) by {
                assert(q.len() > path.len());
                if path.len() == 0 {
                    assert(q[0] == '/');
                }
            }
            if path.len() >= 2 {
                assert(path[0] == q[0] && path[1] == q[1]);
                assert(strip_dot(q) =~= strip_dot(path) + seq!['/'] + rest);
            } else if path.len() == 1 {
                assert(path[0] == q[0]);
                assert(path =~= seq!['.']);
            } else {
                assert(q[0] == '/');
            }
            lemma_walk_prefix(root, strip_dot(path), rest);
        }
    }
}

} // verus!
