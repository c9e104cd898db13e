use vstd::prelude::*;

use crate::tree::{join_path, DirTree, Node};

verus! {

/// The number of characters before the first slash of `s` (all of them if
/// there is none).
pub open spec fn seg_len(s: Seq<char>) -> nat
    decreases s.len(),
{
    if s.len() == 0 || s[0] == '/' {
        0
    } else {
        1 + seg_len(s.drop_first())
    }
}

/// The index of the first node of `cs`, from index `j` on, named `name`.
pub open spec fn find_named(cs: Seq<Node>, name: Seq<char>, j: int) -> Option<int>
    decreases cs.len() - j,
{
    if j < 0 || j >= cs.len() {
        None
    } else if cs[j].name@ == name {
        Some(j)
    } else {
        find_named(cs, name, j + 1)
    }
}

/// The address, as child indices from `n`, reached by resolving the
/// slash-separated names of `s` one by one.
pub open spec fn walk(n: Node, s: Seq<char>) -> Option<Seq<int>>
    decreases s.len(),
{
    let k = seg_len(s);
    match find_named(n.children@, s.subrange(0, k as int), 0) {
        None => None,
        Some(j) => if k >= s.len() {
            Some(seq![j])
        } else {
            match walk(n.children@[j], s.subrange(k as int + 1, s.len() as int)) {
                None => None,
                Some(a) => Some(seq![j] + a),
            }
        },
    }
}

/// The node at address `a` below `n`.
pub open spec fn node_at(n: Node, a: Seq<int>) -> Node
    decreases a.len(),
{
    if a.len() == 0 {
        n
    } else if 0 <= a[0] < n.children@.len() {
        node_at(n.children@[a[0]], a.drop_first())
    } else {
        n
    }
}

/// Whether each index of `a` names an existing child on the way down from `n`.
pub open spec fn valid_addr(n: Node, a: Seq<int>) -> bool
    decreases a.len(),
{
    a.len() == 0 || (0 <= a[0] < n.children@.len() && valid_addr(
        n.children@[a[0]],
        a.drop_first(),
    ))
}

/// The indices of an exec address as integers.
pub open spec fn ints(v: Seq<usize>) -> Seq<int> {
    v.map_values(|x: usize| x as int)
}

/// `p` without a leading "./".
pub open spec fn strip_dot(p: Seq<char>) -> Seq<char> {
    if p.len() >= 2 && p[0] == '.' && p[1] == '/' {
        p.subrange(2, p.len() as int)
    } else {
        p
    }
}

/// The address that the path `p` resolves to below the root `root`: "."
/// is the root itself, any other path is walked name by name after a
/// leading "./" is dropped.
pub open spec fn lookup_addr(root: Node, p: Seq<char>) -> Option<Seq<int>> {
    if p == seq!['.'] {
        Some(seq![])
    } else {
        walk(root, strip_dot(p))
    }
}

/// Extending a valid address by a child index descends to that child.
pub proof fn lemma_node_at_push(n: Node, a: Seq<int>, j: int)
    requires
        valid_addr(n, a),
        0 <= j < node_at(n, a).children@.len(),
    ensures
        valid_addr(n, a.push(j)),
        node_at(n, a.push(j)) == node_at(n, a).children@[j],
    decreases a.len(),
{
    if a.len() == 0 {
        let c = n.children@[j];
        assert(a.push(j).drop_first() =~= seq![]);
        assert(node_at(c, seq![]) == c);
        assert(valid_addr(c, seq![]));
    } else {
        let c = n.children@[a[0]];
        lemma_node_at_push(c, a.drop_first(), j);
        assert(a.push(j).drop_first() =~= a.drop_first().push(j));
        assert(a.push(j)[0] == a[0]);
    }
}

/// `find_named` returns an index of a node with that name.
pub proof fn lemma_find_named_range(cs: Seq<Node>, name: Seq<char>, j: int)
    ensures
        find_named(cs, name, j) matches Some(i) ==> j <= i < cs.len() && cs[i].name@ == name,
    decreases cs.len() - j,
{
    if 0 <= j < cs.len() && cs[j].name@ != name {
        lemma_find_named_range(cs, name, j + 1);
    }
}

/// The path of the node at address `a` below `n`, whose own path is `p`.
pub open spec fn path_at(n: Node, p: Seq<char>, a: Seq<int>) -> Seq<char>
    decreases a.len(),
{
    if a.len() == 0 {
        p
    } else if 0 <= a[0] < n.children@.len() {
        let c = n.children@[a[0]];
        path_at(c, join_path(p, c.name@), a.drop_first())
    } else {
        p
    }
}

/// The first segment of `s` ends at a slash or at the end of `s`.
pub proof fn lemma_seg_len(s: Seq<char>)
    ensures
        seg_len(s) <= s.len(),
        seg_len(s) < s.len() ==> s[seg_len(s) as int] == '/',
        forall|i: int| 0 <= i < seg_len(s) ==> s[i] != '/',
    decreases s.len(),
{
    if s.len() > 0 && s[0] != '/' {
        lemma_seg_len(s.drop_first());
        assert forall|i: int| 0 <= i < seg_len(s) implies s[i] != '/' by {
            if i > 0 {
                assert(s[i] == s.drop_first()[i - 1]);
            }
        }
    }
}

/// The node that `walk` reaches has as its path the path of `n`, a slash
/// and the walked string.
pub proof fn lemma_walk_path(n: Node, s: Seq<char>, p: Seq<char>)
    ensures
        walk(n, s) matches Some(a) ==> path_at(n, p, a) == join_path(p, s),
    decreases s.len(),
{
    let k = seg_len(s);
    lemma_seg_len(s);
    let seg = s.subrange(0, k as int);
    lemma_find_named_range(n.children@, seg, 0);
    match find_named(n.children@, seg, 0) {
        None => {},
        Some(j) => {
            let c = n.children@[j];
            if k >= s.len() {
                assert(seg =~= s);
                assert(seq![j].drop_first() =~= seq![]);
                assert(path_at(c, join_path(p, c.name@), seq![]) == join_path(p, c.name@));
            } else {
                let rest = s.subrange(k as int + 1, s.len() as int);
                lemma_walk_path(c, rest, join_path(p, seg));
                if let Some(b) = walk(c, rest) {
                    assert((seq![j] + b).drop_first() =~= b);
                    assert((seq![j] + b)[0] == j);
                    assert(c.name@ == seg);
                    assert(path_at(n, p, seq![j] + b) == path_at(c, join_path(p, seg), b));
                    assert(s =~= seg + seq!['/'] + rest);
                    assert(join_path(join_path(p, seg), rest) =~= join_path(p, s));
                }
            }
        },
    }
}

impl DirTree {
    /// The node that `path` resolves to, if any.
    pub open spec fn lookup(&self, path: Seq<char>) -> Option<Node> {
        match lookup_addr(self.base_node, path) {
            Some(a) => Some(node_at(self.base_node, a)),
            None => None,
        }
    }

    /// Resolves `path`: "." is the root; otherwise, after a leading "./" is
    /// dropped, each slash-separated name selects the first child so named.
    pub fn find_node(&self, path: &str) -> (r: Option<&Node>)
        ensures
            r matches Some(m) ==> self.lookup(path@) == Some(*m),
            r is None ==> self.lookup(path@) is None,
    {
        match self.resolve(path) {
            Some((_, m)) => Some(m),
            None => None,
        }
    }

    /// Resolves `path` as `find_node` does, with the address of the node.
    pub(crate) fn resolve(&self, path: &str) -> (r: Option<(Vec<usize>, &Node)>)
        ensures
            r matches Some((a, m)) ==> lookup_addr(self.base_node, path@) == Some(ints(a@))
                && valid_addr(self.base_node, ints(a@)) && *m == node_at(self.base_node, ints(a@)),
            r is None ==> lookup_addr(self.base_node, path@) is None,
    {
        let root = &self.base_node;
        let n = path.unicode_len();
        if n == 1 && path.get_char(0) == '.' {
            assert(path@ =~= seq!['.']);
            let e: Vec<usize> = Vec::new();
            assert(ints(e@) =~= seq![]);
            return Some((e, root));
        }
        let mut start: usize = 0;
        if n >= 2 && path.get_char(0) == '.' && path.get_char(1) == '/' {
            start = 2;
        }
        let ghost s = strip_dot(path@);
        assert(s =~= path@.subrange(start as int, n as int));
        let ghost full = walk(*root, s);
        let mut node = root;
        let mut addr: Vec<usize> = Vec::new();
        assert(ints(addr@) =~= seq![]);
        loop
            invariant
                *root == self.base_node,
                lookup_addr(*root, path@) == full,
                start <= n,
                n == path@.len(),
                valid_addr(*root, ints(addr@)),
                *node == node_at(*root, ints(addr@)),
                full == walk(*root, s),
                self.lookup(path@) == match full {
                    Some(a) => Some(node_at(*root, a)),
                    None => None,
                },
                full == match walk(*node, path@.subrange(start as int, n as int)) {
                    Some(b) => Some(ints(addr@) + b),
                    None => None,
                },
            decreases n - start,
        {
            let ghost rest = path@.subrange(start as int, n as int);
            let mut k = start;
            while k < n && path.get_char(k) != '/'
                invariant
                    start <= k <= n,
                    n == path@.len(),
                    rest == path@.subrange(start as int, n as int),
                    seg_len(rest) == (k - start) + seg_len(path@.subrange(k as int, n as int)),
                decreases n - k,
            {
                assert(path@.subrange(k as int, n as int).drop_first() =~= path@.subrange(
                    k + 1,
                    n as int,
                ));
                k = k + 1;
            }
            assert(seg_len(path@.subrange(k as int, n as int)) == 0);
            let seg = String::from_str(path.substring_char(start, k));
            assert(seg@ =~= rest.subrange(0, (k - start) as int));
            let m = node.children.len();
            let mut j: usize = 0;
            while j < m && node.children[j].name != seg
                invariant
                    j <= m,
                    m == node.children@.len(),
                    find_named(node.children@, seg@, 0) == find_named(node.children@, seg@, j as int),
                decreases m - j,
            {
                j = j + 1;
            }
            if j == m {
                return None;
            }
            let ghost prev = *node;
            let ghost prev_addr = ints(addr@);
            assert(find_named(prev.children@, seg@, j as int) == Some(j as int));
            assert(seg_len(rest) == k - start);
            proof {
                lemma_node_at_push(*root, ints(addr@), j as int);
            }
            node = &node.children[j];
            addr.push(j);
            assert(ints(addr@) =~= prev_addr.push(j as int));
            if k >= n {
                assert(walk(prev, rest) == Some(seq![j as int]));
                assert(full == Some(prev_addr + seq![j as int]));
                assert(ints(addr@) =~= prev_addr + seq![j as int]);
                return Some((addr, node));
            }
            assert(rest.subrange((k - start) + 1, rest.len() as int) =~= path@.subrange(
                k + 1,
                n as int,
            ));
            proof {
                let old_addr = prev_addr;
                assert(walk(prev, rest) == match walk(*node, path@.subrange(k + 1, n as int)) {
                    Some(b) => Some(seq![j as int] + b),
                    None => None,
                });

                if let Some(b) = walk(*node, path@.subrange(k + 1, n as int)) {
                    assert(old_addr + (seq![j as int] + b) =~= ints(addr@) + b);
                }
            }
            start = k + 1;
        }
    }
}

} // verus!
