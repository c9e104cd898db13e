use vstd::prelude::*;

use crate::tree::strs;

verus! {

/// The explicitly selected nodes, each held by its full path.
#[derive(Debug)]
pub struct Selection {
    pub paths: Vec<String>,
}

/// The set that results from toggling `p` in `s`.
pub open spec fn toggled(s: Set<Seq<char>>, p: Seq<char>) -> Set<Seq<char>> {
    if s.contains(p) {
        s.remove(p)
    } else {
        s.insert(p)
    }
}

impl View for Selection {
    type V = Set<Seq<char>>;

    open spec fn view(&self) -> Set<Seq<char>> {
        Set::new(|p: Seq<char>| strs(self.paths@).contains(p))
    }
}

impl Selection {
    /// An empty selection.
    pub fn new() -> (r: Selection)
        ensures
            r@ == Set::<Seq<char>>::empty(),
    {
        let r = Selection { paths: Vec::new() };
        assert(r@ =~= Set::<Seq<char>>::empty());
        r
    }

    /// Whether `path` is explicitly selected.
    pub fn contains(&self, path: &str) -> (r: bool)
        ensures
            r == self@.contains(path@),
    {
        let target = String::from_str(path);
        let n = self.paths.len();
        let mut i: usize = 0;
        while i < n
            invariant
                n == self.paths@.len(),
                target@ == path@,
                i <= n,
                forall|k: int| 0 <= k < i ==> strs(self.paths@)[k] != path@,
            decreases n - i,
        {
            if self.paths[i] == target {
                assert(strs(self.paths@)[i as int] == path@);
                return true;
            }
            i = i + 1;
        }
        assert(!strs(self.paths@).contains(path@));
        false
    }

    /// Removes `path` if it is selected, selects it otherwise.
    pub fn toggle(&mut self, path: &str)
        ensures
            final(self)@ == toggled(old(self)@, path@),
    {
        let target = String::from_str(path);
        if self.contains(path) {
            let ghost p0 = strs(self.paths@);
            let mut kept: Vec<String> = Vec::new();
            let n = self.paths.len();
            let mut i: usize = 0;
            while i < n
                invariant
                    n == self.paths@.len(),
                    p0 == strs(self.paths@),
                    target@ == path@,
                    i <= n,
                    forall|k: int|
                        0 <= k < kept@.len() ==> strs(kept@)[k] != path@ && p0.contains(
                            #[trigger] strs(kept@)[k],
                        ),
                    forall|k: int|
                        0 <= k < i && #[trigger] p0[k] != path@ ==> strs(kept@).contains(p0[k]),
                decreases n - i,
            {
                let ghost k0 = strs(kept@);
                if self.paths[i] != target {
                    kept.push(self.paths[i].clone());
                    assert(strs(kept@) =~= k0.push(p0[i as int]));
                    assert(p0.contains(p0[i as int]));
                    assert(strs(kept@)[k0.len() as int] == p0[i as int]);
                    assert forall|k: int|
                        0 <= k < i + 1 && #[trigger] p0[k] != path@ implies strs(kept@).contains(
                        p0[k],
                    ) by {
                        if k < i {
                            let j = choose|j: int| 0 <= j < k0.len() && k0[j] == p0[k];
                            assert(strs(kept@)[j] == p0[k]);
                        }
                    }
                }
                i = i + 1;
            }
            self.paths = kept;
            assert forall|p: Seq<char>| self@.contains(p) <==> old(self)@.remove(path@).contains(
                p,
            ) by {
                if self@.contains(p) {
                    let j = choose|j: int| 0 <= j < kept@.len() && strs(kept@)[j] == p;
                    assert(p0.contains(strs(kept@)[j]));
                }
                if old(self)@.remove(path@).contains(p) {
                    let j = choose|j: int| 0 <= j < p0.len() && p0[j] == p;
                    assert(p0[j] != path@);
                }
            }
            assert(self@ =~= toggled(old(self)@, path@));
        } else {
            let ghost p0 = strs(self.paths@);
            self.paths.push(target);
            assert(strs(self.paths@) =~= p0.push(path@));
            assert forall|p: Seq<char>| self@.contains(p) <==> old(self)@.insert(path@).contains(
                p,
            ) by {
                if old(self)@.contains(p) {
                    let j = choose|j: int| 0 <= j < p0.len() && p0[j] == p;
                    assert(strs(self.paths@)[j] == p);
                }
                if p == path@ {
                    assert(strs(self.paths@)[p0.len() as int] == p);
                }
                if self@.contains(p) {
                    let j = choose|j: int| 0 <= j < p0.len() + 1 && strs(self.paths@)[j] == p;
                    if j < p0.len() {
                        assert(p0[j] == p);
                    }
                }
            }
            assert(self@ =~= toggled(old(self)@, path@));
        }
    }

    /// Empties the selection.
    pub fn clear(&mut self)
        ensures
            final(self)@ == Set::<Seq<char>>::empty(),
    {
        self.paths = Vec::new();
        assert(self@ =~= Set::<Seq<char>>::empty());
    }
}

/// Toggling the same path twice gives back the selection one started from.
pub proof fn lemma_toggle_twice(s: Set<Seq<char>>, p: Seq<char>)
    ensures
        toggled(toggled(s, p), p) == s,
{
    assert(toggled(toggled(s, p), p) =~= s);
}

} // verus!
