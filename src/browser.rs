use vstd::prelude::*;
use vstd::arithmetic::div_mod::{lemma_mod_add_multiples_vanish, lemma_mod_self_0, lemma_small_mod};

use crate::selection::{toggled, Selection};
use crate::tree::{strs, DirTree, DirType};

verus! {

/// A user action on the browser.
#[derive(Clone, Copy, Debug, PartialEq, Eq, Structural)]
pub enum Command {
    Exit,
    ToggleSelect,
    HoverUp,
    HoverDown,
    Open,
    RemoveHovered,
    RemoveAll,
}

/// Outside work that a command asks for.
#[derive(Debug)]
pub enum Effect {
    /// Nothing to do outside.
    Nothing,
    /// Read the directory at this path and scan its node with the entries.
    Scan(String),
    /// Remove the nodes at these paths, one after the other; then, if the
    /// flag is set, clear the selection.
    Remove(Vec<String>, bool),
}

/// The cursor after moving down in a list of `len` rows: the next row,
/// from the last row back to the first; a cursor that is missing or past
/// the end goes to the first row.
pub open spec fn hover_down(cur: Option<usize>, len: int) -> int {
    match cur {
        Some(i) if i < len => (i + 1) % len,
        _ => 0,
    }
}

/// The cursor after moving up in a list of `len` rows: the previous row,
/// from the first row to the last; a missing cursor goes to the first row
/// and one past the end to the last.
pub open spec fn hover_up(cur: Option<usize>, len: int) -> int {
    match cur {
        Some(i) if i < len => (i + len - 1) % len,
        Some(_) => len - 1,
        None => 0,
    }
}

/// The browser's state: the tree, the selection, the cursor, and whether
/// the user asked to leave.
#[derive(Debug)]
pub struct App {
    pub selected: Selection,
    pub hovered: Option<usize>,
    pub dir_tree: DirTree,
    pub exit: bool,
}

impl App {
    /// A browser over the directory `root_path`, with the cursor on the root.
    pub fn new(root_path: String) -> (r: App)
        ensures
            r.dir_tree.base_node.name@ == root_path@,
            r.dir_tree.base_node.type_ == DirType::Dir,
            r.dir_tree.base_node.children@.len() == 0,
            r.selected@ == Set::<Seq<char>>::empty(),
            r.hovered == Some(0usize),
            !r.exit,
    {
        App {
            selected: Selection::new(),
            hovered: Some(0),
            dir_tree: DirTree::new(root_path),
            exit: false,
        }
    }

    /// The cursor's row, if the cursor is on one.
    pub open spec fn hovered_row(&self) -> Option<int> {
        match self.hovered {
            Some(i) => if i < self.dir_tree.paths().len() {
                Some(i as int)
            } else {
                None
            },
            None => None,
        }
    }

    /// The number of rows of the tree.
    fn row_count(&self) -> (n: usize)
        ensures
            n == self.dir_tree.paths().len(),
            n >= 1,
    {
        let arr = self.dir_tree.to_array();
        assert(strs(arr@).len() == arr@.len());
        arr.len()
    }

    /// Asks to leave.
    pub fn handle_exit(&mut self)
        ensures
            final(self).exit,
            final(self).selected == old(self).selected,
            final(self).hovered == old(self).hovered,
            final(self).dir_tree == old(self).dir_tree,
    {
        self.exit = true;
    }

    /// The path under the cursor, if the cursor is on a row.
    pub fn hovered_path(&self) -> (r: Option<String>)
        ensures
            match self.hovered_row() {
                Some(i) => r matches Some(p) && p@ == self.dir_tree.paths()[i],
                None => r is None,
            },
    {
        let arr = self.dir_tree.to_array();
        match self.hovered {
            Some(i) => if i < arr.len() {
                assert(strs(arr@)[i as int] == arr@[i as int]@);
                Some(arr[i].clone())
            } else {
                None
            },
            None => None,
        }
    }

    /// Moves the cursor one row down, from the last row to the first.
    pub fn handle_hover_down(&mut self)
        ensures
            final(self).hovered == Some(
                hover_down(old(self).hovered, old(self).dir_tree.paths().len() as int) as usize,
            ),
            final(self).selected == old(self).selected,
            final(self).dir_tree == old(self).dir_tree,
            final(self).exit == old(self).exit,
    {
        let len = self.row_count();
        let i = match self.hovered {
            None => 0,
            Some(i) => if i >= len - 1 {
                0
            } else {
                i + 1
            },
        };
        proof {
            lemma_mod_self_0(len as int);
            if let Some(h) = self.hovered {
                if h + 1 < len {
                    lemma_small_mod((h + 1) as nat, len as nat);
                }
            }
        }
        self.hovered = Some(i);
    }

    /// Moves the cursor one row up, from the first row to the last.
    pub fn handle_hover_up(&mut self)
        ensures
            final(self).hovered == Some(
                hover_up(old(self).hovered, old(self).dir_tree.paths().len() as int) as usize,
            ),
            final(self).selected == old(self).selected,
            final(self).dir_tree == old(self).dir_tree,
            final(self).exit == old(self).exit,
    {
        let len = self.row_count();
        let i = match self.hovered {
            Some(i) => if i == 0 || i >= len {
                len - 1
            } else {
                i - 1
            },
            None => 0,
        };
        proof {
            if let Some(h) = self.hovered {
                if h == 0 {
                    lemma_small_mod((len - 1) as nat, len as nat);
                } else if h < len {
                    lemma_small_mod((h - 1) as nat, len as nat);
                    lemma_mod_add_multiples_vanish(h - 1, len as int);
                    assert(len as int + (h - 1) == h + len - 1);
                }
            }
        }
        self.hovered = Some(i);
    }

    /// Puts the cursor back on a row after the tree has changed: past the
    /// end it goes to the last row, and a missing cursor goes to the first.
    pub fn clamp_hovered(&mut self)
        ensures
            final(self).hovered == Some(
                match old(self).hovered {
                    Some(i) => if i < old(self).dir_tree.paths().len() {
                        i
                    } else {
                        (old(self).dir_tree.paths().len() - 1) as usize
                    },
                    None => 0usize,
                },
            ),
            final(self).selected == old(self).selected,
            final(self).dir_tree == old(self).dir_tree,
            final(self).exit == old(self).exit,
    {
        let len = self.row_count();
        let i = match self.hovered {
            Some(i) => if i < len {
                i
            } else {
                len - 1
            },
            None => 0,
        };
        self.hovered = Some(i);
    }

    /// Toggles the selection of the node under the cursor.
    pub fn handle_select_dir(&mut self)
        ensures
            final(self).selected@ == match old(self).hovered_row() {
                Some(i) => toggled(old(self).selected@, old(self).dir_tree.paths()[i]),
                None => old(self).selected@,
            },
            final(self).hovered == old(self).hovered,
            final(self).dir_tree == old(self).dir_tree,
            final(self).exit == old(self).exit,
    {
        match self.hovered_path() {
            Some(p) => self.selected.toggle(p.as_str()),
            None => {},
        }
    }

    /// The path to scan for the node under the cursor: only an unscanned
    /// directory needs it.
    pub fn handle_open_dir(&self) -> (r: Option<String>)
        ensures
            match self.hovered_row() {
                Some(i) => match self.dir_tree.lookup(self.dir_tree.paths()[i]) {
                    Some(n) => if n.type_ == DirType::Dir && n.children@.len() == 0 {
                        r matches Some(p) && p@ == self.dir_tree.paths()[i]
                    } else {
                        r is None
                    },
                    None => r is None,
                },
                None => r is None,
            },
    {
        let p = match self.hovered_path() {
            Some(p) => p,
            None => return None,
        };
        let scan = match self.dir_tree.find_node(p.as_str()) {
            Some(node) => node.type_ == DirType::Dir && node.children.len() == 0,
            None => false,
        };
        if scan {
            Some(p)
        } else {
            None
        }
    }

    /// The path to remove for the node under the cursor.
    pub fn handle_clear_hovered(&self) -> (r: Option<String>)
        ensures
            match self.hovered_row() {
                Some(i) => r matches Some(p) && p@ == self.dir_tree.paths()[i],
                None => r is None,
            },
    {
        self.hovered_path()
    }

    /// The paths to remove for every explicitly selected node.
    pub fn handle_clear_all(&self) -> (r: Vec<String>)
        ensures
            strs(r@) == strs(self.selected.paths@),
    {
        let n = self.selected.paths.len();
        let mut r: Vec<String> = Vec::new();
        let mut i: usize = 0;
        while i < n
            invariant
                n == self.selected.paths@.len(),
                i <= n,
                strs(r@) == strs(self.selected.paths@).take(i as int),
            decreases n - i,
        {
            let ghost r0 = strs(r@);
            r.push(self.selected.paths[i].clone());
            assert(strs(r@) =~= r0.push(self.selected.paths@[i as int]@));
            assert(strs(r@) =~= strs(self.selected.paths@).take(i + 1));
            i = i + 1;
        }
        assert(strs(self.selected.paths@).take(n as int) =~= strs(self.selected.paths@));
        r
    }

    /// Applies a command to the state and says what outside work it needs.
    pub fn handle_command(&mut self, cmd: Command) -> (r: Effect)
        ensures
            match cmd {
                Command::Exit => final(self).exit && final(self).selected == old(self).selected
                    && final(self).hovered == old(self).hovered && final(self).dir_tree == old(
                    self,
                ).dir_tree && r is Nothing,
                Command::ToggleSelect => final(self).selected@ == match old(self).hovered_row() {
                    Some(i) => toggled(old(self).selected@, old(self).dir_tree.paths()[i]),
                    None => old(self).selected@,
                } && final(self).hovered == old(self).hovered && final(self).dir_tree == old(
                    self,
                ).dir_tree && final(self).exit == old(self).exit && r is Nothing,
                Command::HoverUp => final(self).hovered == Some(
                    hover_up(old(self).hovered, old(self).dir_tree.paths().len() as int) as usize,
                ) && final(self).selected == old(self).selected && final(self).dir_tree == old(
                    self,
                ).dir_tree && final(self).exit == old(self).exit && r is Nothing,
                Command::HoverDown => final(self).hovered == Some(
                    hover_down(old(self).hovered, old(self).dir_tree.paths().len() as int) as usize,
                ) && final(self).selected == old(self).selected && final(self).dir_tree == old(
                    self,
                ).dir_tree && final(self).exit == old(self).exit && r is Nothing,
                Command::Open => *final(self) == *old(self) && match old(self).hovered_row() {
                    Some(i) => match old(self).dir_tree.lookup(old(self).dir_tree.paths()[i]) {
                        Some(n) => if n.type_ == DirType::Dir && n.children@.len() == 0 {
                            (r matches Effect::Scan(p) && p@ == old(self).dir_tree.paths()[i])
                        } else {
                            r is Nothing
                        },
                        None => r is Nothing,
                    },
                    None => r is Nothing,
                },
                Command::RemoveHovered => *final(self) == *old(self) && match old(
                    self,
                ).hovered_row() {
                    Some(i) => (r matches Effect::Remove(ps, clear) && !clear && strs(ps@) == seq![
                        old(self).dir_tree.paths()[i],
                    ]),
                    None => r is Nothing,
                },
                Command::RemoveAll => *final(self) == *old(self) && (r matches Effect::Remove(
                    ps,
                    clear,
                ) && clear && strs(ps@) == strs(old(self).selected.paths@)),
            },
    {
        match cmd {
            Command::Exit => {
                self.handle_exit();
                Effect::Nothing
            },
            Command::ToggleSelect => {
                self.handle_select_dir();
                Effect::Nothing
            },
            Command::HoverUp => {
                self.handle_hover_up();
                Effect::Nothing
            },
            Command::HoverDown => {
                self.handle_hover_down();
                Effect::Nothing
            },
            Command::Open => match self.handle_open_dir() {
                Some(p) => Effect::Scan(p),
                None => Effect::Nothing,
            },
            Command::RemoveHovered => match self.handle_clear_hovered() {
                Some(p) => {
                    let mut ps: Vec<String> = Vec::new();
                    ps.push(p);
                    assert(strs(ps@) =~= seq![ps@[0]@]);
                    Effect::Remove(ps, false)
                },
                None => Effect::Nothing,
            },
            Command::RemoveAll => Effect::Remove(self.handle_clear_all(), true),
        }
    }
}

} // verus!
