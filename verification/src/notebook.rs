//! Notebook data model.

use vstd::prelude::*;

verus! {

#[verifier::external_type_specification]
#[verifier::external_body]
pub struct ExPathBuf(std::path::PathBuf);

/// Stable cell identifier (function / const name).
pub type CellId = String;

#[derive(Debug, Clone, Copy, PartialEq, Eq, Structural)]
pub enum ItemKind {
    Cell,
    Helper,
    Definition,
    Markdown,
}

#[derive(Debug)]
pub struct Cell {
    pub id: CellId,
    pub name: String,
    pub docs: Option<String>,
    /// Full function source including signature and body.
    pub source: String,
    /// Body only (inside braces), used when regenerating.
    pub body: String,
    pub params: Vec<Param>,
    pub return_type: String,
    /// Byte span in the original file [start, end).
    pub span: (usize, usize),
}

#[derive(Debug, Clone)]
pub struct Param {
    pub name: String,
    /// Type as written, e.g. `&String` or `&u16`.
    pub ty: String,
    /// Inner type without leading reference, e.g. `String` or `u16`.
    pub inner_ty: String,
    pub is_ref: bool,
}

#[derive(Debug)]
pub struct Helper {
    pub name: String,
    pub docs: Option<String>,
    pub source: String,
    pub explicit: bool,
    pub span: (usize, usize),
}

#[derive(Debug)]
pub struct SharedDef {
    pub name: String,
    pub kind: String,
    pub source: String,
    pub span: (usize, usize),
}

#[derive(Debug)]
pub struct MarkdownCell {
    pub id: CellId,
    pub name: String,
    pub content: String,
    pub source: String,
    pub span: (usize, usize),
}

#[derive(Debug)]
pub struct Notebook {
    pub path: std::path::PathBuf,
    pub source: String,
    pub cells: Vec<Cell>,
    pub helpers: Vec<Helper>,
    pub definitions: Vec<SharedDef>,
    pub markdown: Vec<MarkdownCell>,
    /// Ordered display items as they appear in the file.
    pub order: Vec<OrderEntry>,
}

#[derive(Debug, Clone)]
pub enum OrderEntry {
    Cell { id: CellId },
    Helper { name: String },
    Definition { name: String },
    Markdown { id: CellId },
}

/// The index of the first cell named `name`.
pub open spec fn cell_index(cells: Seq<Cell>, name: Seq<char>) -> Option<int>
    decreases cells.len(),
{
    if cells.len() == 0 {
        None
    } else {
        match cell_index(cells.drop_last(), name) {
            Some(i) => Some(i),
            None => if cells.last().name@ == name {
                Some(cells.len() - 1)
            } else {
                None
            },
        }
    }
}

/// No two cells share a name: the invariant every parsed notebook has.
pub open spec fn unique_names(cells: Seq<Cell>) -> bool {
    forall|i: int, j: int| 0 <= i < j < cells.len() ==> cells[i].name@ != cells[j].name@
}

pub proof fn lemma_cell_index(cells: Seq<Cell>, name: Seq<char>)
    ensures
        cell_index(cells, name) matches Some(i) ==> 0 <= i < cells.len() && cells[i].name@ == name
            && forall|k: int| 0 <= k < i ==> cells[k].name@ != name,
        cell_index(cells, name) is None ==> forall|k: int|
            0 <= k < cells.len() ==> cells[k].name@ != name,
    decreases cells.len(),
{
    if cells.len() > 0 {
        let d = cells.drop_last();
        lemma_cell_index(d, name);
        assert forall|k: int| 0 <= k < d.len() implies d[k] == cells[k] by {}
    }
}

/// Finds the index of the first cell named `name`.
pub fn find_cell(cells: &Vec<Cell>, name: &str) -> (r: Option<usize>)
    ensures
        r matches Some(i) ==> cell_index(cells@, name@) == Some(i as int) && i < cells@.len(),
        r is None ==> cell_index(cells@, name@) is None,
{
    proof {
        lemma_cell_index(cells@, name@);
    }
    let mut i: usize = 0;
    while i < cells.len()
        invariant
            i <= cells@.len(),
            forall|k: int| 0 <= k < i ==> cells@[k].name@ != name@,
        decreases cells@.len() - i,
    {
        if str_eq(cells[i].name.as_str(), name) {
            proof {
                lemma_cell_index(cells@, name@);
            }
            return Some(i);
        }
        i += 1;
    }
    None
}

/// Whether two strings hold the same characters.
pub fn str_eq(a: &str, b: &str) -> (r: bool)
    ensures
        r == (a@ == b@),
{
    let x = crate::text::chars_of(a);
    let y = crate::text::chars_of(b);
    crate::source_util::eq_vec(&x, &y)
}

impl Notebook {
    /// The first cell named `name`.
    pub fn cell(&self, name: &str) -> (r: Option<&Cell>)
        ensures
            r matches Some(c) ==> cell_index(self.cells@, name@) matches Some(i) && *c
                == self.cells@[i],
            r is None ==> cell_index(self.cells@, name@) is None,
    {
        match find_cell(&self.cells, name) {
            Some(i) => Some(&self.cells[i]),
            None => None,
        }
    }

    /// The first cell named `name`, mutably.
    pub fn cell_mut(&mut self, name: &str) -> (r: Option<&mut Cell>)
        ensures
            r matches Some(c) ==> cell_index(old(self).cells@, name@) matches Some(i) && *c
                == old(self).cells@[i] && final(self).cells@ == old(self).cells@.update(i, *final(c))
                && final(self).path == old(self).path && final(self).source == old(self).source
                && final(self).helpers == old(self).helpers && final(self).definitions == old(
                self,
            ).definitions && final(self).markdown == old(self).markdown && final(self).order
                == old(self).order,
            r is None ==> cell_index(old(self).cells@, name@) is None && *final(self) == *old(self),
    {
        match find_cell(&self.cells, name) {
            Some(i) => Some(&mut self.cells[i]),
            None => None,
        }
    }
}

} // verus!
