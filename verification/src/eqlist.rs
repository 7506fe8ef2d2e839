//! Lists of the cells in which an equivalence class was seen.

use vstd::prelude::*;


verus! {

/// The cells in which an equivalence class was seen, and how often it was
/// seen in all of them together.
#[derive(Debug, Clone)]
pub struct GlobalEqCellList {
    pub cell_ids: Vec<usize>,
    pub count: u32,
}

impl GlobalEqCellList {
    /// A list with the one cell `bc_mer`, seen `count` times.
    pub fn from_umi_and_count(bc_mer: usize, count: u32) -> (r: GlobalEqCellList)
        ensures
            r.cell_ids@ == seq![bc_mer],
            r.count == count,
    {
        let mut cell_ids: Vec<usize> = Vec::new();
        cell_ids.push(bc_mer);
        GlobalEqCellList { cell_ids, count }
    }

    /// Adds the cell `bc_mer`, seen `count` times.
    pub fn add_element(&mut self, bc_mer: usize, count: u32)
        requires
            old(self).count + count <= u32::MAX,
        ensures
            final(self).cell_ids@ == old(self).cell_ids@.push(bc_mer),
            final(self).count == old(self).count + count,
    {
        self.cell_ids.push(bc_mer);
        self.count = self.count + count;
    }
}

} // verus!
