//! Rows with a focus and a selection.
use vstd::prelude::*;
use std::collections::HashSet;

verus! {

broadcast use vstd::std_specs::hash::group_hash_axioms;

/// The rows of a table, with the row that has the focus and the rows that
/// are selected.
#[derive(Debug)]
pub struct StatefulTable<T> {
    pub items: Vec<T>,
    /// Positions of the selected rows.
    pub selected: HashSet<usize>,
    /// Position of the row that has the focus.
    pub focused: Option<usize>,
}

/// The position after `position` in a cycle of `count` rows.
pub open spec fn next_in_cycle(position: usize, count: usize) -> usize {
    ((position + 1) % (count as int)) as usize
}

/// The position before `position` in a cycle of `count` rows.
pub open spec fn previous_in_cycle(position: usize, count: usize) -> usize {
    ((count + position - 1) % (count as int)) as usize
}

impl<T> StatefulTable<T> {
    /// The selected ones among the first `upto` rows, in the order of the
    /// rows.
    pub open spec fn selected_among(&self, upto: int) -> Seq<T>
        decreases upto,
    {
        if upto <= 0 {
            Seq::empty()
        } else if self.selected@.contains((upto - 1) as usize) {
            self.selected_among(upto - 1).push(self.items@[upto - 1])
        } else {
            self.selected_among(upto - 1)
        }
    }

    /// A table of `items` without focus or selection.
    pub fn with_items(items: Vec<T>) -> (table: StatefulTable<T>)
        ensures
            table.items == items,
            table.selected@ == Set::<usize>::empty(),
            table.focused is None,
    {
        StatefulTable { items, focused: None, selected: HashSet::new() }
    }

    /// A table of `items` with the focus on `focused` and no selection.
    pub fn with_focused(items: Vec<T>, focused: Option<usize>) -> (table: StatefulTable<T>)
        ensures
            table.items == items,
            table.selected@ == Set::<usize>::empty(),
            table.focused == focused,
    {
        StatefulTable { items, focused, selected: HashSet::new() }
    }

    /// Selects the row at `index` if it is not selected, and the other way
    /// round. An index beyond the number of rows changes nothing.
    pub fn toggle_selection(&mut self, index: usize)
        ensures
            final(self).items == old(self).items,
            final(self).focused == old(self).focused,
            final(self).selected@ == if index > old(self).items@.len() {
                old(self).selected@
            } else if old(self).selected@.contains(index) {
                old(self).selected@.remove(index)
            } else {
                old(self).selected@.insert(index)
            },
    {
        if index > self.items.len() {
            return ;
        }
        let was_present = self.selected.remove(&index);
        if !was_present {
            self.selected.insert(index);
            assert(self.selected@ =~= old(self).selected@.insert(index));
        }
    }

    /// The row that has the focus, if the focus is on a row.
    pub fn focused(&self) -> (row: Option<&T>)
        ensures
            match row {
                Some(row) => self.focused matches Some(i) && i < self.items@.len() && *row
                    == self.items@[i as int],
                None => !(self.focused matches Some(i) && i < self.items@.len()),
            },
    {
        match self.focused {
            Some(i) => if i < self.items.len() {
                Some(&self.items[i])
            } else {
                None
            },
            None => None,
        }
    }

    /// Whether the focus is on the row at `index`.
    pub fn is_focused(&self, index: usize) -> (focused: bool)
        ensures
            focused == (self.focused == Some(index)),
    {
        match self.focused {
            Some(i) => i == index,
            None => false,
        }
    }

    /// The position of the focus.
    pub fn focused_index(&self) -> (index: Option<usize>)
        ensures
            index == self.focused,
    {
        self.focused
    }

    /// The selected rows, in the order of the rows.
    pub fn selected(&self) -> (rows: Vec<&T>)
        ensures
            rows@.len() == self.selected_among(self.items@.len() as int).len(),
            forall|k: int|
                0 <= k < rows@.len() ==> *rows@[k] == self.selected_among(
                    self.items@.len() as int,
                )[k],
    {
        let mut rows: Vec<&T> = Vec::new();
        let mut i: usize = 0;
        while i < self.items.len()
            invariant
                i <= self.items.len(),
                rows@.len() == self.selected_among(i as int).len(),
                forall|k: int|
                    0 <= k < rows@.len() ==> *rows@[k] == self.selected_among(i as int)[k],
            decreases self.items.len() - i,
        {
            if self.selected.contains(&i) {
                rows.push(&self.items[i]);
            }
            i += 1;
        }
        rows
    }

    /// Whether the row at `index` is selected.
    pub fn is_selected(&self, index: usize) -> (selected: bool)
        ensures
            selected == self.selected@.contains(index),
    {
        self.selected.contains(&index)
    }

    /// Selects no row.
    pub fn clear_selected(&mut self)
        ensures
            final(self).items == old(self).items,
            final(self).focused == old(self).focused,
            final(self).selected@ == Set::<usize>::empty(),
    {
        self.selected.clear();
    }

    /// Moves the focus to the next row, from the last to the first, and to
    /// the first if no row had it. A table without rows stays as it is.
    pub fn focus_next(&mut self)
        ensures
            final(self).items == old(self).items,
            final(self).selected == old(self).selected,
            final(self).focused == if old(self).items@.len() == 0 {
                old(self).focused
            } else {
                match old(self).focused {
                    Some(i) => Some(next_in_cycle(i, old(self).items@.len() as usize)),
                    None => Some(0usize),
                }
            },
    {
        let count = self.items.len();
        if count == 0 {
            return ;
        }
        let i = match self.focused {
            Some(i) => {
                let within = i % count;
                proof {
                    let n = count as int;
                    let x = i as int;
                    vstd::arithmetic::div_mod::lemma_mod_bound(x, n);
                    vstd::arithmetic::div_mod::lemma_mod_bound(x + 1, n);
                    vstd::arithmetic::div_mod::lemma_add_mod_noop(x, 1, n);
                    if n > 1 {
                        vstd::arithmetic::div_mod::lemma_small_mod(1, n as nat);
                        if within + 1 < n {
                            vstd::arithmetic::div_mod::lemma_small_mod(
                                (within + 1) as nat,
                                n as nat,
                            );
                        } else {
                            vstd::arithmetic::div_mod::lemma_mod_self_0(n);
                        }
                    }
                }
                if within + 1 < count {
                    within + 1
                } else {
                    0
                }
            },
            None => 0,
        };
        self.focused = Some(i);
    }

    /// Moves the focus to the row before, from the first to the last, and to
    /// the first if no row had it. A table without rows stays as it is.
    pub fn focus_previous(&mut self)
        ensures
            final(self).items == old(self).items,
            final(self).selected == old(self).selected,
            final(self).focused == if old(self).items@.len() == 0 {
                old(self).focused
            } else {
                match old(self).focused {
                    Some(i) => Some(previous_in_cycle(i, old(self).items@.len() as usize)),
                    None => Some(0usize),
                }
            },
    {
        let count = self.items.len();
        if count == 0 {
            return ;
        }
        let i = match self.focused {
            Some(i) => {
                let within = i % count;
                proof {
                    let n = count as int;
                    let x = i as int;
                    vstd::arithmetic::div_mod::lemma_mod_bound(x, n);
                    vstd::arithmetic::div_mod::lemma_mod_bound(n + x - 1, n);
                    vstd::arithmetic::div_mod::lemma_mod_add_multiples_vanish(x - 1, n);
                    vstd::arithmetic::div_mod::lemma_sub_mod_noop(x, 1, n);
                    if n > 1 {
                        vstd::arithmetic::div_mod::lemma_small_mod(1, n as nat);
                        if within == 0 {
                            vstd::arithmetic::div_mod::lemma_mod_add_multiples_vanish(-1, n);
                            vstd::arithmetic::div_mod::lemma_small_mod((n - 1) as nat, n as nat);
                        } else {
                            vstd::arithmetic::div_mod::lemma_small_mod(
                                (within - 1) as nat,
                                n as nat,
                            );
                        }
                    }
                }
                if within == 0 {
                    count - 1
                } else {
                    within - 1
                }
            },
            None => 0,
        };
        self.focused = Some(i);
    }

    /// Moves the focus to the first row. A table without rows stays as it
    /// is.
    pub fn focus_first(&mut self)
        ensures
            final(self).items == old(self).items,
            final(self).selected == old(self).selected,
            final(self).focused == if old(self).items@.len() == 0 {
                old(self).focused
            } else {
                Some(0usize)
            },
    {
        if self.items.len() == 0 {
            return ;
        }
        self.focused = Some(0);
    }

    /// Moves the focus to the last row. A table without rows stays as it is.
    pub fn focus_last(&mut self)
        ensures
            final(self).items == old(self).items,
            final(self).selected == old(self).selected,
            final(self).focused == if old(self).items@.len() == 0 {
                old(self).focused
            } else {
                Some((old(self).items@.len() - 1) as usize)
            },
    {
        if self.items.len() == 0 {
            return ;
        }
        self.focused = Some(self.items.len() - 1);
    }
}

} // verus!
