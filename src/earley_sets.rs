//! The Earley sets: a two-dimensional jagged array of items, one row per set.
use jaggedarray::jagged_array::JaggedArray;
use jaggedarray::jagged_array::JaggedArrayViewTrait;
use vstd::prelude::*;

verus! {

/// One partial parse hypothesis: `nonterminal_id` is being derived through its
/// production `production_index`, matched up to `dot_position`, starting at the
/// Earley set `start_position`; `state_id` is the sub-state of the automaton or
/// literal under the dot.
#[derive(Clone, Copy, Debug, PartialEq, Eq, Hash, Structural)]
pub struct EarleyItem {
    pub nonterminal_id: u32,
    pub dot_position: u32,
    pub production_index: u32,
    pub start_position: u32,
    pub state_id: u32,
}

/// The rows of Earley items, held in a `jaggedarray::JaggedArray`.
#[verifier::external_body]
pub struct EarleySets {
    rows: JaggedArray<EarleyItem, Vec<usize>, 2>,
}

/// The rows that the jagged array holds, in order.
pub uninterp spec fn earley_rows(s: EarleySets) -> Seq<Seq<EarleyItem>>;

impl Clone for EarleySets {
    /// Relies on the derived `Clone` of `JaggedArray`: the same rows.
    #[verifier::external_body]
    fn clone(&self) -> (r: Self)
        ensures
            earley_rows(r) == earley_rows(*self),
    {
        EarleySets { rows: self.rows.clone() }
    }
}

impl EarleySets {
    pub open spec fn view_rows(&self) -> Seq<Seq<EarleyItem>> {
        earley_rows(*self)
    }

    /// Relies on `JaggedArray::new`: no rows.
    #[verifier::external_body]
    pub(crate) fn new() -> (r: EarleySets)
        ensures
            earley_rows(r) == Seq::<Seq<EarleyItem>>::empty(),
    {
        EarleySets { rows: JaggedArray::new() }
    }

    /// Relies on `JaggedArray::clear`: every row removed.
    #[verifier::external_body]
    pub(crate) fn clear(&mut self)
        ensures
            earley_rows(*final(self)) == Seq::<Seq<EarleyItem>>::empty(),
    {
        self.rows.clear()
    }

    /// Relies on `JaggedArray::len`: the number of rows.
    #[verifier::external_body]
    pub(crate) fn len(&self) -> (r: usize)
        ensures
            r == earley_rows(*self).len(),
    {
        self.rows.len()
    }

    /// Relies on `JaggedArray::new_row` in the first dimension: one empty row appended.
    #[verifier::external_body]
    pub(crate) fn new_row(&mut self)
        ensures
            earley_rows(*final(self)) == earley_rows(*old(self)).push(Seq::<EarleyItem>::empty()),
    {
        self.rows.new_row::<0>()
    }

    /// Relies on `JaggedArray::push_to_last_row`: the item appended to the last row.
    #[verifier::external_body]
    pub(crate) fn push_to_last_row(&mut self, item: EarleyItem)
        requires
            earley_rows(*old(self)).len() > 0,
        ensures
            earley_rows(*final(self)) == earley_rows(*old(self)).update(
                earley_rows(*old(self)).len() - 1,
                earley_rows(*old(self)).last().push(item),
            ),
    {
        self.rows.push_to_last_row(item)
    }

    /// Relies on `JaggedArray::truncate` in the first dimension: the first `n` rows kept.
    #[verifier::external_body]
    pub(crate) fn truncate(&mut self, n: usize)
        requires
            n <= earley_rows(*old(self)).len(),
        ensures
            earley_rows(*final(self)) == earley_rows(*old(self)).take(n as int),
    {
        self.rows.truncate::<0>(n);
    }

    /// Relies on `JaggedArray::view` of one row: its length.
    #[verifier::external_body]
    pub(crate) fn row_len(&self, i: usize) -> (r: usize)
        requires
            i < earley_rows(*self).len(),
        ensures
            r == earley_rows(*self)[i as int].len(),
    {
        self.rows.view::<1, 1>([i]).len()
    }

    /// Relies on indexing `JaggedArray` by row and column: the item there.
    #[verifier::external_body]
    pub(crate) fn get(&self, i: usize, j: usize) -> (r: EarleyItem)
        requires
            i < earley_rows(*self).len(),
            j < earley_rows(*self)[i as int].len(),
        ensures
            r == earley_rows(*self)[i as int][j as int],
    {
        self.rows[[i, j]]
    }
}

} // verus!
