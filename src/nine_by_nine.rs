use vstd::prelude::*;

verus! {

/// The number of empty cells in `cells`.
pub open spec fn count_empty<T>(cells: Seq<Option<T>>) -> nat
    decreases cells.len(),
{
    if cells.len() == 0 {
        0
    } else {
        count_empty(cells.drop_last()) + if cells.last() is None {
            1nat
        } else {
            0nat
        }
    }
}

/// A 9x9 array of `Option<T>`s, stored row-major: cell (row, col) is at `row * 9 + col`.
#[derive(Clone, Copy)]
pub struct NineByNine<T> {
    data: [Option<T>; 81],
}

impl<T> View for NineByNine<T> {
    type V = Seq<Option<T>>;

    closed spec fn view(&self) -> Seq<Option<T>> {
        self.data@
    }
}

/// A grid always has 81 cells.
pub broadcast proof fn lemma_grid_len<T>(g: NineByNine<T>)
    ensures
        #[trigger] g@.len() == 81,
{
}

impl<T> From<[Option<T>; 81]> for NineByNine<T> {
    /// Creates a grid whose cells are `data`, read row-major.
    fn from(data: [Option<T>; 81]) -> (r: Self) {
        NineByNine { data }
    }
}

impl<T> vstd::std_specs::convert::FromSpecImpl<[Option<T>; 81]> for NineByNine<T> {
    open spec fn obeys_from_spec() -> bool {
        true
    }

    closed spec fn from_spec(data: [Option<T>; 81]) -> NineByNine<T> {
        NineByNine { data }
    }
}

/// A grid built from an array holds that array's cells.
pub broadcast proof fn lemma_from_cells<T>(data: [Option<T>; 81])
    ensures
        #[trigger] <NineByNine<T> as vstd::std_specs::convert::FromSpec<[Option<T>; 81]>>::from_spec(data)@ == data@,
{
}

impl<T: Copy> NineByNine<T> {
    /// Create a new 9x9 that consists of only `None` elements.
    pub fn new() -> (r: Self)
        ensures
            forall|i: int| 0 <= i < 81 ==> (#[trigger] r@[i]) is None,
    {
        NineByNine { data: [None; 81] }
    }

    /// Indicates the number of None elements in this 9x9.
    pub fn count_nones(&self) -> (r: usize)
        ensures
            r == count_empty(self@),
    {
        let mut count: usize = 0;
        let mut i: usize = 0;
        while i < 81
            invariant
                i <= 81,
                count <= i,
                count == count_empty(self@.subrange(0, i as int)),
            decreases 81 - i,
        {
            assert(self@.subrange(0, i + 1).drop_last() =~= self@.subrange(0, i as int));
            if self.data[i].is_none() {
                count = count + 1;
            }
            i = i + 1;
        }
        assert(self@.subrange(0, 81) =~= self@);
        count
    }

    /// Get the data element at (row, col); row and column must each be in [0, 9).
    pub fn get(&self, row: usize, col: usize) -> (r: Option<&T>)
        requires
            row < 9,
            col < 9,
        ensures
            r is Some <==> self@[row * 9 + col] is Some,
            r is Some ==> self@[row * 9 + col] == Some(*r->0),
    {
        self.data[row * 9 + col].as_ref()
    }

    /// Set the data element at (row, col); row and column must each be in [0, 9).
    pub fn set(&mut self, row: usize, col: usize, val: Option<T>)
        requires
            row < 9,
            col < 9,
        ensures
            final(self)@ == old(self)@.update(row * 9 + col, val),
    {
        self.data[row * 9 + col] = val;
    }
}

} // verus!
