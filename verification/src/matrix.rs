//! The eligibility matrix: a square boolean grid over a fixed ordering of
//! participant names, where cell (i, j) says whether participant i may
//! still give a gift to participant j.
//!
//! All name-keyed operations resolve a name to the index of its first
//! occurrence among the keys; a name that is not present is reported to the
//! caller (an `Option` or a `false` result) rather than treated as a fault.

use crate::names::{first_index_of, lemma_first_index_of, views_of};
use vstd::pervasive::VecAdditionalExecFns;
use vstd::prelude::*;

verus! {

/// A square grid of gift eligibilities, keyed by participant name.
#[derive(Clone)]
pub struct Matrix {
    keys: Vec<String>,
    data: Vec<Vec<bool>>,
}

impl Matrix {
    /// The ordered names the matrix is keyed by.
    pub closed spec fn names(self) -> Seq<Seq<char>> {
        views_of(self.keys@)
    }

    /// The boolean grid, row by row.
    pub closed spec fn grid(self) -> Seq<Seq<bool>> {
        self.data@.map_values(|r: Vec<bool>| r@)
    }

    /// The grid is square, with one row and one column per name.
    pub open spec fn wf(self) -> bool {
        &&& self.grid().len() == self.names().len()
        &&& forall|i: int|
            0 <= i < self.grid().len() ==> (#[trigger] self.grid()[i]).len() == self.names().len()
    }

    /// Whether `x` is one of the matrix's names.
    pub open spec fn has_name(self, x: Seq<char>) -> bool {
        self.names().contains(x)
    }

    /// The row/column index a name resolves to: its first occurrence.
    pub open spec fn idx(self, x: Seq<char>) -> int {
        first_index_of(self.names(), x)
    }

    /// The value of cell (i, j).
    pub open spec fn cell(self, i: int, j: int) -> bool {
        self.grid()[i][j]
    }

    /// Build the matrix over `keys`: every off-diagonal cell eligible,
    /// every diagonal cell ineligible.
    pub fn new(keys: Vec<String>) -> (m: Matrix)
        ensures
            m.wf(),
            m.names() == views_of(keys@),
            forall|i: int, j: int|
                0 <= i < m.names().len() && 0 <= j < m.names().len() ==> m.cell(i, j) == (i != j),
    {
        let size = keys.len();
        let mut data: Vec<Vec<bool>> = Vec::new();
        let mut i: usize = 0;
        while i < size
            invariant
                i <= size,
                data@.len() == i,
                forall|ii: int|
                    0 <= ii < i ==> (#[trigger] data@[ii])@.len() == size,
                forall|ii: int, j: int|
                    0 <= ii < i && 0 <= j < size ==> data@[ii]@[j] == (ii != j),
            decreases size - i,
        {
            let mut row: Vec<bool> = Vec::new();
            let mut j: usize = 0;
            while j < size
                invariant
                    j <= size,
                    row@.len() == j,
                    forall|k: int| 0 <= k < j ==> row@[k] == (k != i),
                decreases size - j,
            {
                row.push(j != i);
                j += 1;
            }
            data.push(row);
            i += 1;
        }
        let m = Matrix { keys, data };
        assert(m.grid().len() == m.names().len());
        m
    }

    /// Index of the first occurrence of `name` among the keys.
    fn index_of(&self, name: &str) -> (r: Option<usize>)
        ensures
            match r {
                Some(i) => self.has_name(name@) && i == self.idx(name@),
                None => !self.has_name(name@),
            },
    {
        let target: String = name.to_owned();
        let n = self.keys.len();
        let mut i: usize = 0;
        while i < n
            invariant
                i <= n,
                n == self.names().len(),
                target@ == name@,
                forall|k: int| 0 <= k < i ==> self.names()[k] != name@,
            decreases n - i,
        {
            if self.keys[i] == target {
                proof {
                    lemma_first_index_of(self.names(), name@);
                    assert(self.names()[i as int] == name@);
                    let f = self.idx(name@);
                    assert(f != -1);
                    assert(f == i) by {
                        if f < i {
                            assert(self.names()[f] != name@);
                        }
                        if f > i {
                            assert(self.names()[i as int] != name@);
                        }
                    }
                }
                return Some(i);
            }
            i += 1;
        }
        proof {
            lemma_first_index_of(self.names(), name@);
            if self.has_name(name@) {
                let j = choose|j: int|
                    0 <= j < self.names().len() && self.names()[j] == name@;
                assert(self.names()[j] != name@);
            }
        }
        None
    }

    /// The cell at row-name `x`, column-name `y`, or `None` if either name
    /// is unknown.
    pub fn get(&self, x: &str, y: &str) -> (r: Option<bool>)
        requires
            self.wf(),
        ensures
            match r {
                Some(b) => self.has_name(x@) && self.has_name(y@) && b == self.cell(
                    self.idx(x@),
                    self.idx(y@),
                ),
                None => !self.has_name(x@) || !self.has_name(y@),
            },
    {
        let ix = match self.index_of(x) {
            Some(i) => i,
            None => {
                return None;
            },
        };
        let iy = match self.index_of(y) {
            Some(i) => i,
            None => {
                return None;
            },
        };
        proof {
            lemma_first_index_of(self.names(), x@);
            lemma_first_index_of(self.names(), y@);
            assert(self.data@.len() == self.grid().len());
            assert(self.grid()[ix as int] == self.data@[ix as int]@);
        }
        Some(self.data[ix][iy])
    }

    /// A copy of the whole row of `x`, or `None` if the name is unknown.
    pub fn get_row(&self, x: &str) -> (r: Option<Vec<bool>>)
        requires
            self.wf(),
        ensures
            match r {
                Some(row) => self.has_name(x@) && row@ == self.grid()[self.idx(x@)],
                None => !self.has_name(x@),
            },
    {
        let ix = match self.index_of(x) {
            Some(i) => i,
            None => {
                return None;
            },
        };
        proof {
            lemma_first_index_of(self.names(), x@);
        }
        let n = self.keys.len();
        let mut row: Vec<bool> = Vec::new();
        let mut j: usize = 0;
        while j < n
            invariant
                j <= n,
                self.wf(),
                ix < self.grid().len(),
                n == self.grid()[ix as int].len(),
                row@.len() == j,
                forall|k: int| 0 <= k < j ==> row@[k] == self.grid()[ix as int][k],
            decreases n - j,
        {
            row.push(self.data[ix][j]);
            j += 1;
        }
        assert(row@ =~= self.grid()[ix as int]);
        Some(row)
    }

    /// Write `val` into the cell at row-name `x`, column-name `y`. Returns
    /// whether both names were known and the write was applied.
    pub fn set(&mut self, x: &str, y: &str, val: bool) -> (r: bool)
        requires
            old(self).wf(),
        ensures
            final(self).wf(),
            final(self).names() == old(self).names(),
            r == (old(self).has_name(x@) && old(self).has_name(y@)),
            r ==> forall|i: int, j: int|
                0 <= i < old(self).names().len() && 0 <= j < old(self).names().len()
                    ==> final(self).cell(i, j) == (if i == old(self).idx(x@) && j == old(
                    self,
                ).idx(y@) {
                    val
                } else {
                    old(self).cell(i, j)
                }),
            !r ==> *final(self) == *old(self),
    {
        let ix = match self.index_of(x) {
            Some(i) => i,
            None => {
                return false;
            },
        };
        let iy = match self.index_of(y) {
            Some(i) => i,
            None => {
                return false;
            },
        };
        proof {
            lemma_first_index_of(self.names(), x@);
            lemma_first_index_of(self.names(), y@);
        }
        let n = self.keys.len();
        let mut row: Vec<bool> = Vec::new();
        let mut k: usize = 0;
        while k < n
            invariant
                k <= n,
                self.wf(),
                ix < self.grid().len(),
                iy < n,
                n == self.grid()[ix as int].len(),
                row@.len() == k,
                forall|t: int|
                    0 <= t < k ==> row@[t] == (if t == iy { val } else {
                        self.grid()[ix as int][t]
                    }),
            decreases n - k,
        {
            if k == iy {
                row.push(val);
            } else {
                row.push(self.data[ix][k]);
            }
            k += 1;
        }
        self.data.set(ix, row);
        proof {
            assert forall|i: int, j: int|
                0 <= i < old(self).names().len() && 0 <= j < old(self).names().len() implies
                self.cell(i, j) == (if i == ix && j == iy {
                    val
                } else {
                    old(self).cell(i, j)
                }) by {
                if i == ix as int {
                    assert(self.grid()[i] == row@);
                } else {
                    assert(self.grid()[i] == old(self).grid()[i]);
                }
            }
            assert forall|i: int| 0 <= i < self.grid().len() implies (#[trigger] self.grid()[i]).len()
                == self.names().len() by {
                if i == ix as int {
                    assert(self.grid()[i] == row@);
                } else {
                    assert(self.grid()[i] == old(self).grid()[i]);
                }
            }
        }
        true
    }

    /// Write `val` into every cell of the column of `y`. Returns whether
    /// the name was known and the writes were applied.
    pub fn set_col(&mut self, y: &str, val: bool) -> (r: bool)
        requires
            old(self).wf(),
        ensures
            final(self).wf(),
            final(self).names() == old(self).names(),
            r == old(self).has_name(y@),
            r ==> forall|i: int, j: int|
                0 <= i < old(self).names().len() && 0 <= j < old(self).names().len()
                    ==> final(self).cell(i, j) == (if j == old(self).idx(y@) {
                    val
                } else {
                    old(self).cell(i, j)
                }),
            !r ==> *final(self) == *old(self),
    {
        let iy = match self.index_of(y) {
            Some(i) => i,
            None => {
                return false;
            },
        };
        proof {
            lemma_first_index_of(self.names(), y@);
        }
        let ghost orig = *self;
        let n = self.keys.len();
        let mut i: usize = 0;
        while i < n
            invariant
                i <= n,
                self.wf(),
                self.names() == orig.names(),
                orig.wf(),
                iy < n,
                n == self.names().len(),
                self.grid().len() == orig.grid().len(),
                forall|ii: int, j: int|
                    0 <= ii < i && 0 <= j < n ==> self.cell(ii, j) == (if j == iy {
                        val
                    } else {
                        orig.cell(ii, j)
                    }),
                forall|ii: int| i <= ii < n ==> self.grid()[ii] == orig.grid()[ii],
            decreases n - i,
        {
            let mut row: Vec<bool> = Vec::new();
            let mut k: usize = 0;
            while k < n
                invariant
                    k <= n,
                    self.wf(),
                    i < self.grid().len(),
                    iy < n,
                    n == self.grid()[i as int].len(),
                    row@.len() == k,
                    forall|t: int|
                        0 <= t < k ==> row@[t] == (if t == iy { val } else {
                            self.grid()[i as int][t]
                        }),
                decreases n - k,
            {
                if k == iy {
                    row.push(val);
                } else {
                    row.push(self.data[i][k]);
                }
                k += 1;
            }
            let ghost before = *self;
            self.data.set(i, row);
            proof {
                assert forall|ii: int| 0 <= ii < self.grid().len() implies (#[trigger] self.grid()[
                    ii
                ]).len() == self.names().len() by {
                    if ii == i as int {
                        assert(self.grid()[ii] == row@);
                    } else {
                        assert(self.grid()[ii] == before.grid()[ii]);
                    }
                }
                assert forall|ii: int, j: int| 0 <= ii < i + 1 && 0 <= j < n implies self.cell(
                    ii,
                    j,
                ) == (if j == iy {
                    val
                } else {
                    orig.cell(ii, j)
                }) by {
                    if ii == i as int {
                        assert(self.grid()[ii] == row@);
                        assert(before.grid()[ii] == orig.grid()[ii]);
                        assert(row@[j] == (if j == iy {
                            val
                        } else {
                            before.grid()[i as int][j]
                        }));
                    } else {
                        assert(self.grid()[ii] == before.grid()[ii]);
                        assert(before.cell(ii, j) == (if j == iy {
                            val
                        } else {
                            orig.cell(ii, j)
                        }));
                        assert(self.cell(ii, j) == before.cell(ii, j));
                    }
                }
                assert forall|ii: int| i + 1 <= ii < n implies self.grid()[ii] == orig.grid()[
                    ii
                ] by {
                    assert(self.grid()[ii] == before.grid()[ii]);
                }
            }
            i += 1;
        }
        true
    }

    /// Whether `key` is one of the matrix's names.
    pub fn contains(&self, key: &str) -> (r: bool)
        ensures
            r == self.has_name(key@),
    {
        self.index_of(key).is_some()
    }

    /// The number of names (and so the number of rows and of columns).
    pub fn size(&self) -> (r: usize)
        ensures
            r == self.names().len(),
    {
        self.keys.len()
    }

    /// The name at the given index.
    pub fn key_at(&self, index: usize) -> (r: &str)
        requires
            index < self.names().len(),
        ensures
            r@ == self.names()[index as int],
    {
        self.keys[index].as_str()
    }
}

} // verus!
