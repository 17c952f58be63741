//! Rows: ordered sequences of values indexed by column.
//!
//! A row is sparse at its tail: writing past the current length zero-extends
//! with `Null`, and reading past the end yields `Null` instead of failing.

use vstd::prelude::*;

use crate::value::Something;
use crate::value::ValView;

verus! {

/// The abstract content of a sequence of stored values.
pub open spec fn vals_view(s: Seq<Something>) -> Seq<ValView> {
    s.map_values(|v: Something| v@)
}

/// An ordered sequence of values, indexed by column number.
#[derive(Debug)]
pub struct Row {
    values: Vec<Something>,
}

impl View for Row {
    type V = Seq<ValView>;

    closed spec fn view(&self) -> Seq<ValView> {
        vals_view(self.values@)
    }
}

/// What reading column `i` of a row returns: the stored value, or `Null`
/// past the end.
pub open spec fn row_lookup(r: Seq<ValView>, i: int) -> ValView {
    if 0 <= i < r.len() {
        r[i]
    } else {
        ValView::Null
    }
}

/// What writing `v` at column `i` leaves behind: the row zero-extended with
/// `Null` up to `i`, then `v` stored at `i`.
pub open spec fn row_write(r: Seq<ValView>, v: ValView, i: int) -> Seq<ValView>
    recommends
        i >= 0,
{
    let padded = if r.len() > i {
        r
    } else {
        r + Seq::new((i + 1 - r.len()) as nat, |_j: int| ValView::Null)
    };
    padded.update(i, v)
}

/// Row defaulting: every column of a fresh row reads `Null`, a write is read
/// back exactly at its own column, and a write leaves every other column
/// reading as before — in particular the columns a sparse write skipped
/// still read `Null`.
pub proof fn lemma_row_defaulting(r: Seq<ValView>, v: ValView, i: int, j: int)
    requires
        i >= 0,
        j >= 0,
    ensures
        row_lookup(Seq::<ValView>::empty(), j) == ValView::Null,
        row_lookup(row_write(r, v, i), i) == v,
        j != i ==> row_lookup(row_write(r, v, i), j) == row_lookup(r, j),
{
}

impl Row {
    /// A fresh row with no columns.
    pub fn new() -> (r: Self)
        ensures
            r@ == Seq::<ValView>::empty(),
    {
        let r = Row { values: Vec::new() };
        proof {
            assert(r@ =~= Seq::<ValView>::empty());
        }
        r
    }

    /// The number of stored columns; columns at or past this read `Null`.
    pub fn len(&self) -> (n: usize)
        ensures
            n == self@.len(),
    {
        self.values.len()
    }

    /// Writes `value` at column `index`, zero-extending with `Null` first if
    /// the row is shorter.
    pub fn insert_at(&mut self, value: Something, index: usize)
        ensures
            final(self)@ == row_write(old(self)@, value@, index as int),
    {
        let ghost orig = self.values@;
        if self.values.len() <= index {
            while self.values.len() <= index
                invariant
                    orig.len() <= self.values@.len() <= index + 1,
                    self.values@.subrange(0, orig.len() as int) == orig,
                    forall|k: int|
                        orig.len() <= k < self.values@.len() ==> self.values@[k]
                            == Something::Null,
                decreases index + 1 - self.values.len(),
            {
                proof {
                    assert(self.values@.push(Something::Null).subrange(0, orig.len() as int)
                        =~= self.values@.subrange(0, orig.len() as int));
                }
                self.values.push(Something::Null);
            }
        }
        self.values.set(index, value);
        proof {
            let f = self@;
            let w = row_write(vals_view(orig), value@, index as int);
            assert(f.len() == w.len());
            assert forall|k: int| 0 <= k < f.len() implies f[k] == w[k] by {
                if k != index {
                    if k < orig.len() {
                        assert(self.values@[k] == orig.subrange(0, orig.len() as int)[k]);
                        assert(orig.subrange(0, orig.len() as int) =~= orig);
                    }
                }
            }
            assert(f =~= w);
        }
    }

    /// Reads column `index`, yielding `Null` past the end of the row.
    pub fn get(&self, index: usize) -> (r: Something)
        ensures
            r@ == row_lookup(self@, index as int),
    {
        if index < self.values.len() {
            self.values[index].clone()
        } else {
            Something::Null
        }
    }

    /// A new row holding this row's columns followed by `other`'s.
    pub fn merged(&self, other: &Row) -> (r: Row)
        ensures
            r@ == self@ + other@,
    {
        let mut values: Vec<Something> = Vec::new();
        let mut i: usize = 0;
        while i < self.values.len()
            invariant
                values@.len() == i,
                0 <= i <= self@.len(),
                self@.len() == self.values@.len(),
                forall|k: int| 0 <= k < i ==> values@[k]@ == self@[k],
            decreases self@.len() - i,
        {
            values.push(self.values[i].clone());
            i = i + 1;
        }
        let mut j: usize = 0;
        while j < other.values.len()
            invariant
                values@.len() == self@.len() + j,
                0 <= j <= other@.len(),
                self@.len() == self.values@.len(),
                other@.len() == other.values@.len(),
                forall|k: int| 0 <= k < self@.len() ==> values@[k]@ == self@[k],
                forall|k: int| 0 <= k < j ==> values@[self@.len() + k]@ == other@[k],
            decreases other@.len() - j,
        {
            values.push(other.values[j].clone());
            j = j + 1;
        }
        let r = Row { values };
        proof {
            assert(r@ =~= self@ + other@);
        }
        r
    }
}

impl Clone for Row {
    /// A clone carries exactly the same columns.
    fn clone(&self) -> (r: Self)
        ensures
            r@ == self@,
    {
        let empty = Row::new();
        let r = empty.merged(self);
        proof {
            assert(Seq::<ValView>::empty() + self@ =~= self@);
        }
        r
    }
}

impl PartialEq for Row {
    /// `==` decides equality of the abstract column sequences.
    fn eq(&self, other: &Self) -> (r: bool)
        ensures
            r == (self@ == other@),
    {
        if self.values.len() != other.values.len() {
            proof {
                assert(self@.len() == self.values@.len());
                assert(other@.len() == other.values@.len());
            }
            return false;
        }
        let mut i: usize = 0;
        while i < self.values.len()
            invariant
                0 <= i <= self@.len(),
                self@.len() == self.values@.len(),
                other@.len() == other.values@.len(),
                self@.len() == other@.len(),
                forall|k: int| 0 <= k < i ==> self@[k] == other@[k],
            decreases self@.len() - i,
        {
            if !self.values[i].eq(&other.values[i]) {
                proof {
                    assert(self@[i as int] == self.values@[i as int]@);
                    assert(other@[i as int] == other.values@[i as int]@);
                }
                return false;
            }
            i = i + 1;
        }
        proof {
            assert(self@ =~= other@);
        }
        true
    }
}

impl vstd::std_specs::cmp::PartialEqSpecImpl for Row {
    open spec fn obeys_eq_spec() -> bool {
        true
    }

    open spec fn eq_spec(&self, other: &Row) -> bool {
        self@ == other@
    }
}

} // verus!
