use crate::ids::ColumnKey;
use crate::key::Key;
use crate::storage::dense::{DenseMap, DenseSet};
use std::marker::PhantomData;
use vstd::prelude::*;

verus! {

/// One value taken out of a column, or on its way into one.
pub struct ColumnCell<T> {
    data: T,
}

impl<T> View for ColumnCell<T> {
    type V = T;

    closed spec fn view(&self) -> T {
        self.data
    }
}

impl<T> ColumnCell<T> {
    pub fn from(value: T) -> (r: Self)
        ensures
            r@ == value,
    {
        ColumnCell { data: value }
    }

    pub fn value(&self) -> (r: &T)
        ensures
            *r == self@,
    {
        &self.data
    }

    pub fn value_mut(&mut self) -> (r: &mut T)
        ensures
            *r == old(self)@,
            final(self)@ == *final(r),
    {
        &mut self.data
    }

    pub fn take(self) -> (r: T)
        ensures
            r == self@,
    {
        self.data
    }
}

/// The values of one field, one per row of a table, in row order.
pub struct Column<T> {
    data: Vec<T>,
}

impl<T> View for Column<T> {
    type V = Seq<T>;

    closed spec fn view(&self) -> Seq<T> {
        self.data@
    }
}

/// A position in a column, checked to be in range when it was made.
pub struct SelectedCell<'a, T> {
    column: &'a Column<T>,
    index: usize,
}

impl<'a, T> SelectedCell<'a, T> {
    pub closed spec fn values(&self) -> Seq<T> {
        self.column@
    }

    pub closed spec fn position(&self) -> int {
        self.index as int
    }

    fn new(column: &'a Column<T>, index: usize) -> (r: Self)
        ensures
            r.values() == column@,
            r.position() == index,
    {
        SelectedCell { column, index }
    }

    /// The value at the selected position.
    pub fn value(&self) -> (r: Option<&T>)
        ensures
            r == (if 0 <= self.position() < self.values().len() {
                Some(&self.values()[self.position()])
            } else {
                None::<&T>
            }),
    {
        self.column.get(self.index)
    }
}

impl<T> Column<T> {
    pub fn new() -> (r: Self)
        ensures
            r@ == Seq::<T>::empty(),
    {
        Column { data: Vec::new() }
    }

    /// An empty column for the same field as `column`.
    pub fn copy(column: &Column<T>) -> (r: Self)
        ensures
            r@ == Seq::<T>::empty(),
    {
        Column::new()
    }

    /// An empty column for the field of `cell`.
    pub fn copy_cell(cell: &ColumnCell<T>) -> (r: Self)
        ensures
            r@ == Seq::<T>::empty(),
    {
        Column::new()
    }

    /// A column that holds the value of `cell` alone.
    pub fn from_cell(cell: ColumnCell<T>) -> (r: Self)
        ensures
            r@ == seq![cell@],
    {
        let mut data = Vec::new();
        data.push(cell.take());
        Column { data }
    }

    pub fn get(&self, index: usize) -> (r: Option<&T>)
        ensures
            r == (if index < self@.len() {
                Some(&self@[index as int])
            } else {
                None::<&T>
            }),
    {
        if index < self.data.len() {
            Some(&self.data[index])
        } else {
            None
        }
    }

    pub fn get_mut(&mut self, index: usize) -> (r: Option<&mut T>)
        ensures
            index < old(self)@.len() ==> r is Some,
            index >= old(self)@.len() ==> r is None,
            match r {
                Some(v) => {
                    &&& *v == old(self)@[index as int]
                    &&& final(self)@ == old(self)@.update(index as int, *final(v))
                },
                None => *final(self) == *old(self),
            },
    {
        if index < self.data.len() {
            Some(&mut self.data[index])
        } else {
            None
        }
    }

    pub fn push(&mut self, value: T)
        ensures
            final(self)@ == old(self)@.push(value),
    {
        self.data.push(value);
    }

    pub fn insert(&mut self, index: usize, value: T)
        requires
            index <= old(self)@.len(),
        ensures
            final(self)@ == old(self)@.insert(index as int, value),
    {
        self.data.insert(index, value);
    }

    /// Moves the values of `column` to the end of this one.
    pub fn extend(&mut self, column: Column<T>)
        ensures
            final(self)@ == old(self)@ + column@,
    {
        let mut other = column;
        self.data.append(&mut other.data);
    }

    /// Moves the values of `other` to the end of this one, leaving it empty.
    pub fn append(&mut self, other: &mut Column<T>)
        ensures
            final(self)@ == old(self)@ + old(other)@,
            final(other)@ == Seq::<T>::empty(),
    {
        self.data.append(&mut other.data);
    }

    pub fn remove(&mut self, index: usize) -> (r: T)
        requires
            index < old(self)@.len(),
        ensures
            r == old(self)@[index as int],
            final(self)@ == old(self)@.remove(index as int),
    {
        self.data.remove(index)
    }

    /// Takes out the value at `index`, moving the last one into its place.
    pub fn swap_remove(&mut self, index: usize) -> (r: T)
        requires
            index < old(self)@.len(),
        ensures
            r == old(self)@[index as int],
            final(self)@ == old(self)@.update(index as int, old(self)@.last()).drop_last(),
    {
        self.data.swap_remove(index)
    }

    /// The position `index`, where it is in range.
    pub fn select(&self, index: usize) -> (r: Option<SelectedCell<'_, T>>)
        ensures
            index >= self@.len() ==> r is None,
            index < self@.len() ==> r is Some && r->0.values() == self@ && r->0.position()
                == index,
    {
        if index >= self.len() {
            None
        } else {
            Some(SelectedCell::new(self, index))
        }
    }

    pub fn push_cell(&mut self, cell: ColumnCell<T>)
        ensures
            final(self)@ == old(self)@.push(cell@),
    {
        self.data.push(cell.take());
    }

    pub fn insert_cell(&mut self, index: usize, cell: ColumnCell<T>)
        requires
            index <= old(self)@.len(),
        ensures
            final(self)@ == old(self)@.insert(index as int, cell@),
    {
        self.data.insert(index, cell.take());
    }

    pub fn remove_cell(&mut self, index: usize) -> (r: ColumnCell<T>)
        requires
            index < old(self)@.len(),
        ensures
            r@ == old(self)@[index as int],
            final(self)@ == old(self)@.remove(index as int),
    {
        ColumnCell::from(self.data.remove(index))
    }

    /// Takes out the value at `index` as a cell, moving the last value into
    /// its place.
    pub fn swap_remoe_cell(&mut self, index: usize) -> (r: ColumnCell<T>)
        requires
            index < old(self)@.len(),
        ensures
            r@ == old(self)@[index as int],
            final(self)@ == old(self)@.update(index as int, old(self)@.last()).drop_last(),
    {
        ColumnCell::from(self.data.swap_remove(index))
    }

    pub fn len(&self) -> (r: usize)
        ensures
            r == self@.len(),
    {
        self.data.len()
    }

    pub fn is_empty(&self) -> (r: bool)
        ensures
            r == (self@.len() == 0),
    {
        self.data.len() == 0
    }

    pub fn clear(&mut self)
        ensures
            final(self)@ == Seq::<T>::empty(),
    {
        self.data.clear();
    }
}

/// The fields of one row, each under its column key, in the order they were
/// added.
pub struct Row<T> {
    columns: DenseMap<ColumnKey, ColumnCell<T>>,
}

impl<T> Row<T> {
    pub closed spec fn entries(&self) -> DenseMap<ColumnKey, ColumnCell<T>> {
        self.columns
    }

    /// No key occurs twice, and the index records each at its position.
    pub open spec fn wf(&self) -> bool {
        &&& self.entries().wf()
        &&& self.entries().is_proper()
    }

    pub open spec fn keys_seq(&self) -> Seq<ColumnKey> {
        self.entries().key_seq()
    }

    pub open spec fn has(&self, key: ColumnKey) -> bool {
        self.entries().has(key)
    }

    /// The value under `key`.
    pub open spec fn value_of(&self, key: ColumnKey) -> T {
        self.entries().lookup(key)@
    }

    /// A well formed row has a value under `key` exactly when `key` is one
    /// of its keys.
    pub proof fn lemma_has_iff_contains(&self, key: ColumnKey)
        requires
            self.wf(),
        ensures
            self.has(key) <==> self.keys_seq().contains(key),
    {
        self.columns.lemma_has_iff_listed(key);
        if self.keys_seq().contains(key) {
            let i = choose|i: int| 0 <= i < self.keys_seq().len() && self.keys_seq()[i] == key;
            assert(self.keys_seq()[i].spec_key() == key.spec_key());
        }
        if self.has(key) {
            let i = choose|i: int|
                0 <= i < self.keys_seq().len() && #[trigger] self.keys_seq()[i].spec_key()
                    == key.spec_key();
            assert(self.keys_seq()[i] == key);
        }
    }

    pub fn new() -> (r: Self)
        ensures
            r.wf(),
            r.keys_seq() == Seq::<ColumnKey>::empty(),
            r.entries().value_seq() == Seq::<ColumnCell<T>>::empty(),
            r.entries().index_map() == Map::<u64, usize>::empty(),
    {
        Row { columns: DenseMap::new() }
    }

    pub fn columns(&self) -> (r: &[ColumnKey])
        ensures
            r@ == self.keys_seq(),
    {
        self.columns.keys()
    }

    pub fn fields(&self) -> (r: &[ColumnKey])
        ensures
            r@ == self.keys_seq(),
    {
        self.columns.keys()
    }

    /// Puts `cell` under `key`, handing back the cell it replaces.
    pub fn add_cell(&mut self, key: ColumnKey, cell: ColumnCell<T>) -> (r: Option<ColumnCell<T>>)
        requires
            old(self).wf(),
        ensures
            final(self).wf(),
            old(self).entries().inserted(&final(self).entries(), key, cell, r),
    {
        self.columns.insert(key, cell)
    }

    /// Puts `value` under the key of the type `C`, handing back the cell it
    /// replaces.
    pub fn add_field<C: 'static>(&mut self, value: T) -> (r: Option<ColumnCell<T>>)
        requires
            old(self).wf(),
        ensures
            final(self).wf(),
            exists|key: ColumnKey, cell: ColumnCell<T>|
                cell@ == value && old(self).entries().inserted(&final(self).entries(), key, cell, r),
    {
        let key = ColumnKey::from::<C>();
        self.add_cell(key, ColumnCell::from(value))
    }

    /// Takes out the cell under `key`; the keys after it move up.
    pub fn remove_cell(&mut self, key: ColumnKey) -> (r: Option<ColumnCell<T>>)
        requires
            old(self).wf(),
        ensures
            final(self).wf(),
            old(self).has(key) ==> {
                let i = old(self).entries().slot(key);
                &&& r == Some(old(self).entries().value_seq()[i])
                &&& final(self).keys_seq() == old(self).keys_seq().remove(i)
                &&& final(self).entries().value_seq() == old(self).entries().value_seq().remove(i)
            },
            !old(self).has(key) ==> r is None && final(self).entries().same_contents(&old(self).entries()),
            !final(self).has(key),
            forall|k: ColumnKey|
                k != key ==> #[trigger] final(self).entries().same_entry(&old(self).entries(), k),
    {
        let r = self.columns.remove(&key);
        proof {
            if !old(self).has(key) {
                assert(self.columns.key_seq() == old(self).columns.key_seq());
            }
        }
        r
    }

    /// Takes out the value under the key of the type `C`.
    pub fn remove_field<C: 'static>(&mut self) -> (r: Option<T>)
        requires
            old(self).wf(),
        ensures
            final(self).wf(),
            exists|key: ColumnKey|
                {
                    &&& old(self).has(key) ==> r == Some(old(self).value_of(key))
                    &&& !old(self).has(key) ==> r is None
                    &&& !final(self).has(key)
                    &&& old(self).has(key) ==> {
                        let i = old(self).entries().slot(key);
                        &&& final(self).keys_seq() == old(self).keys_seq().remove(i)
                        &&& final(self).entries().value_seq() == old(self).entries().value_seq().remove(i)
                    }
                    &&& !old(self).has(key) ==> final(self).entries().same_contents(&old(self).entries())
                    &&& forall|k: ColumnKey|
                        k != key ==> #[trigger] final(self).entries().same_entry(&old(self).entries(), k)
                },
    {
        let key = ColumnKey::from::<C>();
        match self.remove_cell(key) {
            Some(cell) => Some(cell.take()),
            None => None,
        }
    }

    pub fn cell(&self, key: &ColumnKey) -> (r: Option<&ColumnCell<T>>)
        requires
            self.wf(),
        ensures
            self.has(*key) ==> r == Some(&self.entries().lookup(*key)),
            !self.has(*key) ==> r is None,
    {
        self.columns.get(key)
    }

    pub fn cell_mut(&mut self, key: &ColumnKey) -> (r: Option<&mut ColumnCell<T>>)
        requires
            old(self).wf(),
        ensures
            old(self).has(*key) ==> r is Some,
            !old(self).has(*key) ==> r is None,
            match r {
                Some(c) => {
                    let i = old(self).entries().slot(*key);
                    &&& *c == old(self).entries().value_seq()[i]
                    &&& final(self).entries().value_seq() == old(self).entries().value_seq().update(
                        i,
                        *final(c),
                    )
                    &&& final(self).keys_seq() == old(self).keys_seq()
                    &&& final(self).entries().index_map() == old(self).entries().index_map()
                    &&& final(self).wf()
                },
                None => *final(self) == *old(self),
            },
    {
        proof {
            assert(self.columns.in_range(*key));
        }
        self.columns.get_mut(key)
    }

    /// The value under the key of the type `C`.
    pub fn field<C: 'static>(&self) -> (r: Option<&T>)
        requires
            self.wf(),
        ensures
            exists|key: ColumnKey|
                {
                    &&& self.has(key) ==> r == Some(&self.value_of(key))
                    &&& !self.has(key) ==> r is None
                },
    {
        let key = ColumnKey::from::<C>();
        let r = match self.columns.get(&key) {
            Some(cell) => Some(cell.value()),
            None => None,
        };
        proof {
            assert(self.has(key) ==> r == Some(&self.value_of(key)));
        }
        r
    }

    /// The value under the key of the type `C`, to change in place.
    pub fn field_mut<C: 'static>(&mut self) -> (r: Option<&mut T>)
        requires
            old(self).wf(),
        ensures
            exists|key: ColumnKey|
                #![trigger old(self).has(key)]
                {
                    &&& old(self).has(key) ==> r is Some && *r->0 == old(self).value_of(key)
                        && final(self).has(key)
                    &&& !old(self).has(key) ==> r is None && final(self).entries().same_contents(
                        &old(self).entries(),
                    )
                    &&& r matches Some(v) ==> final(self).value_of(key) == *final(v)
                    &&& forall|k: ColumnKey|
                        k.spec_key() != key.spec_key() && #[trigger] old(self).has(k)
                            ==> final(self).has(k) && final(self).value_of(k) == old(self).value_of(k)
                },
            final(self).keys_seq() == old(self).keys_seq(),
            final(self).wf(),
    {
        let key = ColumnKey::from::<C>();
        proof {
            assert(self.columns.in_range(key));
            self.columns.lemma_wf();
        }
        match self.columns.index_of_key(&key) {
            Some(i) => {
                let cell = self.columns.value_at_mut(i);
                let v = cell.value_mut();
                proof {
                    assert(old(self).has(key));
                    assert forall|k: ColumnKey|
                        k.spec_key() != key.spec_key() && #[trigger] old(self).has(k)
                        implies old(self).entries().slot(k) != i by {
                        assert(old(self).keys_seq()[old(self).entries().slot(k)].spec_key()
                            == k.spec_key());
                        assert(old(self).keys_seq()[i as int].spec_key() == key.spec_key());
                    }
                }
                Some(v)
            },
            None => {
                proof {
                    assert(!old(self).has(key));
                }
                None
            },
        }
    }

    /// Each key with its cell, in order.
    pub fn iter(&self) -> (r: Vec<(&ColumnKey, &ColumnCell<T>)>)
        requires
            self.wf(),
        ensures
            r@.len() == self.keys_seq().len(),
            forall|i: int|
                0 <= i < r@.len() ==> *(#[trigger] r@[i]).0 == self.keys_seq()[i] && *r@[i].1
                    == self.entries().value_seq()[i],
    {
        let keys = self.columns.keys();
        let cells = self.columns.values();
        proof {
            self.columns.lemma_wf();
        }
        let mut out: Vec<(&ColumnKey, &ColumnCell<T>)> = Vec::new();
        let mut i: usize = 0;
        while i < keys.len()
            invariant
                keys@ == self.keys_seq(),
                cells@ == self.entries().value_seq(),
                keys@.len() == cells@.len(),
                i <= keys@.len(),
                out@.len() == i,
                forall|j: int|
                    0 <= j < i ==> *(#[trigger] out@[j]).0 == keys@[j] && *out@[j].1 == cells@[j],
            decreases keys@.len() - i,
        {
            out.push((&keys[i], &cells[i]));
            i = i + 1;
        }
        out
    }

    pub fn contains(&self, key: &ColumnKey) -> (r: bool)
        ensures
            r == self.has(*key),
    {
        self.columns.contains(key)
    }

    /// Empties the row, handing back each key with its cell, in order.
    pub fn drain(&mut self) -> (r: Vec<(ColumnKey, ColumnCell<T>)>)
        requires
            old(self).wf(),
        ensures
            final(self).wf(),
            r@ == crate::storage::dense::pairs(old(self).keys_seq(), old(self).entries().value_seq()),
            final(self).keys_seq() == Seq::<ColumnKey>::empty(),
            final(self).entries().value_seq() == Seq::<ColumnCell<T>>::empty(),
    {
        self.columns.drain()
    }

    /// Orders the keys by their numbers; the cells keep their positions.
    pub fn sort(&mut self)
        requires
            old(self).wf(),
        ensures
            final(self).wf(),
            crate::storage::dense::sorted_by_key(final(self).keys_seq()),
            final(self).keys_seq().to_multiset() == old(self).keys_seq().to_multiset(),
            final(self).entries().value_seq() == old(self).entries().value_seq(),
    {
        self.columns.sort();
    }
}

impl<T> Row<T> {
    /// A layout with an empty column for each field of this row, in order.
    pub fn table_layout<R: Key>(&self) -> (r: TableLayout<R, T>)
        requires
            self.wf(),
        ensures
            r.layout().wf(),
            r.layout().is_proper(),
            r.layout().key_seq() == self.keys_seq(),
            forall|i: int|
                0 <= i < r.layout().value_seq().len() ==> (#[trigger] r.layout().value_seq()[i])@
                    == Seq::<T>::empty(),
    {
        let mut layout = TableLayout::new();
        let keys = self.columns.keys();
        let cells = self.columns.values();
        proof {
            self.columns.lemma_wf();
            self.columns.lemma_proper_distinct();
        }
        let mut i: usize = 0;
        while i < keys.len()
            invariant
                keys@ == self.keys_seq(),
                cells@ == self.entries().value_seq(),
                keys@.len() == cells@.len(),
                crate::storage::dense::distinct_keys(keys@),
                i <= keys@.len(),
                layout.layout().wf(),
                layout.layout().is_proper(),
                layout.layout().key_seq() == keys@.subrange(0, i as int),
                forall|j: int|
                    0 <= j < layout.layout().value_seq().len() ==> (
                    #[trigger] layout.layout().value_seq()[j])@ == Seq::<T>::empty(),
            decreases keys@.len() - i,
        {
            let key = keys[i];
            proof {
                if layout.layout().has(key) {
                    let p = layout.layout().slot(key);
                    assert(keys@[p].spec_key() == key.spec_key());
                    assert(keys@[p].spec_key() != keys@[i as int].spec_key());
                }
            }
            layout.add_column(key, Column::copy_cell(&cells[i]));
            assert(layout.layout().key_seq() =~= keys@.subrange(0, i + 1));
            i = i + 1;
        }
        assert(keys@.subrange(0, i as int) =~= keys@);
        layout
    }
}

/// The columns that a table is to have, before it has rows.
pub struct TableLayout<R, T> {
    columns: DenseMap<ColumnKey, Column<T>>,
    _row: PhantomData<R>,
}

impl<R: Key, T> TableLayout<R, T> {
    pub closed spec fn layout(&self) -> DenseMap<ColumnKey, Column<T>> {
        self.columns
    }

    pub fn new() -> (r: Self)
        ensures
            r.layout().wf(),
            r.layout().is_proper(),
            r.layout().key_seq() == Seq::<ColumnKey>::empty(),
            r.layout().value_seq() == Seq::<Column<T>>::empty(),
    {
        TableLayout { columns: DenseMap::new(), _row: PhantomData }
    }

    /// Puts `column` under `key`, in place of any column there.
    pub fn add_column(&mut self, key: ColumnKey, column: Column<T>) -> (r: &mut Self)
        requires
            old(self).layout().wf(),
            old(self).layout().is_proper(),
        ensures
            *final(self) == *final(r),
            r.layout().wf(),
            r.layout().is_proper(),
            old(self).layout().inserted(&r.layout(), key, column, None::<Column<T>>)
                || (old(self).layout().has(key) && exists|c: Column<T>|
                old(self).layout().inserted(&r.layout(), key, column, Some(c))),
    {
        let replaced = self.columns.insert(key, column);
        self
    }

    pub fn with_column(self, key: ColumnKey, column: Column<T>) -> (r: Self)
        requires
            self.layout().wf(),
            self.layout().is_proper(),
        ensures
            r.layout().wf(),
            r.layout().is_proper(),
            exists|c: Option<Column<T>>| self.layout().inserted(&r.layout(), key, column, c),
    {
        let mut layout = self;
        let replaced = layout.columns.insert(key, column);
        assert(self.layout().inserted(&layout.layout(), key, column, replaced));
        layout
    }

    /// Adds an empty column under the key of the type `C`.
    pub fn add_field<C: 'static>(&mut self) -> (r: &mut Self)
        requires
            old(self).layout().wf(),
            old(self).layout().is_proper(),
        ensures
            *final(self) == *final(r),
            r.layout().wf(),
            r.layout().is_proper(),
            exists|key: ColumnKey, column: Column<T>, c: Option<Column<T>>|
                column@ == Seq::<T>::empty() && old(self).layout().inserted(
                    &r.layout(),
                    key,
                    column,
                    c,
                ),
    {
        let key = ColumnKey::from::<C>();
        let column = Column::new();
        let ghost c0 = column;
        let replaced = self.columns.insert(key, column);
        assert(old(self).layout().inserted(&self.layout(), key, c0, replaced));
        self
    }

    pub fn with_field<C: 'static>(self) -> (r: Self)
        requires
            self.layout().wf(),
            self.layout().is_proper(),
        ensures
            r.layout().wf(),
            r.layout().is_proper(),
            exists|key: ColumnKey, column: Column<T>, c: Option<Column<T>>|
                column@ == Seq::<T>::empty() && self.layout().inserted(&r.layout(), key, column, c),
    {
        let mut layout = self;
        let key = ColumnKey::from::<C>();
        let column = Column::new();
        let ghost c0 = column;
        let replaced = layout.columns.insert(key, column);
        assert(self.layout().inserted(&layout.layout(), key, c0, replaced));
        layout
    }

    /// A table with these columns and no rows.
    pub fn build(self) -> (r: Table<R, T>)
        ensures
            r.col_map() == self.layout(),
            r.row_set().key_seq() == Seq::<R>::empty(),
            r.row_set().index_map() == Map::<u64, usize>::empty(),
    {
        Table { columns: self.columns, rows: DenseSet::new() }
    }
}

/// Rows, each under its own key, stored column by column: the value of a
/// row in a column sits at the position of the row.
pub struct Table<R: Key, T> {
    columns: DenseMap<ColumnKey, Column<T>>,
    rows: DenseSet<R>,
}

/// One row of a table, read through the table's columns.
pub struct SelectedRow<'a, T> {
    columns: &'a DenseMap<ColumnKey, Column<T>>,
    index: usize,
}

impl<'a, T> SelectedRow<'a, T> {
    pub closed spec fn col_map(&self) -> DenseMap<ColumnKey, Column<T>> {
        *self.columns
    }

    pub closed spec fn position(&self) -> int {
        self.index as int
    }

    pub fn new(columns: &'a DenseMap<ColumnKey, Column<T>>, index: usize) -> (r: Self)
        ensures
            r.col_map() == *columns,
            r.position() == index,
    {
        SelectedRow { columns, index }
    }

    /// The value of this row under `key`, where there is one.
    pub open spec fn value_spec(&self, key: ColumnKey) -> Option<T> {
        if self.col_map().has(key) && 0 <= self.position() < self.col_map().lookup(key)@.len() {
            Some(self.col_map().lookup(key)@[self.position()])
        } else {
            None
        }
    }

    /// The value of this row in the column of the type `C`.
    pub fn field<C: 'static>(&self) -> (r: Option<&T>)
        requires
            self.col_map().wf(),
            self.col_map().is_proper(),
        ensures
            exists|key: ColumnKey|
                #![trigger self.value_spec(key)]
                match self.value_spec(key) {
                    Some(v) => r == Some(&v),
                    None => r is None,
                },
    {
        let key = ColumnKey::from::<C>();
        let r = match self.columns.get(&key) {
            Some(column) => column.get(self.index),
            None => None,
        };
        proof {
            let v = self.value_spec(key);
        }
        r
    }

    /// The position of this row in the column under `key`.
    pub fn cell(&self, key: &ColumnKey) -> (r: Option<SelectedCell<'_, T>>)
        requires
            self.col_map().wf(),
            self.col_map().is_proper(),
        ensures
            self.value_spec(*key) is Some ==> r is Some && r->0.values() == self.col_map().lookup(
                *key,
            )@ && r->0.position() == self.position(),
            self.value_spec(*key) is None ==> r is None,
    {
        match self.columns.get(key) {
            Some(column) => column.select(self.index),
            None => None,
        }
    }

    pub fn cell_mut(&self, key: &ColumnKey) -> (r: Option<SelectedCell<'_, T>>)
        requires
            self.col_map().wf(),
            self.col_map().is_proper(),
        ensures
            self.value_spec(*key) is Some ==> r is Some && r->0.values() == self.col_map().lookup(
                *key,
            )@ && r->0.position() == self.position(),
            self.value_spec(*key) is None ==> r is None,
    {
        self.cell(key)
    }

    pub fn fields(&self) -> (r: &[ColumnKey])
        ensures
            r@ == self.col_map().key_seq(),
    {
        self.columns.keys()
    }
}

impl<R: Key, T> Table<R, T> {
    pub closed spec fn col_map(&self) -> DenseMap<ColumnKey, Column<T>> {
        self.columns
    }

    pub closed spec fn row_set(&self) -> DenseSet<R> {
        self.rows
    }

    /// No column key occurs twice, and the index records each at its
    /// position.
    pub open spec fn wf(&self) -> bool {
        &&& self.col_map().wf()
        &&& self.col_map().is_proper()
    }

    /// Every column holds one value per row.
    pub open spec fn aligned(&self) -> bool {
        forall|i: int|
            0 <= i < self.col_map().value_seq().len() ==> (#[trigger] self.col_map().value_seq()[i])@.len()
                == self.row_set().key_seq().len()
    }

    /// The position that the table records for the row `index`.
    pub open spec fn row_pos(&self, index: R) -> int {
        self.row_set().slot(index)
    }

    /// The value of the row `index` in the column under `key`, where there
    /// is one.
    pub open spec fn item_spec(&self, key: ColumnKey, index: R) -> Option<T> {
        if self.row_set().has(index) && self.col_map().has(key) && 0 <= self.row_pos(index)
            < self.col_map().lookup(key)@.len() {
            Some(self.col_map().lookup(key)@[self.row_pos(index)])
        } else {
            None
        }
    }

    /// What `insert(index, row)` leaves, from `self`: each column gains the
    /// value of `row` under its key, and the row set gains `index`.
    pub open spec fn inserted_row(&self, new: &Self, index: R, row: Row<T>) -> bool {
        &&& new.col_map().key_seq() == self.col_map().key_seq()
        &&& new.col_map().index_map() == self.col_map().index_map()
        &&& new.col_map().value_seq().len() == self.col_map().value_seq().len()
        &&& forall|i: int|
            0 <= i < self.col_map().value_seq().len() ==> (#[trigger] new.col_map().value_seq()[i])@
                == self.col_map().value_seq()[i]@.push(row.value_of(self.col_map().key_seq()[i]))
        &&& new.row_set().key_seq() == self.row_set().key_seq().push(index)
        &&& new.row_set().index_map() == self.row_set().index_map().insert(
            index.spec_key(),
            self.row_set().key_seq().len() as usize,
        )
    }

    /// What `remove(index)` returns and leaves, from `self`: the last row
    /// moves into the position of `index`, whose values come back as a row
    /// with the columns' keys in order; the index keeps its entry for
    /// `index`.
    pub open spec fn removed_row(&self, new: &Self, index: R, r: Option<Row<T>>) -> bool {
        &&& !self.row_set().has(index) ==> r is None && *new == *self
        &&& self.row_set().has(index) ==> {
            let p = self.row_pos(index);
            let rows = self.row_set().key_seq();
            let cols = self.col_map();
            &&& r is Some
            &&& r->0.wf()
            &&& r->0.keys_seq() == cols.key_seq()
            &&& forall|i: int|
                0 <= i < cols.key_seq().len() ==> r->0.value_of(#[trigger] cols.key_seq()[i])
                    == cols.value_seq()[i]@[p]
            &&& new.col_map().key_seq() == cols.key_seq()
            &&& new.col_map().index_map() == cols.index_map()
            &&& new.col_map().value_seq().len() == cols.value_seq().len()
            &&& forall|i: int|
                0 <= i < cols.value_seq().len() ==> (#[trigger] new.col_map().value_seq()[i])@
                    == cols.value_seq()[i]@.update(p, cols.value_seq()[i]@.last()).drop_last()
            &&& new.row_set().key_seq() == rows.update(p, rows.last()).drop_last()
            &&& p + 1 < rows.len() ==> new.row_set().index_map() == self.row_set().index_map().insert(
                rows.last().spec_key(),
                p as usize,
            )
            &&& p + 1 == rows.len() ==> new.row_set().index_map() == self.row_set().index_map()
        }
    }

    pub fn builder() -> (r: TableLayout<R, T>)
        ensures
            r.layout().wf(),
            r.layout().is_proper(),
            r.layout().key_seq() == Seq::<ColumnKey>::empty(),
            r.layout().value_seq() == Seq::<Column<T>>::empty(),
    {
        TableLayout::new()
    }

    pub fn rows(&self) -> (r: &[R])
        ensures
            r@ == self.row_set().key_seq(),
    {
        self.rows.keys()
    }

    pub fn columns(&self) -> (r: &[ColumnKey])
        ensures
            r@ == self.col_map().key_seq(),
    {
        self.columns.keys()
    }

    /// The value of the row `index` in the column under `key`.
    pub fn item(&self, key: &ColumnKey, index: R) -> (r: Option<&T>)
        requires
            self.wf(),
        ensures
            match self.item_spec(*key, index) {
                Some(v) => r == Some(&v),
                None => r is None,
            },
    {
        let pos = match self.rows.index_of(&index) {
            Some(p) => p,
            None => {
                return None;
            },
        };
        match self.columns.get(key) {
            Some(column) => column.get(pos),
            None => None,
        }
    }

    /// The value of the row `index` in the column of the type `C`.
    pub fn field<C: 'static>(&self, index: R) -> (r: Option<&T>)
        requires
            self.wf(),
        ensures
            exists|key: ColumnKey|
                #![trigger self.item_spec(key, index)]
                match self.item_spec(key, index) {
                    Some(v) => r == Some(&v),
                    None => r is None,
                },
    {
        let key = ColumnKey::from::<C>();
        let r = self.item(&key, index);
        proof {
            let v = self.item_spec(key, index);
        }
        r
    }

    /// The value of the row `index` in the column under `key`, to change in
    /// place.
    pub fn item_mut(&mut self, key: &ColumnKey, index: R) -> (r: Option<&mut T>)
        requires
            old(self).wf(),
        ensures
            final(self).wf(),
            final(self).row_set() == old(self).row_set(),
            final(self).col_map().key_seq() == old(self).col_map().key_seq(),
            final(self).col_map().index_map() == old(self).col_map().index_map(),
            old(self).item_spec(*key, index) is Some <==> r is Some,
            r is Some ==> *r->0 == old(self).item_spec(*key, index)->0,
            r matches Some(v) ==> final(self).item_spec(*key, index) == Some(*final(v)),
            forall|k: ColumnKey, i: R|
                k.spec_key() != key.spec_key() || !old(self).row_set().has(index) || old(
                    self,
                ).row_pos(i) != old(self).row_pos(index) ==> #[trigger] final(self).item_spec(k, i)
                    == old(self).item_spec(k, i),
    {
        let pos = match self.rows.index_of(&index) {
            Some(p) => p,
            None => {
                return None;
            },
        };
        proof {
            assert(self.columns.in_range(*key));
            self.columns.lemma_wf();
        }
        let ci = match self.columns.index_of_key(key) {
            Some(c) => c,
            None => {
                return None;
            },
        };
        let column = self.columns.value_at_mut(ci);
        proof {
            assert(*column == old(self).columns.lookup(*key));
            assert(pos == old(self).row_pos(index));
        }
        column.get_mut(pos)
    }

    /// The value of the row `index` in the column of the type `C`, to change
    /// in place.
    pub fn field_mut<C: 'static>(&mut self, index: R) -> (r: Option<&mut T>)
        requires
            old(self).wf(),
        ensures
            final(self).wf(),
            final(self).row_set() == old(self).row_set(),
            final(self).col_map().key_seq() == old(self).col_map().key_seq(),
            exists|key: ColumnKey|
                #![trigger old(self).item_spec(key, index)]
                {
                    &&& old(self).item_spec(key, index) is Some <==> r is Some
                    &&& r is Some ==> *r->0 == old(self).item_spec(key, index)->0
                    &&& r matches Some(v) ==> final(self).item_spec(key, index) == Some(*final(v))
                    &&& forall|k: ColumnKey, i: R|
                        k.spec_key() != key.spec_key() || !old(self).row_set().has(index)
                            || old(self).row_pos(i) != old(self).row_pos(index)
                            ==> #[trigger] final(self).item_spec(k, i) == old(self).item_spec(k, i)
                },
    {
        let key = ColumnKey::from::<C>();
        let r = self.item_mut(&key, index);
        proof {
            let v = old(self).item_spec(key, index);
        }
        r
    }

    /// The position of the row `index` in the column under `key`.
    pub fn cell(&self, key: &ColumnKey, index: R) -> (r: Option<SelectedCell<'_, T>>)
        requires
            self.wf(),
        ensures
            self.item_spec(*key, index) is Some ==> r is Some && r->0.values() == self.col_map().lookup(
                *key,
            )@ && r->0.position() == self.row_pos(index),
            self.item_spec(*key, index) is None ==> r is None,
    {
        let pos = match self.rows.index_of(&index) {
            Some(p) => p,
            None => {
                return None;
            },
        };
        match self.columns.get(key) {
            Some(column) => column.select(pos),
            None => None,
        }
    }

    pub fn cell_mut(&self, key: &ColumnKey, index: R) -> (r: Option<SelectedCell<'_, T>>)
        requires
            self.wf(),
        ensures
            self.item_spec(*key, index) is Some ==> r is Some && r->0.values() == self.col_map().lookup(
                *key,
            )@ && r->0.position() == self.row_pos(index),
            self.item_spec(*key, index) is None ==> r is None,
    {
        self.cell(key, index)
    }

    /// The row `index`, read through the columns.
    pub fn select(&self, index: R) -> (r: Option<SelectedRow<'_, T>>)
        ensures
            self.row_set().has(index) ==> r is Some && r->0.col_map() == self.col_map()
                && r->0.position() == self.row_pos(index),
            !self.row_set().has(index) ==> r is None,
    {
        match self.rows.index_of(&index) {
            Some(pos) => Some(SelectedRow::new(&self.columns, pos)),
            None => None,
        }
    }

    /// Appends the row `index`, taking from `row` the value for each column.
    pub fn insert(&mut self, index: R, row: Row<T>)
        requires
            old(self).wf(),
            row.wf(),
            forall|i: int|
                0 <= i < old(self).col_map().key_seq().len() ==> row.has(
                    #[trigger] old(self).col_map().key_seq()[i],
                ),
        ensures
            final(self).wf(),
            old(self).inserted_row(&*final(self), index, row),
            old(self).aligned() ==> final(self).aligned(),
    {
        self.rows.insert(index);
        let ghost rows1 = self.rows;
        let mut row = row;
        let ghost row0 = row;
        let ghost cols0 = self.columns;
        proof {
            self.columns.lemma_wf();
            self.columns.lemma_proper_distinct();
        }
        let n = self.columns.len();
        let mut i: usize = 0;
        while i < n
            invariant
                i <= n,
                n == cols0.value_seq().len(),
                n == cols0.key_seq().len(),
                cols0 == old(self).col_map(),
                self.rows == rows1,
                crate::storage::dense::distinct_keys(cols0.key_seq()),
                self.columns.wf(),
                self.columns.key_seq() == cols0.key_seq(),
                self.columns.index_map() == cols0.index_map(),
                self.columns.value_seq().len() == n,
                row.wf(),
                forall|j: int|
                    i <= j < n ==> #[trigger] row.has(cols0.key_seq()[j]) && row.value_of(
                        cols0.key_seq()[j],
                    ) == row0.value_of(cols0.key_seq()[j]),
                forall|j: int|
                    0 <= j < i ==> (#[trigger] self.columns.value_seq()[j])@ == cols0.value_seq()[j]@.push(
                        row0.value_of(cols0.key_seq()[j]),
                    ),
                forall|j: int|
                    i <= j < n ==> #[trigger] self.columns.value_seq()[j] == cols0.value_seq()[j],
            decreases n - i,
        {
            let field = self.columns.key_at(i);
            let ghost before = row;
            let cell = row.remove_cell(field).unwrap();
            proof {
                assert forall|j: int| i < j < n implies #[trigger] row.has(cols0.key_seq()[j])
                    && row.value_of(cols0.key_seq()[j]) == row0.value_of(cols0.key_seq()[j]) by {
                    assert(cols0.key_seq()[j] != field) by {
                        assert(cols0.key_seq()[j].spec_key() != cols0.key_seq()[i as int].spec_key());
                    }
                    assert(row.entries().same_entry(&before.entries(), cols0.key_seq()[j]));
                    assert(before.has(cols0.key_seq()[j]));
                }
            }
            self.columns.value_at_mut(i).push_cell(cell);
            i = i + 1;
        }
    }
}

impl<R: Key, T> Table<R, T> {
    /// Takes out the row `index`: the last row moves into its position, and
    /// the values taken out come back as a row, one per column in column
    /// order. The row set keeps its index entry for `index`.
    pub fn remove(&mut self, index: R) -> (r: Option<Row<T>>)
        requires
            old(self).wf(),
            old(self).aligned(),
            old(self).row_set().in_range(index),
        ensures
            final(self).wf(),
            final(self).aligned(),
            old(self).removed_row(&*final(self), index, r),
    {
        let idx = match self.rows.index_of(&index) {
            Some(i) => i,
            None => {
                return None;
            },
        };
        let ghost cols0 = self.columns;
        let ghost n_rows = self.rows.key_seq().len();
        self.rows.swap_remove_at(idx);
        let ghost rows1 = self.rows;
        let mut row: Row<T> = Row::new();
        proof {
            self.columns.lemma_wf();
            self.columns.lemma_proper_distinct();
        }
        let n = self.columns.len();
        let mut i: usize = 0;
        while i < n
            invariant
                i <= n,
                n == cols0.value_seq().len(),
                n == cols0.key_seq().len(),
                cols0 == old(self).col_map(),
                idx < n_rows,
                n_rows == old(self).row_set().key_seq().len(),
                self.rows == rows1,
                forall|j: int|
                    0 <= j < n ==> (#[trigger] cols0.value_seq()[j])@.len() == n_rows,
                crate::storage::dense::distinct_keys(cols0.key_seq()),
                self.columns.wf(),
                self.columns.key_seq() == cols0.key_seq(),
                self.columns.index_map() == cols0.index_map(),
                self.columns.value_seq().len() == n,
                row.wf(),
                row.keys_seq() == cols0.key_seq().subrange(0, i as int),
                row.entries().value_seq().len() == i,
                forall|j: int|
                    0 <= j < i ==> (#[trigger] row.entries().value_seq()[j])@ == cols0.value_seq()[j]@[idx as int],
                forall|j: int|
                    0 <= j < i ==> (#[trigger] self.columns.value_seq()[j])@ == cols0.value_seq()[j]@.update(
                        idx as int,
                        cols0.value_seq()[j]@.last(),
                    ).drop_last(),
                forall|j: int|
                    i <= j < n ==> #[trigger] self.columns.value_seq()[j] == cols0.value_seq()[j],
            decreases n - i,
        {
            let field = self.columns.key_at(i);
            let cell = self.columns.value_at_mut(i).swap_remoe_cell(idx);
            proof {
                if row.has(field) {
                    let q = row.entries().slot(field);
                    assert(row.keys_seq()[q].spec_key() == field.spec_key());
                    assert(cols0.key_seq()[q].spec_key() != cols0.key_seq()[i as int].spec_key());
                }
            }
            let ghost c0 = cell;
            row.add_cell(field, cell);
            assert(row.keys_seq() =~= cols0.key_seq().subrange(0, i + 1));
            assert(row.entries().value_seq()[i as int] == c0);
            i = i + 1;
        }
        proof {
            assert(row.keys_seq() =~= cols0.key_seq());
            assert forall|j: int| 0 <= j < n implies row.value_of(#[trigger] cols0.key_seq()[j])
                == cols0.value_seq()[j]@[idx as int] by {
                assert(row.entries().self_indexed(j));
            }
            assert forall|j: int| 0 <= j < n implies (#[trigger] self.columns.value_seq()[j])@.len()
                == self.rows.key_seq().len() by {
                assert(cols0.value_seq()[j]@.len() == n_rows);
            }
        }
        Some(row)
    }

    /// The table records a position for the row `index`.
    pub fn contains(&self, index: R) -> (r: bool)
        ensures
            r == self.row_set().has(index),
    {
        self.rows.contains(&index)
    }

    /// Drops every row, keeping the columns, empty.
    pub fn clear(&mut self)
        requires
            old(self).wf(),
        ensures
            final(self).wf(),
            final(self).aligned(),
            final(self).col_map().key_seq() == old(self).col_map().key_seq(),
            final(self).col_map().index_map() == old(self).col_map().index_map(),
            final(self).col_map().value_seq().len() == old(self).col_map().value_seq().len(),
            final(self).row_set().key_seq() == Seq::<R>::empty(),
            final(self).row_set().index_map() == Map::<u64, usize>::empty(),
    {
        self.rows.clear();
        let n = self.columns.len();
        let mut i: usize = 0;
        while i < n
            invariant
                i <= n,
                self.columns.wf(),
                n == self.columns.value_seq().len(),
                self.columns.key_seq() == old(self).col_map().key_seq(),
                self.columns.index_map() == old(self).col_map().index_map(),
                self.rows.key_seq() == Seq::<R>::empty(),
                self.rows.index_map() == Map::<u64, usize>::empty(),
                forall|j: int| 0 <= j < i ==> (#[trigger] self.columns.value_seq()[j])@.len() == 0,
            decreases n - i,
        {
            self.columns.value_at_mut(i).clear();
            i = i + 1;
        }
    }
}

impl<R: Key, T> Table<R, T> {
    /// The position the table records for the row `index`.
    pub(crate) fn row_index(&self, index: R) -> (r: Option<usize>)
        ensures
            self.row_set().has(index) ==> r == Some(self.row_pos(index) as usize),
            !self.row_set().has(index) ==> r is None,
    {
        self.rows.index_of(&index)
    }

    /// The number of rows.
    pub(crate) fn row_count(&self) -> (r: usize)
        ensures
            r == self.row_set().key_seq().len(),
    {
        self.rows.len()
    }

    /// The table has a column under `key`.
    pub(crate) fn has_column(&self, key: &ColumnKey) -> (r: bool)
        ensures
            r == self.col_map().has(*key),
    {
        self.columns.contains(key)
    }
}

/// Reading a table after appending a row gives, in each column, the value
/// that the row held under the column's key.
pub proof fn law_item_after_insert<R: Key, T>(
    before: &Table<R, T>,
    after: &Table<R, T>,
    index: R,
    row: Row<T>,
    key: ColumnKey,
)
    requires
        before.wf(),
        before.aligned(),
        before.col_map().has(key),
        before.inserted_row(after, index, row),
    ensures
        after.item_spec(key, index) == Some(row.value_of(key)),
{
    let cols = before.col_map();
    cols.lemma_wf();
    let i = cols.slot(key);
    ColumnKey::lemma_key_injective(cols.key_seq()[i], key);
    assert(after.col_map().value_seq()[i]@ == cols.value_seq()[i]@.push(row.value_of(key)));
    before.row_set().lemma_len();
    assert(after.row_pos(index) == before.row_set().key_seq().len());
}

impl<R: Key, T> Table<R, T> {
    /// The row set lists `index` once, at the position that its index
    /// records, inside the list.
    pub open spec fn holds_once(&self, index: R) -> bool {
        &&& self.row_set().has(index)
        &&& 0 <= self.row_pos(index) < self.row_set().key_seq().len()
        &&& forall|j: int|
            0 <= j < self.row_set().key_seq().len() ==> (#[trigger] self.row_set().key_seq()[j].spec_key()
                == index.spec_key() <==> j == self.row_pos(index))
    }

    /// Taking out the row of `y` keeps every other row that the table holds
    /// once, with its values.
    pub proof fn lemma_removed_keeps(&self, new: &Self, y: R, r: Option<Row<T>>, x: R)
        requires
            self.wf(),
            self.aligned(),
            self.removed_row(new, y, r),
            self.holds_once(x),
            self.holds_once(y),
            x.spec_key() != y.spec_key(),
        ensures
            new.holds_once(x),
            new.col_map().key_seq() == self.col_map().key_seq(),
            new.col_map().index_map() == self.col_map().index_map(),
            forall|k: ColumnKey| #[trigger] new.item_spec(k, x) == self.item_spec(k, x),
    {
        let rows = self.row_set().key_seq();
        let n = rows.len() as int;
        let p = self.row_pos(y);
        let q = self.row_pos(x);
        assert(rows[p].spec_key() == y.spec_key());
        assert(rows[q].spec_key() == x.spec_key());
        assert(p != q);
        let nrows = new.row_set().key_seq();
        assert(nrows == rows.update(p, rows.last()).drop_last());
        let q2 = if q == n - 1 {
            p
        } else {
            q
        };
        if q == n - 1 {
            assert(p + 1 < n);
            assert(rows.last().spec_key() == x.spec_key());
            assert(new.row_set().index_map() == self.row_set().index_map().insert(x.spec_key(), p as usize));
        } else {
            assert(rows[n - 1].spec_key() != x.spec_key());
            if p + 1 < n {
                assert(new.row_set().index_map() == self.row_set().index_map().insert(
                    rows.last().spec_key(),
                    p as usize,
                ));
            }
        }
        assert(new.row_pos(x) == q2);
        assert(nrows[q2] == rows[q]);
        assert forall|j: int| 0 <= j < nrows.len() implies (#[trigger] nrows[j].spec_key() == x.spec_key()
            <==> j == new.row_pos(x)) by {
            if j == p {
                assert(nrows[j] == rows[n - 1]);
            } else {
                assert(nrows[j] == rows[j]);
            }
        }
        let cols = self.col_map();
        cols.lemma_wf();
        assert forall|k: ColumnKey| #[trigger] new.item_spec(k, x) == self.item_spec(k, x) by {
            if cols.has(k) {
                let i = cols.slot(k);
                assert(cols.key_seq()[i].spec_key() == k.spec_key());
                assert(cols.value_seq()[i]@.len() == n);
                assert(new.col_map().value_seq()[i]@ == cols.value_seq()[i]@.update(p, cols.value_seq()[i]@.last()).drop_last());
                assert(new.col_map().lookup(k) == new.col_map().value_seq()[i]);
                if q == n - 1 {
                    assert(new.col_map().value_seq()[i]@[p] == cols.value_seq()[i]@[n - 1]);
                } else {
                    assert(new.col_map().value_seq()[i]@[q] == cols.value_seq()[i]@[q]);
                }
            }
        }
    }
}

} // verus!
