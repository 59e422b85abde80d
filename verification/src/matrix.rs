//! Sparse matrices: of each row the entries that differ from the default
//! value, found again by binary search.

use vstd::prelude::*;
use vstd::pervasive::cloned;
use vstd::std_specs::cmp::PartialEqSpec;

verus! {

/// A matrix that keeps, row by row and in the order of their columns, the
/// entries that differ from the default value of their type.
pub struct Matrix<T: core::ops::Add + core::ops::Mul + Clone + PartialEq + Default> {
    pub n_rows: usize,
    pub n_cols: usize,
    vals: Vec<(usize, Vec<(usize, T)>)>,
    zero: T,
}

/// The position among the first `n` keys of the last one that is `key`.
pub open spec fn find_key(keys: Seq<usize>, key: usize, n: nat) -> Option<int>
    decreases n,
{
    if n == 0 {
        None
    } else if keys[n - 1] == key {
        Some(n - 1)
    } else {
        find_key(keys, key, (n - 1) as nat)
    }
}

/// Whether the keys increase strictly.
pub open spec fn increasing(keys: Seq<usize>) -> bool {
    forall|i: int, j: int| 0 <= i < j < keys.len() ==> keys[i] < keys[j]
}

/// A key that is not among the first `n` is not found among them.
pub proof fn lemma_find_none(keys: Seq<usize>, key: usize, n: nat)
    requires
        n <= keys.len(),
        forall|i: int| 0 <= i < n ==> keys[i] != key,
    ensures
        find_key(keys, key, n).is_none(),
    decreases n,
{
    if n > 0 {
        lemma_find_none(keys, key, (n - 1) as nat);
    }
}

/// A key at position `at` that no later position has is found there.
pub proof fn lemma_find_some(keys: Seq<usize>, key: usize, n: nat, at: int)
    requires
        0 <= at < n <= keys.len(),
        keys[at] == key,
        forall|i: int| at < i < n ==> keys[i] != key,
    ensures
        find_key(keys, key, n) == Some(at),
    decreases n,
{
    if at != n - 1 {
        lemma_find_some(keys, key, (n - 1) as nat, at);
    }
}

/// What is found among the first `n` keys does not depend on later keys.
pub proof fn lemma_find_prefix(keys: Seq<usize>, longer: Seq<usize>, key: usize, n: nat)
    requires
        n <= keys.len() <= longer.len(),
        forall|i: int| 0 <= i < n ==> keys[i] == longer[i],
    ensures
        find_key(keys, key, n) == find_key(longer, key, n),
    decreases n,
{
    if n > 0 {
        lemma_find_prefix(keys, longer, key, (n - 1) as nat);
    }
}

/// The row numbers of the kept rows.
pub open spec fn row_keys<T>(vals: Seq<(usize, Vec<(usize, T)>)>) -> Seq<usize> {
    vals.map_values(|row: (usize, Vec<(usize, T)>)| row.0)
}

/// The column numbers of the kept entries of a row.
pub open spec fn col_keys<T>(row: Seq<(usize, T)>) -> Seq<usize> {
    row.map_values(|e: (usize, T)| e.0)
}

/// The kept entry of a row in the column `col`, if there is one.
pub open spec fn kept_in_row<T>(entries: Seq<(usize, T)>, col: usize) -> Option<T> {
    match find_key(col_keys(entries), col, entries.len()) {
        None => None,
        Some(j) => Some(entries[j].1),
    }
}

/// The kept entry in the row `row` and the column `col`, if there is one.
pub open spec fn kept_in<T>(vals: Seq<(usize, Vec<(usize, T)>)>, row: usize, col: usize) -> Option<
    T,
> {
    match find_key(row_keys(vals), row, vals.len()) {
        None => None,
        Some(i) => kept_in_row(vals[i].1@, col),
    }
}

/// The entry of a dense row that its sparse form keeps in the column `col`.
pub open spec fn kept_of_row<T: PartialEq>(items: Seq<T>, zero: T, col: usize) -> Option<T> {
    if col < items.len() && !items[col as int].eq_spec(&zero) {
        Some(items[col as int])
    } else {
        None
    }
}

/// The list in reverse order.
fn reversed<U>(v: Vec<U>) -> (r: Vec<U>)
    ensures
        r@ == v@.reverse(),
{
    let mut rest = v;
    let mut r: Vec<U> = Vec::new();
    assert(r@ =~= v@.reverse().take(0));
    while rest.len() > 0
        invariant
            rest.len() <= v.len(),
            rest@ == v@.take(rest.len() as int),
            r@ == v@.reverse().take(v.len() - rest.len()),
        decreases rest.len(),
    {
        let ghost before = rest@;
        let x = rest.pop().unwrap();
        assert(rest@ =~= v@.take(rest.len() as int));
        assert(x == v@[rest.len() as int]);
        assert(r@.push(x) =~= v@.reverse().take(v.len() - rest.len()));
        r.push(x);
    }
    assert(v@.reverse().take(v.len() as int) =~= v@.reverse());
    r
}

/// The entries of a dense row that differ from `zero`, with their columns.
fn sparse_row<T: PartialEq>(items: Vec<T>, zero: &T) -> (entries: Vec<(usize, T)>)
    ensures
        increasing(col_keys(entries@)),
        T::obeys_eq_spec() ==> forall|col: usize|
            kept_in_row(entries@, col) == kept_of_row(items@, *zero, col),
        T::obeys_eq_spec() ==> (entries@.len() == 0 <==> forall|col: usize|
            kept_of_row(items@, *zero, col).is_none()),
{
    let n = items.len();
    let mut rest = reversed(items);
    let mut entries: Vec<(usize, T)> = Vec::new();
    let mut c: usize = 0;
    while c < n
        invariant
            c <= n,
            n == items.len(),
            rest@ == items@.reverse().take(n - c),
            increasing(col_keys(entries@)),
            forall|j: int| 0 <= j < entries.len() ==> col_keys(entries@)[j] < c,
            T::obeys_eq_spec() ==> forall|col: usize|
                kept_in_row(entries@, col) == if col < c {
                    kept_of_row(items@, *zero, col)
                } else {
                    None
                },
            T::obeys_eq_spec() ==> forall|j: int|
                0 <= j < entries.len() ==> kept_of_row(
                    items@,
                    *zero,
                    #[trigger] col_keys(entries@)[j],
                ).is_some(),
        decreases n - c,
    {
        let ghost old_entries = entries@;
        let ghost old_keys = col_keys(entries@);
        let item = rest.pop().unwrap();
        assert(rest@ =~= items@.reverse().take(n - c - 1));
        assert(item == items@[c as int]);
        let keep = item != *zero;
        if keep {
            entries.push((c, item));
            proof {
                let keys = col_keys(entries@);
                assert(keys =~= old_keys.push(c));
                if T::obeys_eq_spec() {
                    assert forall|col: usize| kept_in_row(entries@, col) == if col < c + 1 {
                        kept_of_row(items@, *zero, col)
                    } else {
                        None
                    } by {
                        if col != c {
                            lemma_find_prefix(old_keys, keys, col, old_keys.len());
                            assert(kept_in_row(old_entries, col) == if col < c {
                                kept_of_row(items@, *zero, col)
                            } else {
                                None
                            });
                            match find_key(old_keys, col, old_keys.len()) {
                                Some(j) => {
                                    lemma_find_bound(old_keys, col, old_keys.len());
                                    assert(entries@[j] == old_entries[j]);
                                },
                                None => {},
                            }
                        }
                    }
                }
            }
        } else {
            proof {
                if T::obeys_eq_spec() {
                    lemma_find_none(old_keys, c, old_keys.len());
                }
            }
        }
        c = c + 1;
    }
    proof {
        if T::obeys_eq_spec() {
            if entries@.len() > 0 {
                let k = col_keys(entries@)[0];
                assert(kept_of_row(items@, *zero, k).is_some());
            } else {
                assert forall|col: usize| kept_of_row(items@, *zero, col).is_none() by {
                    assert(kept_in_row(entries@, col).is_none());
                }
            }
        }
    }
    entries
}

/// A key that is found is found at a position below `n`.
pub proof fn lemma_find_bound(keys: Seq<usize>, key: usize, n: nat)
    ensures
        match find_key(keys, key, n) {
            Some(j) => 0 <= j < n && keys[j] == key,
            None => true,
        },
    decreases n,
{
    if n > 0 && keys[n - 1] != key {
        lemma_find_bound(keys, key, (n - 1) as nat);
    }
}

/// The position of a row among rows in increasing order, by binary search.
fn search_rows<T>(vals: &Vec<(usize, Vec<(usize, T)>)>, key: usize) -> (r: Option<usize>)
    requires
        increasing(row_keys(vals@)),
    ensures
        match r {
            Some(i) => find_key(row_keys(vals@), key, vals@.len()) == Some(i as int) && i
                < vals.len(),
            None => find_key(row_keys(vals@), key, vals@.len()).is_none(),
        },
{
    let ghost keys = row_keys(vals@);
    let mut lo: usize = 0;
    let mut hi: usize = vals.len();
    while lo < hi
        invariant
            lo <= hi <= vals.len(),
            keys == row_keys(vals@),
            increasing(keys),
            forall|i: int| 0 <= i < lo ==> keys[i] < key,
            forall|i: int| hi <= i < keys.len() ==> keys[i] > key,
        decreases hi - lo,
    {
        let mid = lo + (hi - lo) / 2;
        assert(keys[mid as int] == vals@[mid as int].0);
        if vals[mid].0 == key {
            proof {
                lemma_find_some(keys, key, keys.len(), mid as int);
            }
            return Some(mid);
        } else if vals[mid].0 < key {
            lo = mid + 1;
        } else {
            hi = mid;
        }
    }
    proof {
        lemma_find_none(keys, key, keys.len());
    }
    None
}

/// The position of a column among entries in increasing order, by binary search.
fn search_cols<T>(entries: &Vec<(usize, T)>, key: usize) -> (r: Option<usize>)
    requires
        increasing(col_keys(entries@)),
    ensures
        match r {
            Some(i) => find_key(col_keys(entries@), key, entries@.len()) == Some(i as int) && i
                < entries.len(),
            None => find_key(col_keys(entries@), key, entries@.len()).is_none(),
        },
{
    let ghost keys = col_keys(entries@);
    let mut lo: usize = 0;
    let mut hi: usize = entries.len();
    while lo < hi
        invariant
            lo <= hi <= entries.len(),
            keys == col_keys(entries@),
            increasing(keys),
            forall|i: int| 0 <= i < lo ==> keys[i] < key,
            forall|i: int| hi <= i < keys.len() ==> keys[i] > key,
        decreases hi - lo,
    {
        let mid = lo + (hi - lo) / 2;
        assert(keys[mid as int] == entries@[mid as int].0);
        if entries[mid].0 == key {
            proof {
                lemma_find_some(keys, key, keys.len(), mid as int);
            }
            return Some(mid);
        } else if entries[mid].0 < key {
            lo = mid + 1;
        } else {
            hi = mid;
        }
    }
    proof {
        lemma_find_none(keys, key, keys.len());
    }
    None
}

/// The entry that the sparse form of a dense matrix keeps for a row and a column.
pub open spec fn kept_of<T: PartialEq>(dense: Seq<Vec<T>>, zero: T, row: usize, col: usize) -> Option<
    T,
> {
    if row < dense.len() {
        kept_of_row(dense[row as int]@, zero, col)
    } else {
        None
    }
}

impl<T: core::ops::Add + core::ops::Mul + Clone + PartialEq + Default> Matrix<T> {
    /// Rows and entries in increasing order of their numbers.
    pub closed spec fn wf(&self) -> bool {
        &&& increasing(row_keys(self.vals@))
        &&& forall|i: int|
            0 <= i < self.vals@.len() ==> increasing(col_keys((#[trigger] self.vals@[i]).1@))
    }

    /// The number of rows.
    pub closed spec fn row_count(&self) -> usize {
        self.n_rows
    }

    /// The number of columns.
    pub closed spec fn col_count(&self) -> usize {
        self.n_cols
    }

    /// The value that stands for the entries that are not kept.
    pub closed spec fn zero(&self) -> T {
        self.zero
    }

    /// The entry that is kept for a row and a column, if one is.
    pub closed spec fn stored(&self, row: usize, col: usize) -> Option<T> {
        kept_in(self.vals@, row, col)
    }

    /// The sparse form of a matrix given by its rows: it keeps the entries
    /// that differ from the default value. The first row gives the number
    /// of columns.
    pub fn from_dense(v: Vec<Vec<T>>) -> (m: Matrix<T>)
        ensures
            m.wf(),
            m.row_count() == v.len(),
            m.col_count() == if v.len() == 0 {
                0
            } else {
                v@[0].len()
            },
            call_ensures(T::default, (), m.zero()),
            T::obeys_eq_spec() ==> forall|row: usize, col: usize|
                m.stored(row, col) == kept_of(v@, m.zero(), row, col),
    {
        let n_rows = v.len();
        let n_cols = if v.len() == 0 {
            0
        } else {
            v[0].len()
        };
        let zero = T::default();
        let mut vals: Vec<(usize, Vec<(usize, T)>)> = Vec::new();
        let mut rest = reversed(v);
        let mut r: usize = 0;
        while r < n_rows
            invariant
                r <= n_rows,
                n_rows == v.len(),
                rest@ == v@.reverse().take(n_rows - r),
                increasing(row_keys(vals@)),
                forall|i: int| 0 <= i < vals.len() ==> row_keys(vals@)[i] < r,
                forall|i: int|
                    0 <= i < vals@.len() ==> increasing(col_keys((#[trigger] vals@[i]).1@)),
                T::obeys_eq_spec() ==> forall|row: usize, col: usize|
                    kept_in(vals@, row, col) == if row < r {
                        kept_of(v@, zero, row, col)
                    } else {
                        None
                    },
            decreases n_rows - r,
        {
            let ghost old_vals = vals@;
            let ghost old_keys = row_keys(vals@);
            let items = rest.pop().unwrap();
            assert(rest@ =~= v@.reverse().take(n_rows - r - 1));
            assert(items == v@[r as int]);
            let entries = sparse_row(items, &zero);
            if entries.len() > 0 {
                vals.push((r, entries));
                proof {
                    let keys = row_keys(vals@);
                    assert(keys =~= old_keys.push(r));
                    assert forall|i: int| 0 <= i < vals@.len() implies increasing(
                        col_keys((#[trigger] vals@[i]).1@),
                    ) by {
                        if i < old_vals.len() {
                            assert(vals@[i] == old_vals[i]);
                        }
                    }
                    if T::obeys_eq_spec() {
                        assert forall|row: usize, col: usize| kept_in(vals@, row, col) == if row < r
                            + 1 {
                            kept_of(v@, zero, row, col)
                        } else {
                            None
                        } by {
                            if row != r {
                                lemma_find_prefix(old_keys, keys, row, old_keys.len());
                                assert(kept_in(old_vals, row, col) == if row < r {
                                    kept_of(v@, zero, row, col)
                                } else {
                                    None
                                });
                                match find_key(old_keys, row, old_keys.len()) {
                                    Some(j) => {
                                        lemma_find_bound(old_keys, row, old_keys.len());
                                        assert(vals@[j] == old_vals[j]);
                                    },
                                    None => {},
                                }
                            }
                        }
                    }
                }
            } else {
                proof {
                    if T::obeys_eq_spec() {
                        lemma_find_none(old_keys, r, old_keys.len());
                    }
                }
            }
            r = r + 1;
        }
        Matrix { n_rows, n_cols, vals, zero }
    }

    /// The entry in row `row` and column `col`: a copy of the kept entry, or
    /// else of the default value.
    pub fn get(&self, row: usize, col: usize) -> (r: T)
        requires
            self.wf(),
        ensures
            cloned(
                match self.stored(row, col) {
                    Some(x) => x,
                    None => self.zero(),
                },
                r,
            ),
    {
        match search_rows(&self.vals, row) {
            None => self.zero.clone(),
            Some(at) => {
                let entries = &self.vals[at].1;
                match search_cols(entries, col) {
                    None => self.zero.clone(),
                    Some(k) => entries[k].1.clone(),
                }
            },
        }
    }
}

} // verus!
