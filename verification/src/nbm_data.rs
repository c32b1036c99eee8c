//! The columnar store: the validated owner of the parsed arrays, with
//! lookup by column name and a lazy per-column iterator over the
//! (timestamp, value) pairs of the rows whose cell is present.

use vstd::prelude::*;
use vstd::string::*;
use crate::error::Error;
use crate::nbm_raw::{
    NBMRaw, cell_views, data_lines, header_cols, rows_of, row_stamp, vals_of,
};
use crate::text::{spec_lines, split_on, views_of};
use crate::timestamp::TimeStamp;

verus! {

/// The number of data rows the counts derive for a text: its line count
/// without the header line.
pub open spec fn spec_num_rows(text: Seq<char>) -> int {
    spec_lines(text).len() - 1
}

/// The number of data columns the counts derive for a text: the header
/// line's field count without the leading timestamp label.
pub open spec fn spec_num_cols(text: Seq<char>) -> int {
    split_on(spec_lines(text)[0], ',').len() - 1
}

/// The three shape invariants a parsed text must satisfy for construction
/// to succeed: as many names, timestamps and cells as the counts promise.
pub open spec fn parse_shape_ok(text: Seq<char>) -> bool {
    &&& header_cols(text).len() == spec_num_cols(text)
    &&& rows_of(data_lines(text)).len() == spec_num_rows(text)
    &&& vals_of(data_lines(text)).len() == spec_num_rows(text) * spec_num_cols(text)
}

/// The position of the first column of this name, or the length where
/// there is none.
pub open spec fn col_index(cols: Seq<Seq<char>>, name: Seq<char>) -> int
    decreases cols.len(),
{
    if cols.len() == 0 {
        0
    } else if cols[0] == name {
        0
    } else {
        1 + col_index(cols.drop_first(), name)
    }
}

/// Whether some column bears this name.
pub open spec fn has_col(cols: Seq<Seq<char>>, name: Seq<char>) -> bool {
    exists|i: int| 0 <= i < cols.len() && cols[i] == name
}

/// The first match stands where no earlier column bears the name.
pub proof fn lemma_col_index_at(cols: Seq<Seq<char>>, name: Seq<char>, i: int)
    requires
        0 <= i <= cols.len(),
        forall|j: int| 0 <= j < i ==> cols[j] != name,
        i == cols.len() || cols[i] == name,
    ensures
        col_index(cols, name) == i,
    decreases i,
{
    if i == 0 {
        if cols.len() > 0 && cols[0] != name {
            assert(false);
        }
    } else {
        let t = cols.drop_first();
        assert(forall|j: int| 0 <= j < i - 1 ==> #[trigger] t[j] != name);
        lemma_col_index_at(t, name, i - 1);
    }
}

/// The (timestamp, value) pairs of one column from a given row on: rows
/// are walked in order, a present cell contributes its pair, an absent
/// cell is skipped.
pub open spec fn col_items(
    rows: Seq<TimeStamp>,
    vals: Seq<Option<Seq<char>>>,
    nc: int,
    col: int,
    from: int,
) -> Seq<(TimeStamp, Seq<char>)>
    decreases rows.len() - from
{
    if from < 0 || from >= rows.len() {
        Seq::empty()
    } else {
        let rest = col_items(rows, vals, nc, col, from + 1);
        if 0 <= from * nc + col < vals.len() && vals[from * nc + col] is Some {
            seq![(rows[from], vals[from * nc + col]->0)] + rest
        } else {
            rest
        }
    }
}

/// How many cells of one column are absent from a given row on.
pub open spec fn absent_count(
    vals: Seq<Option<Seq<char>>>,
    nc: int,
    col: int,
    from: int,
    len: int,
) -> int
    decreases len - from
{
    if from < 0 || from >= len {
        0
    } else {
        (if 0 <= from * nc + col < vals.len() && vals[from * nc + col] is Some {
            0int
        } else {
            1int
        }) + absent_count(vals, nc, col, from + 1, len)
    }
}

/// A parsed NBM 1D viewer CSV file.
pub struct NBMData {
    init_time: Option<TimeStamp>,
    rows: Vec<TimeStamp>,
    cols: Vec<String>,
    num_rows: usize,
    num_cols: usize,
    vals: Vec<Option<String>>,
}

impl NBMData {
    /// The timestamps of the data rows, in input order.
    pub closed spec fn rows_view(self) -> Seq<TimeStamp> {
        self.rows@
    }

    /// The column names, in header order.
    pub closed spec fn cols_view(self) -> Seq<Seq<char>> {
        views_of(self.cols@)
    }

    /// The cells, flattened in row-major order.
    pub closed spec fn vals_view(self) -> Seq<Option<Seq<char>>> {
        cell_views(self.vals@)
    }

    /// The derived row count.
    pub closed spec fn num_rows_spec(self) -> int {
        self.num_rows as int
    }

    /// The derived column count.
    pub closed spec fn num_cols_spec(self) -> int {
        self.num_cols as int
    }

    /// The cached initialization time: the first row's timestamp, if any.
    pub closed spec fn init_time_spec(self) -> Option<TimeStamp> {
        self.init_time
    }

    #[verifier::type_invariant]
    spec fn wf(self) -> bool {
        &&& self.rows@.len() == self.num_rows
        &&& self.cols@.len() == self.num_cols
        &&& self.vals@.len() == self.num_rows * self.num_cols
        &&& self.init_time == (if self.num_rows > 0 {
            Some(self.rows@[0])
        } else {
            None::<TimeStamp>
        })
    }

    /// The derived row count. Every store satisfies the three shape
    /// invariants: as many timestamps and cells as the counts promise.
    pub fn num_rows(&self) -> (n: usize)
        ensures
            n == self.num_rows_spec(),
            self.rows_view().len() == self.num_rows_spec(),
            self.cols_view().len() == self.num_cols_spec(),
            self.vals_view().len() == self.num_rows_spec() * self.num_cols_spec(),
            self.init_time_spec() == (if self.num_rows_spec() > 0 {
                Some(self.rows_view()[0])
            } else {
                None::<TimeStamp>
            }),
    {
        proof {
            use_type_invariant(self);
            assert(views_of(self.cols@).len() == self.cols@.len());
            assert(cell_views(self.vals@).len() == self.vals@.len());
        }
        self.num_rows
    }

    /// The derived column count. Every store satisfies the three shape
    /// invariants: as many names as the header promises.
    pub fn num_cols(&self) -> (n: usize)
        ensures
            n == self.num_cols_spec(),
            self.rows_view().len() == self.num_rows_spec(),
            self.cols_view().len() == self.num_cols_spec(),
            self.vals_view().len() == self.num_rows_spec() * self.num_cols_spec(),
    {
        proof {
            use_type_invariant(self);
            assert(views_of(self.cols@).len() == self.cols@.len());
            assert(cell_views(self.vals@).len() == self.vals@.len());
        }
        self.num_cols
    }

    /// Build a store from a text blob: derive the counts, parse in full,
    /// and take the result only where the three shape invariants hold.
    /// An empty input has no header line to count from and is refused; a
    /// parse whose arrays disagree with the counts — a dropped row or a
    /// ragged line — is refused rather than returned in part.
    pub fn create(text: &str) -> (r: Result<NBMData, Error>)
        ensures
            text@.len() == 0 ==> (r matches Err(e) && e == Error::MalformedInput),
            text@.len() > 0 && !parse_shape_ok(text@) ==> (r matches Err(e) && e
                == Error::ShapeMismatch),
            text@.len() > 0 && parse_shape_ok(text@) ==> (r matches Ok(d) && d.cols_view()
                == header_cols(text@) && d.rows_view() == rows_of(data_lines(text@))
                && d.vals_view() == vals_of(data_lines(text@)) && d.num_rows_spec()
                == spec_num_rows(text@) && d.num_cols_spec() == spec_num_cols(text@)
                && d.init_time_spec() == (if spec_num_rows(text@) > 0 {
                Some(rows_of(data_lines(text@))[0])
            } else {
                None::<TimeStamp>
            })),
    {
        if text.unicode_len() == 0 {
            return Err(Error::MalformedInput);
        }
        let raw = NBMRaw::new(text);
        let rc = raw.count_rows_and_cols();
        let num_rows = rc.0;
        let num_cols = rc.1;
        let out = raw.parse_full(num_rows, num_cols);
        let cols = out.0;
        let rows = out.1;
        let vals = out.2;
        if cols.len() != num_cols {
            return Err(Error::ShapeMismatch);
        }
        if rows.len() != num_rows {
            return Err(Error::ShapeMismatch);
        }
        match num_rows.checked_mul(num_cols) {
            None => {
                let vl = vals.len();
                proof {
                    assert(vl == vals@.len());
                    assert(cell_views(vals@).len() == vals@.len());
                }
                Err(Error::ShapeMismatch)
            },
            Some(p) => {
                if vals.len() != p {
                    Err(Error::ShapeMismatch)
                } else {
                    let init = if num_rows > 0 {
                        Some(rows[0])
                    } else {
                        None
                    };
                    Ok(NBMData { init_time: init, rows, cols, num_rows, num_cols, vals })
                }
            },
        }
    }

    /// Get the initialization time for this file: the timestamp of the
    /// first data row. A store with no data rows has none, and says so.
    pub fn initialization_time(&self) -> (r: Result<TimeStamp, Error>)
        ensures
            self.num_rows_spec() > 0 ==> (r matches Ok(t) && Some(t) == self.init_time_spec()
                && t == self.rows_view()[0]),
            self.num_rows_spec() == 0 ==> (r matches Err(e) && e matches Error::General(_)),
    {
        proof {
            use_type_invariant(self);
        }
        match &self.init_time {
            Some(t) => Ok(*t),
            None => Err(Error::General(String::from_str("no data rows"))),
        }
    }

    /// Get an iterator over rows for a given column: the first column
    /// whose name matches exactly, positioned at row 0.
    ///
    /// If no such column exists, it will return an `Error::NoSuchColumn`
    /// error value.
    pub fn column_iter<'a>(&'a self, col_name: &str) -> (r: Result<NBMColumnIter<'a>, Error>)
        ensures
            has_col(self.cols_view(), col_name@) ==> (r matches Ok(it) && it.src_spec()
                == *self && it.col_spec() == col_index(self.cols_view(), col_name@)
                && it.row_spec() == 0),
            !has_col(self.cols_view(), col_name@) ==> (r matches Err(e) && e
                == Error::NoSuchColumn),
    {
        let name = String::from_str(col_name);
        let n = self.cols.len();
        let mut i: usize = 0;
        while i < n
            invariant
                n == self.cols@.len(),
                i <= n,
                name@ == col_name@,
                forall|j: int| 0 <= j < i ==> views_of(self.cols@)[j] != col_name@,
            decreases n - i,
        {
            if self.cols[i] == name {
                proof {
                    use_type_invariant(self);
                    assert(views_of(self.cols@)[i as int] == self.cols@[i as int]@);
                    assert(self.cols_view()[i as int] == col_name@);
                    lemma_col_index_at(self.cols_view(), col_name@, i as int);
                }
                return Ok(NBMColumnIter { col: i, curr_row: 0, src: self });
            }
            proof {
                assert(views_of(self.cols@)[i as int] == self.cols@[i as int]@);
            }
            i += 1;
        }
        proof {
            assert(forall|j: int|
                0 <= j < self.cols_view().len() ==> #[trigger] self.cols_view()[j] != col_name@);
        }
        Err(Error::NoSuchColumn)
    }

    /// The pair stored at a (row, column) position: the row's timestamp
    /// with the cell's value, or nothing where the cell is absent.
    fn get_vals(&self, row: usize, col: usize) -> (r: Option<(TimeStamp, String)>)
        requires
            row < self.num_rows_spec(),
            col < self.num_cols_spec(),
        ensures
            self.vals_view()[row * self.num_cols_spec() + col] is Some ==> (r matches Some(p)
                && p.0 == self.rows_view()[row as int] && p.1@ == self.vals_view()[row
                * self.num_cols_spec() + col]->0),
            self.vals_view()[row * self.num_cols_spec() + col] is None ==> r is None,
    {
        proof {
            use_type_invariant(self);
        }
        let vl = self.vals.len();
        proof {
            assert((row as int) * (self.num_cols as int) + (col as int) < (self.num_rows as int) * (
            self.num_cols as int)) by (nonlinear_arith)
                requires
                    (row as int) < (self.num_rows as int),
                    (col as int) < (self.num_cols as int),
                    0 <= row as int,
                    0 <= col as int,
            ;
            assert((self.num_rows as int) * (self.num_cols as int) == vl as int);
            assert(cell_views(self.vals@).len() == self.vals@.len());
        }
        let idx = row * self.num_cols + col;
        match &self.vals[idx] {
            Some(v) => Some((self.rows[row], v.clone())),
            None => None,
        }
    }
}

/// An iterator over the values of a column and the valid time of that value.
///
/// This struct is returned from the `NBMData::column_iter()` method.
pub struct NBMColumnIter<'a> {
    col: usize,
    curr_row: usize,
    src: &'a NBMData,
}

impl<'a> NBMColumnIter<'a> {
    /// The store this iterator reads.
    pub closed spec fn src_spec(self) -> NBMData {
        *self.src
    }

    /// The index of the column this iterator walks.
    pub closed spec fn col_spec(self) -> int {
        self.col as int
    }

    /// The row the cursor stands on.
    pub closed spec fn row_spec(self) -> int {
        self.curr_row as int
    }

    /// The pairs this iterator has yet to yield, in row order.
    pub open spec fn remaining(self) -> Seq<(TimeStamp, Seq<char>)> {
        col_items(
            self.src_spec().rows_view(),
            self.src_spec().vals_view(),
            self.src_spec().num_cols_spec(),
            self.col_spec(),
            self.row_spec(),
        )
    }

    #[verifier::type_invariant]
    spec fn wf(self) -> bool {
        &&& self.col < self.src.num_cols
        &&& self.curr_row <= self.src.num_rows
    }

    /// The next (timestamp, value) pair of the column: rows are walked
    /// upward from the cursor, absent cells are skipped, and the cursor
    /// rests past the yielded row; a drained iterator stays drained.
    pub fn next(&mut self) -> (r: Option<(TimeStamp, String)>)
        ensures
            final(self).src_spec() == old(self).src_spec(),
            final(self).col_spec() == old(self).col_spec(),
            old(self).remaining().len() == 0 ==> (r is None && final(self).remaining().len()
                == 0),
            old(self).remaining().len() > 0 ==> (r matches Some(p) && p.0 == old(
                self,
            ).remaining()[0].0 && p.1@ == old(self).remaining()[0].1 && final(self).remaining()
                == old(self).remaining().drop_first()),
    {
        proof {
            use_type_invariant(&*self);
            use_type_invariant(&*self.src);
        }
        while self.curr_row < self.src.num_rows
            invariant
                self.src == old(self).src,
                self.col == old(self).col,
                self.col < self.src.num_cols,
                self.curr_row <= self.src.num_rows,
                self.src.rows_view().len() == self.src.num_rows_spec(),
                self.src.vals_view().len() == self.src.num_rows_spec()
                    * self.src.num_cols_spec(),
                col_items(
                    self.src.rows_view(),
                    self.src.vals_view(),
                    self.src.num_cols_spec(),
                    self.col as int,
                    self.curr_row as int,
                ) == old(self).remaining(),
            decreases self.src.num_rows - self.curr_row,
        {
            let row = self.curr_row;
            let v = self.src.get_vals(row, self.col);
            self.curr_row = row + 1;
            let ghost nc = self.src.num_cols_spec();
            let ghost idx = row * nc + self.col as int;
            proof {
                assert(0 <= idx < self.src.vals_view().len()) by (nonlinear_arith)
                    requires
                        idx == row * nc + (self.col as int),
                        0 <= (row as int),
                        (row as int) < self.src.rows_view().len(),
                        0 <= (self.col as int),
                        (self.col as int) < nc,
                        self.src.vals_view().len() == self.src.rows_view().len() * nc,
                ;
            }
            match v {
                Some(p) => {
                    proof {
                        assert(self.src.vals_view()[idx] is Some);
                        assert(old(self).remaining()[0] == (
                            self.src.rows_view()[row as int],
                            self.src.vals_view()[idx]->0,
                        ));
                        assert(old(self).remaining().drop_first() =~= col_items(
                            self.src.rows_view(),
                            self.src.vals_view(),
                            nc,
                            self.col as int,
                            row as int + 1,
                        ));
                    }
                    return Some(p);
                },
                None => {
                    proof {
                        assert(self.src.vals_view()[idx] is None);
                    }
                },
            }
        }
        proof {
            assert(old(self).remaining().len() == 0);
        }
        None
    }
}

impl std::str::FromStr for NBMData {
    type Err = Error;

    /// Parse a text blob into a store, exactly as `NBMData::create` does.
    fn from_str(text: &str) -> (r: Result<Self, Self::Err>)
        ensures
            text@.len() == 0 ==> (r matches Err(e) && e == Error::MalformedInput),
            text@.len() > 0 && !parse_shape_ok(text@) ==> (r matches Err(e) && e
                == Error::ShapeMismatch),
            text@.len() > 0 && parse_shape_ok(text@) ==> (r matches Ok(d) && d.cols_view()
                == header_cols(text@) && d.rows_view() == rows_of(data_lines(text@))
                && d.vals_view() == vals_of(data_lines(text@)) && d.num_rows_spec()
                == spec_num_rows(text@) && d.num_cols_spec() == spec_num_cols(text@)
                && d.init_time_spec() == (if spec_num_rows(text@) > 0 {
                Some(rows_of(data_lines(text@))[0])
            } else {
                None::<TimeStamp>
            })),
    {
        NBMData::create(text)
    }
}

/// A column with no absent cell yields one pair per row, in row order:
/// row `i` contributes its timestamp and its cell's value at position `i`.
pub proof fn lemma_full_column_yields_all(
    rows: Seq<TimeStamp>,
    vals: Seq<Option<Seq<char>>>,
    nc: int,
    col: int,
)
    requires
        0 <= col < nc,
        vals.len() == rows.len() * nc,
        forall|r: int| 0 <= r < rows.len() ==> #[trigger] vals[r * nc + col] is Some,
    ensures
        col_items(rows, vals, nc, col, 0).len() == rows.len(),
        forall|i: int|
            0 <= i < rows.len() ==> col_items(rows, vals, nc, col, 0)[i] == (
                rows[i],
                vals[i * nc + col]->0,
            ),
{
    lemma_full_column_from(rows, vals, nc, col, 0);
}

proof fn lemma_full_column_from(
    rows: Seq<TimeStamp>,
    vals: Seq<Option<Seq<char>>>,
    nc: int,
    col: int,
    from: int,
)
    requires
        0 <= col < nc,
        0 <= from <= rows.len(),
        vals.len() == rows.len() * nc,
        forall|r: int| 0 <= r < rows.len() ==> #[trigger] vals[r * nc + col] is Some,
    ensures
        col_items(rows, vals, nc, col, from).len() == rows.len() - from,
        forall|i: int|
            0 <= i < rows.len() - from ==> col_items(rows, vals, nc, col, from)[i] == (
                rows[from + i],
                vals[(from + i) * nc + col]->0,
            ),
    decreases rows.len() - from,
{
    if from < rows.len() {
        assert(0 <= from * nc + col < vals.len()) by (nonlinear_arith)
            requires
                0 <= from < rows.len(),
                0 <= col < nc,
                vals.len() == rows.len() * nc,
        ;
        lemma_full_column_from(rows, vals, nc, col, from + 1);
    }
}

/// A column with absent cells yields one pair per present cell: from any
/// cursor, the count of pairs is the count of remaining rows less the
/// count of absent cells among them, and every pair is the timestamp and
/// value of a present row at or past the cursor, in row order.
pub proof fn lemma_column_skips_missing(
    rows: Seq<TimeStamp>,
    vals: Seq<Option<Seq<char>>>,
    nc: int,
    col: int,
    from: int,
)
    requires
        0 <= col < nc,
        0 <= from <= rows.len(),
        vals.len() == rows.len() * nc,
    ensures
        col_items(rows, vals, nc, col, from).len() == rows.len() - from - absent_count(
            vals,
            nc,
            col,
            from,
            rows.len() as int,
        ),
        0 <= absent_count(vals, nc, col, from, rows.len() as int) <= rows.len() - from,
        forall|i: int|
            0 <= i < col_items(rows, vals, nc, col, from).len() ==> exists|r: int|
                from <= r < rows.len() && #[trigger] vals[r * nc + col] is Some
                    && #[trigger] col_items(rows, vals, nc, col, from)[i] == (
                    rows[r],
                    vals[r * nc + col]->0,
                ),
    decreases rows.len() - from,
{
    if from < rows.len() {
        assert(0 <= from * nc + col < vals.len()) by (nonlinear_arith)
            requires
                0 <= from < rows.len(),
                0 <= col < nc,
                vals.len() == rows.len() * nc,
        ;
        lemma_column_skips_missing(rows, vals, nc, col, from + 1);
        let rest = col_items(rows, vals, nc, col, from + 1);
        if vals[from * nc + col] is Some {
            assert(forall|i: int|
                1 <= i < col_items(rows, vals, nc, col, from).len() ==> col_items(
                    rows,
                    vals,
                    nc,
                    col,
                    from,
                )[i] == rest[i - 1]);
        }
    }
}

/// The row indices of one column whose cell is present, from a given row
/// on, in ascending order.
pub open spec fn present_rows(
    vals: Seq<Option<Seq<char>>>,
    nc: int,
    col: int,
    from: int,
    len: int,
) -> Seq<int>
    decreases len - from,
{
    if from < 0 || from >= len {
        Seq::empty()
    } else {
        (if 0 <= from * nc + col < vals.len() && vals[from * nc + col] is Some {
            seq![from]
        } else {
            Seq::empty()
        }) + present_rows(vals, nc, col, from + 1, len)
    }
}

/// What a column yields is exactly its present rows, in ascending row
/// order: each present row contributes its timestamp and its cell's value,
/// each absent row contributes nothing, and no row is repeated.
pub proof fn lemma_col_items_are_present_rows(
    rows: Seq<TimeStamp>,
    vals: Seq<Option<Seq<char>>>,
    nc: int,
    col: int,
    from: int,
)
    requires
        0 <= col < nc,
        0 <= from <= rows.len(),
        vals.len() == rows.len() * nc,
    ensures
        col_items(rows, vals, nc, col, from) == present_rows(
            vals,
            nc,
            col,
            from,
            rows.len() as int,
        ).map_values(|r: int| (rows[r], vals[r * nc + col]->0)),
        forall|k: int|
            0 <= k < present_rows(vals, nc, col, from, rows.len() as int).len() ==> from
                <= #[trigger] present_rows(vals, nc, col, from, rows.len() as int)[k]
                < rows.len() && vals[present_rows(vals, nc, col, from, rows.len() as int)[k] * nc
                + col] is Some,
        forall|k1: int, k2: int|
            0 <= k1 < k2 < present_rows(vals, nc, col, from, rows.len() as int).len()
                ==> #[trigger] present_rows(vals, nc, col, from, rows.len() as int)[k1]
                < #[trigger] present_rows(vals, nc, col, from, rows.len() as int)[k2],
        forall|r: int|
            from <= r < rows.len() && #[trigger] vals[r * nc + col] is Some ==> present_rows(
                vals,
                nc,
                col,
                from,
                rows.len() as int,
            ).contains(r),
    decreases rows.len() - from,
{
    let pr = present_rows(vals, nc, col, from, rows.len() as int);
    let f = |r: int| (rows[r], vals[r * nc + col]->0);
    if from == rows.len() {
        assert(pr.map_values(f) =~= col_items(rows, vals, nc, col, from));
    } else {
        assert(0 <= from * nc + col < vals.len()) by (nonlinear_arith)
            requires
                0 <= from < rows.len(),
                0 <= col < nc,
                vals.len() == rows.len() * nc,
        ;
        lemma_col_items_are_present_rows(rows, vals, nc, col, from + 1);
        let pr1 = present_rows(vals, nc, col, from + 1, rows.len() as int);
        if vals[from * nc + col] is Some {
            assert(pr == seq![from] + pr1);
            assert(pr.map_values(f) =~= seq![f(from)] + pr1.map_values(f));
            assert(col_items(rows, vals, nc, col, from) == seq![f(from)] + col_items(
                rows,
                vals,
                nc,
                col,
                from + 1,
            ));
            assert(forall|r: int|
                from <= r < rows.len() && #[trigger] vals[r * nc + col] is Some ==> pr.contains(
                    r,
                )) by {
                assert forall|r: int|
                    from <= r < rows.len() && #[trigger] vals[r * nc + col] is Some implies pr
                    .contains(r) by {
                    if r == from {
                        assert(pr[0] == r);
                    } else {
                        assert(pr1.contains(r));
                        let k = choose|k: int| 0 <= k < pr1.len() && pr1[k] == r;
                        assert(pr[k + 1] == r);
                    }
                }
            }
        } else {
            assert(pr =~= pr1);
            assert(forall|r: int|
                from <= r < rows.len() && #[trigger] vals[r * nc + col] is Some ==> pr.contains(
                    r,
                )) by {
                assert forall|r: int|
                    from <= r < rows.len() && #[trigger] vals[r * nc + col] is Some implies pr
                    .contains(r) by {
                    assert(r != from);
                    assert(pr1.contains(r));
                    let k = choose|k: int| 0 <= k < pr1.len() && pr1[k] == r;
                    assert(pr[k] == r);
                }
            }
        }
    }
}

/// Obtaining a column iterator twice for the same store and name and
/// draining both produces identical sequences: what an iterator yields is
/// a function of its store, its column and its cursor alone.
pub proof fn lemma_column_iter_idempotent(it1: NBMColumnIter<'_>, it2: NBMColumnIter<'_>)
    requires
        it1.src_spec() == it2.src_spec(),
        it1.col_spec() == it2.col_spec(),
        it1.row_spec() == it2.row_spec(),
    ensures
        it1.remaining() == it2.remaining(),
{
}

/// The first timestamp of a parse is the stamp of the first data line
/// whose key decodes; every line before it contributes nothing.
pub proof fn lemma_first_row_stamp(ls: Seq<Seq<char>>)
    requires
        rows_of(ls).len() > 0,
    ensures
        exists|i: int|
            0 <= i < ls.len() && #[trigger] row_stamp(ls[i]) is Some && rows_of(ls)[0] == row_stamp(
                ls[i],
            )->0 && forall|j: int| 0 <= j < i ==> row_stamp(ls[j]) is None,
    decreases ls.len(),
{
    if rows_of(ls.drop_last()).len() > 0 {
        lemma_first_row_stamp(ls.drop_last());
        let i = choose|i: int|
            0 <= i < ls.drop_last().len() && #[trigger] row_stamp(ls.drop_last()[i]) is Some
                && rows_of(ls.drop_last())[0] == row_stamp(ls.drop_last()[i])->0 && forall|j: int|
                0 <= j < i ==> row_stamp(ls.drop_last()[j]) is None;
        assert(ls.drop_last()[i] == ls[i]);
        assert(forall|j: int| 0 <= j < i ==> ls.drop_last()[j] == ls[j]);
        assert(row_stamp(ls[i]) is Some && rows_of(ls)[0] == row_stamp(ls[i])->0 && forall|j: int|
            0 <= j < i ==> row_stamp(ls[j]) is None);
    } else {
        let i = ls.len() - 1;
        lemma_rows_of_empty_prefix(ls.drop_last());
        assert(row_stamp(ls.last()) is Some);
        assert(rows_of(ls)[0] == row_stamp(ls[i])->0);
        assert(forall|j: int| 0 <= j < i ==> ls.drop_last()[j] == ls[j]);
        assert(row_stamp(ls[i]) is Some && rows_of(ls)[0] == row_stamp(ls[i])->0 && forall|j: int|
            0 <= j < i ==> row_stamp(ls[j]) is None);
    }
}

/// A parse with no timestamps comes from lines none of whose keys decode.
proof fn lemma_rows_of_empty_prefix(ls: Seq<Seq<char>>)
    requires
        rows_of(ls).len() == 0,
    ensures
        forall|j: int| 0 <= j < ls.len() ==> row_stamp(ls[j]) is None,
    decreases ls.len(),
{
    if ls.len() > 0 {
        lemma_rows_of_empty_prefix(ls.drop_last());
        assert(forall|j: int| 0 <= j < ls.len() - 1 ==> ls.drop_last()[j] == ls[j]);
    }
}

} // verus!
