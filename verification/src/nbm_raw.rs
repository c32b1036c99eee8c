//! The raw parser: turns the text blob into the three parallel arrays that
//! the columnar store is assembled from — column names from the header line,
//! one timestamp per data row whose key decodes, and one optional cell per
//! remaining field of such a row.

use vstd::prelude::*;
use vstd::string::*;
use crate::scan::is_float_token;
use crate::scan::is_float;
use crate::text::{spec_lines, spec_trim, split_on, views_of, split_lines, split_fields, trim_of};
use crate::text::{lemma_lines_nonempty, lemma_split_len, lemma_views_push};
use crate::timestamp::{TimeStamp, spec_parse_timestamp, parse_date_time};

verus! {

/// A cell holds its trimmed token where that token is a float literal, and
/// is absent otherwise.
pub open spec fn cell_of(t: Seq<char>) -> Option<Seq<char>> {
    if is_float_token(t) {
        Some(t)
    } else {
        None
    }
}

/// The views of a sequence of parsed cells.
pub open spec fn cell_views(vs: Seq<Option<String>>) -> Seq<Option<Seq<char>>> {
    vs.map_values(
        |c: Option<String>|
            match c {
                Some(x) => Some(x@),
                None => None,
            },
    )
}

/// The data lines of the text: every line after the header.
pub open spec fn data_lines(text: Seq<char>) -> Seq<Seq<char>> {
    if spec_lines(text).len() == 0 {
        Seq::empty()
    } else {
        spec_lines(text).drop_first()
    }
}

/// The column names: the header line's fields after the first, each trimmed.
pub open spec fn header_cols(text: Seq<char>) -> Seq<Seq<char>> {
    if spec_lines(text).len() == 0 {
        Seq::empty()
    } else {
        split_on(spec_lines(text)[0], ',').drop_first().map_values(|f: Seq<char>| spec_trim(f))
    }
}

/// The timestamp a data line is keyed by: its first field, decoded.
pub open spec fn row_stamp(line: Seq<char>) -> Option<TimeStamp> {
    spec_parse_timestamp(split_on(line, ',')[0])
}

/// The cells of one kept data line: its fields after the first, trimmed.
pub open spec fn line_cells(line: Seq<char>) -> Seq<Option<Seq<char>>> {
    split_on(line, ',').drop_first().map_values(|f: Seq<char>| cell_of(spec_trim(f)))
}

/// The timestamps of the data lines whose key decodes, in input order.
pub open spec fn rows_of(ls: Seq<Seq<char>>) -> Seq<TimeStamp>
    decreases ls.len(),
{
    if ls.len() == 0 {
        Seq::empty()
    } else {
        rows_of(ls.drop_last()) + (match row_stamp(ls.last()) {
            Some(ts) => seq![ts],
            None => Seq::empty(),
        })
    }
}

/// The cells of the kept data lines, flattened in row-major order; a line
/// whose key does not decode contributes nothing.
pub open spec fn vals_of(ls: Seq<Seq<char>>) -> Seq<Option<Seq<char>>>
    decreases ls.len(),
{
    if ls.len() == 0 {
        Seq::empty()
    } else {
        vals_of(ls.drop_last()) + (if row_stamp(ls.last()) is Some {
            line_cells(ls.last())
        } else {
            Seq::empty()
        })
    }
}

/// Appending a trimmed header field under the column-name map.
proof fn lemma_trim_map_push(a: Seq<Seq<char>>, x: Seq<char>)
    ensures
        (a.push(x)).map_values(|f: Seq<char>| spec_trim(f)) == a.map_values(
            |f: Seq<char>| spec_trim(f),
        ).push(spec_trim(x)),
{
    assert((a.push(x)).map_values(|f: Seq<char>| spec_trim(f)) =~~= a.map_values(
        |f: Seq<char>| spec_trim(f),
    ).push(spec_trim(x)));
}

/// Appending a field under the cell map.
proof fn lemma_cell_map_push(a: Seq<Seq<char>>, x: Seq<char>)
    ensures
        (a.push(x)).map_values(|f: Seq<char>| cell_of(spec_trim(f))) == a.map_values(
            |f: Seq<char>| cell_of(spec_trim(f)),
        ).push(cell_of(spec_trim(x))),
{
    assert((a.push(x)).map_values(|f: Seq<char>| cell_of(spec_trim(f))) =~~= a.map_values(
        |f: Seq<char>| cell_of(spec_trim(f)),
    ).push(cell_of(spec_trim(x))));
}

/// Appending a cell appends its view.
proof fn lemma_cell_views_push(vs: Seq<Option<String>>, x: Option<String>)
    ensures
        cell_views(vs.push(x)) == cell_views(vs).push(
            match x {
                Some(t) => Some(t@),
                None => None,
            },
        ),
{
    assert(cell_views(vs.push(x)) =~~= cell_views(vs).push(
        match x {
            Some(t) => Some(t@),
            None => None,
        },
    ));
}

/// A raw text blob about to be parsed.
pub struct NBMRaw<'text> {
    text: &'text str,
}

impl<'text> NBMRaw<'text> {
    /// The characters of the text this parser reads.
    pub closed spec fn text_view(self) -> Seq<char> {
        self.text@
    }

    /// Wrap a text blob for parsing.
    pub fn new(text: &'text str) -> (r: Self)
        ensures
            r.text_view() == text@,
    {
        NBMRaw { text }
    }

    /// Count the number of non-header rows and columns in this file.
    ///
    /// This doesn't include the header row or the column with valid times.
    pub fn count_rows_and_cols(&self) -> (rc: (usize, usize))
        requires
            self.text_view().len() >= 1,
        ensures
            rc.0 == spec_lines(self.text_view()).len() - 1,
            rc.1 == split_on(spec_lines(self.text_view())[0], ',').len() - 1,
    {
        proof {
            lemma_lines_nonempty(self.text_view());
        }
        let lines = split_lines(self.text);
        proof {
            assert(views_of(lines@).len() == lines@.len());
            assert(views_of(lines@)[0] == lines@[0]@);
        }
        let fields = split_fields(lines[0].as_str());
        proof {
            lemma_split_len(lines@[0]@, ',');
            assert(views_of(fields@).len() == fields@.len());
        }
        let rows = lines.len() - 1;
        let cols = fields.len() - 1;
        (rows, cols)
    }

    /// Parse the whole text: the trimmed column names of the header, the
    /// timestamps of the data rows whose key decodes, and the cells of those
    /// rows, flattened in row-major order. A data row whose timestamp field
    /// does not decode contributes neither a timestamp nor cells.
    pub fn parse_full(&self, num_rows: usize, num_cols: usize) -> (out: (
        Vec<String>,
        Vec<TimeStamp>,
        Vec<Option<String>>,
    ))
        ensures
            views_of(out.0@) == header_cols(self.text_view()),
            out.1@ == rows_of(data_lines(self.text_view())),
            cell_views(out.2@) == vals_of(data_lines(self.text_view())),
    {
        let ghost txt = self.text_view();
        let ghost dl = data_lines(txt);
        let lines = split_lines(self.text);
        proof {
            assert(views_of(lines@).len() == lines@.len());
            assert(forall|t: int|
                0 <= t < lines@.len() ==> views_of(lines@)[t] == #[trigger] lines@[t]@);
        }
        let mut cols: Vec<String> = Vec::with_capacity(num_cols);
        let total = lines.len();
        if total == 0 {
            proof {
                assert(views_of(cols@) =~~= header_cols(txt));
                assert(dl =~~= Seq::<Seq<char>>::empty());
                assert(views_of(Seq::<String>::empty()) =~~= Seq::<Seq<char>>::empty());
            }
            let rows: Vec<TimeStamp> = Vec::with_capacity(num_rows);
            let vals: Vec<Option<String>> = Vec::new();
            proof {
                assert(cell_views(vals@) =~~= vals_of(dl));
            }
            return (cols, rows, vals);
        }
        // the header line: skip the first field, trim and keep the rest
        let ghost hf = split_on(lines@[0]@, ',');
        let fields = split_fields(lines[0].as_str());
        proof {
            lemma_split_len(lines@[0]@, ',');
            assert(views_of(fields@).len() == fields@.len());
            assert(hf.subrange(1, 1) =~= Seq::<Seq<char>>::empty());
            assert(views_of(cols@) =~~= Seq::<Seq<char>>::empty());
            assert(Seq::<Seq<char>>::empty().map_values(|f: Seq<char>| spec_trim(f))
                =~~= Seq::<Seq<char>>::empty());
        }
        let mut j: usize = 1;
        while j < fields.len()
            invariant
                1 <= j <= fields@.len(),
                hf.len() == fields@.len(),
                hf == split_on(lines@[0]@, ','),
                forall|t: int| 0 <= t < fields@.len() ==> #[trigger] fields@[t]@ == hf[t],
                views_of(cols@) == hf.subrange(1, j as int).map_values(
                    |f: Seq<char>| spec_trim(f),
                ),
            decreases fields@.len() - j,
        {
            let piece = trim_of(fields[j].as_str());
            proof {
                lemma_views_push(cols@, piece);
                lemma_trim_map_push(hf.subrange(1, j as int), hf[j as int]);
                assert(hf.subrange(1, j as int + 1) =~= hf.subrange(1, j as int).push(
                    hf[j as int],
                ));
            }
            cols.push(piece);
            j += 1;
        }
        proof {
            assert(hf.subrange(1, hf.len() as int) =~= hf.drop_first());
            assert(views_of(cols@) == header_cols(txt));
        }
        // the data lines: one timestamp per decodable key, then its cells
        let mut rows: Vec<TimeStamp> = Vec::with_capacity(num_rows);
        let mut vals: Vec<Option<String>> = Vec::new();
        proof {
            assert(dl.len() == lines@.len() - 1);
            assert(forall|t: int| 0 <= t < dl.len() ==> dl[t] == views_of(lines@)[t + 1]);
            assert(dl.subrange(0, 0) =~= Seq::<Seq<char>>::empty());
            assert(rows@ =~= rows_of(dl.subrange(0, 0)));
            assert(cell_views(vals@) =~~= vals_of(dl.subrange(0, 0)));
        }
        let mut li: usize = 1;
        while li < total
            invariant
                1 <= li <= total,
                total == lines@.len(),
                dl == data_lines(txt),
                dl.len() == lines@.len() - 1,
                forall|t: int| 0 <= t < lines@.len() ==> views_of(lines@)[t] == #[trigger] lines@[t]@,
                forall|t: int| 0 <= t < dl.len() ==> #[trigger] dl[t] == lines@[t + 1]@,
                rows@ == rows_of(dl.subrange(0, li - 1)),
                cell_views(vals@) == vals_of(dl.subrange(0, li - 1)),
            decreases total - li,
        {
            let ghost line = dl[li - 1];
            let ghost lf = split_on(line, ',');
            let fields = split_fields(lines[li].as_str());
            proof {
                lemma_split_len(line, ',');
                assert(views_of(fields@).len() == fields@.len());
                assert(forall|t: int| 0 <= t < fields@.len() ==> #[trigger] fields@[t]@ == lf[t]);
            }
            match parse_date_time(fields[0].as_str()) {
                Some(ts) => {
                    proof {
                        assert(row_stamp(line) == Some(ts));
                    }
                    rows.push(ts);
                    let ghost vpre = cell_views(vals@);
                    proof {
                        assert(lf.subrange(1, 1) =~= Seq::<Seq<char>>::empty());
                        assert(Seq::<Seq<char>>::empty().map_values(
                            |f: Seq<char>| cell_of(spec_trim(f)),
                        ) =~~= Seq::<Option<Seq<char>>>::empty());
                        assert(vpre + lf.subrange(1, 1).map_values(
                            |f: Seq<char>| cell_of(spec_trim(f)),
                        ) =~~= vpre);
                    }
                    let mut k: usize = 1;
                    while k < fields.len()
                        invariant
                            1 <= k <= fields@.len(),
                            lf.len() == fields@.len(),
                            forall|t: int|
                                0 <= t < fields@.len() ==> #[trigger] fields@[t]@ == lf[t],
                            cell_views(vals@) == vpre + lf.subrange(1, k as int).map_values(
                                |f: Seq<char>| cell_of(spec_trim(f)),
                            ),
                        decreases fields@.len() - k,
                    {
                        let t = trim_of(fields[k].as_str());
                        let c: Option<String> = if is_float(t.as_str()) {
                            Some(t)
                        } else {
                            None
                        };
                        proof {
                            lemma_cell_views_push(vals@, c);
                            lemma_cell_map_push(lf.subrange(1, k as int), lf[k as int]);
                            assert(lf.subrange(1, k as int + 1) =~= lf.subrange(1, k as int).push(
                                lf[k as int],
                            ));
                            assert(vpre + lf.subrange(1, k as int).map_values(
                                |f: Seq<char>| cell_of(spec_trim(f)),
                            ).push(cell_of(spec_trim(lf[k as int]))) =~~= (vpre + lf.subrange(
                                1,
                                k as int,
                            ).map_values(|f: Seq<char>| cell_of(spec_trim(f)))).push(
                                cell_of(spec_trim(lf[k as int])),
                            ));
                        }
                        vals.push(c);
                        k += 1;
                    }
                    proof {
                        assert(lf.subrange(1, lf.len() as int) =~= lf.drop_first());
                        assert(cell_views(vals@) == vpre + line_cells(line));
                    }
                },
                None => {
                    proof {
                        assert(row_stamp(line) is None);
                    }
                },
            }
            proof {
                let pre = dl.subrange(0, li - 1);
                let cur = dl.subrange(0, li as int);
                assert(cur.drop_last() =~= pre);
                assert(cur.last() == dl[li - 1]);
                assert(rows@ == rows_of(cur));
                assert(cell_views(vals@) == vals_of(cur));
            }
            li += 1;
        }
        proof {
            assert(dl.subrange(0, dl.len() as int) =~= dl);
        }
        (cols, rows, vals)
    }
}

} // verus!
