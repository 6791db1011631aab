//! The dataset text.
//!
//! Line feeds cut the text into lines. A line of blanks only is passed over.
//! Any other line is a row: commas cut it into cells, a cell is read without
//! the blanks around it, and each cell has to spell a number. The last cell of
//! a row is its target and the cells before it are its features, so a row has
//! two cells or more.

use crate::error::DataError;
use crate::number::{is_number, is_numeric};
use crate::text::{find_byte, lemma_find, lemma_trim, split, trim, trim_bytes};
use vstd::prelude::*;
use vstd::slice::{slice_subrange, slice_to_vec};

verus! {

/// One row of a dataset. Each number is kept as the bytes that spell it.
#[derive(Debug, Clone, PartialEq, Eq)]
pub struct Row {
    pub features: Vec<Vec<u8>>,
    pub target: Vec<u8>,
}

/// What each of `cells` holds.
pub open spec fn texts(cells: Seq<Vec<u8>>) -> Seq<Seq<u8>> {
    cells.map_values(|cell: Vec<u8>| cell@)
}

impl Row {
    /// The cells of the row in the order of the text: the features, then the
    /// target.
    pub open spec fn cells(self) -> Seq<Seq<u8>> {
        texts(self.features@).push(self.target@)
    }

    /// The row has a feature, and each of its cells spells a number.
    pub open spec fn wf(self) -> bool {
        &&& self.features@.len() >= 1
        &&& is_number(self.target@)
        &&& forall|k: int| 0 <= k < self.features@.len() ==> is_number(#[trigger] self.features@[k]@)
    }
}

/// What each of `rows` holds.
pub open spec fn table(rows: Seq<Row>) -> Seq<Seq<Seq<u8>>> {
    rows.map_values(|row: Row| row.cells())
}

/// The lines of a text.
pub open spec fn lines(text: Seq<u8>) -> Seq<Seq<u8>> {
    split(text, 0x0a)
}

/// The cells of a line.
pub open spec fn cells(line: Seq<u8>) -> Seq<Seq<u8>> {
    split(line, 0x2c).map_values(|cell: Seq<u8>| trim(cell))
}

/// A line that holds nothing but blanks.
pub open spec fn is_blank_line(line: Seq<u8>) -> bool {
    trim(line).len() == 0
}

/// A line that can be read as a row.
pub open spec fn is_row(line: Seq<u8>) -> bool {
    let c = cells(line);
    c.len() >= 2 && forall|k: int| 0 <= k < c.len() ==> is_number(#[trigger] c[k])
}

/// A line that the format allows: a blank one, or a row.
pub open spec fn is_admitted(line: Seq<u8>) -> bool {
    is_blank_line(line) || is_row(line)
}

/// The rows that `lines` hold, in their order.
pub open spec fn rows_of(lines: Seq<Seq<u8>>) -> Seq<Seq<Seq<u8>>> {
    lines.filter(|line: Seq<u8>| !is_blank_line(line)).map_values(|line: Seq<u8>| cells(line))
}

/// Cuts `line` into its cells.
pub fn split_cells(line: &[u8]) -> (out: Vec<Vec<u8>>)
    ensures
        texts(out@) == cells(line@),
{
    let mut out: Vec<Vec<u8>> = Vec::new();
    let mut pos: usize = 0;
    assert(line@.skip(0) =~= line@);
    loop
        invariant
            0 <= pos <= line.len(),
            cells(line@) =~= texts(out@) + cells(line@.skip(pos as int)),
        decreases line.len() - pos,
    {
        let ghost rest = line@.skip(pos as int);
        let at: usize = find_byte(line, pos, 0x2c);
        let cell = trim_bytes(slice_subrange(line, pos, at));
        let ghost before = texts(out@);
        out.push(slice_to_vec(cell));
        proof {
            lemma_find(rest, 0x2c);
            assert(rest.take(at - pos) =~= line@.subrange(pos as int, at as int));
            assert(texts(out@) =~= before.push(trim(rest.take(at - pos))));
        }
        if at == line.len() {
            assert(cells(rest) =~= seq![trim(rest)]);
            return out;
        }
        proof {
            assert(rest.skip(at - pos + 1) =~= line@.skip(at + 1));
            assert(cells(rest) =~= seq![trim(rest.take(at - pos))] + cells(line@.skip(at + 1)));
        }
        pos = at + 1;
    }
}

/// Reads `line` as a row: `Some` exactly when it is one, and then with each
/// cell as the line spells it.
pub fn parse_row(line: &[u8]) -> (r: Option<Row>)
    ensures
        r is Some <==> is_row(line@),
        r is Some ==> r->0.cells() == cells(line@) && r->0.wf(),
{
    let mut found = split_cells(line);
    let ghost all = texts(found@);
    if found.len() < 2 {
        return None;
    }
    let mut k: usize = 0;
    while k < found.len()
        invariant
            0 <= k <= found.len(),
            all == texts(found@),
            all == cells(line@),
            forall|j: int| 0 <= j < k ==> is_number(#[trigger] all[j]),
        decreases found.len() - k,
    {
        assert(all[k as int] == found@[k as int]@);
        if !is_numeric(found[k].as_slice()) {
            return None;
        }
        k += 1;
    }
    let target = found.pop().unwrap();
    let row = Row { features: found, target };
    assert(row.wf()) by {
        assert(row.target@ == all[all.len() - 1]);
        assert forall|k: int| 0 <= k < row.features@.len() implies is_number(
            #[trigger] row.features@[k]@,
        ) by {
            assert(row.features@[k]@ == all[k]);
        }
    }
    Some(row)
}

/// Reads a dataset from its text.
///
/// Where every line of the text is blank or a row, the rows come back in the
/// order of the text, blank lines left out. Otherwise the first line that is
/// neither is reported by its number, counted from one.
pub fn load_csv(text: &[u8]) -> (r: Result<Vec<Row>, DataError>)
    ensures
        match r {
            Ok(rows) => {
                &&& forall|i: int|
                    0 <= i < lines(text@).len() ==> is_admitted(#[trigger] lines(text@)[i])
                &&& table(rows@) == rows_of(lines(text@))
                &&& forall|i: int| 0 <= i < rows@.len() ==> (#[trigger] rows@[i]).wf()
            },
            Err(DataError::MalformedRow { line }) => {
                &&& 1 <= line <= lines(text@).len()
                &&& !is_admitted(lines(text@)[line - 1])
                &&& forall|i: int| 0 <= i < line - 1 ==> is_admitted(#[trigger] lines(text@)[i])
            },
            Err(_) => false,
        },
{
    let ghost all = lines(text@);
    let ghost keep = |line: Seq<u8>| !is_blank_line(line);
    let ghost read = |line: Seq<u8>| cells(line);
    let mut rows: Vec<Row> = Vec::new();
    let mut pos: usize = 0;
    let mut done: usize = 0;
    proof {
        assert(text@.skip(0) =~= text@);
        assert(all.take(0) =~= Seq::<Seq<u8>>::empty());
        reveal(Seq::filter);
    }
    loop
        invariant
            all == lines(text@),
            keep == |line: Seq<u8>| !is_blank_line(line),
            read == |line: Seq<u8>| cells(line),
            0 <= done <= pos <= text.len(),
            done <= all.len(),
            all =~= all.take(done as int) + lines(text@.skip(pos as int)),
            forall|i: int| 0 <= i < done ==> is_admitted(#[trigger] all[i]),
            table(rows@) == all.take(done as int).filter(keep).map_values(read),
            forall|i: int| 0 <= i < rows@.len() ==> (#[trigger] rows@[i]).wf(),
        decreases text.len() - pos,
    {
        let ghost rest = text@.skip(pos as int);
        let at: usize = find_byte(text, pos, 0x0a);
        let line = slice_subrange(text, pos, at);
        proof {
            lemma_find(rest, 0x0a);
            assert(rest.take(at - pos) =~= line@);
            if at == text.len() {
                assert(lines(rest) =~= seq![line@]);
            } else {
                assert(rest.skip(at - pos + 1) =~= text@.skip(at + 1));
                assert(lines(rest) =~= seq![line@] + lines(text@.skip(at + 1)));
            }
            assert(all[done as int] == line@);
            assert(all.take(done + 1) =~= all.take(done as int).push(line@));
            Seq::lemma_filter_push(all.take(done as int), line@, keep);
        }
        let ghost before = table(rows@);
        if trim_bytes(line).len() != 0 {
            match parse_row(line) {
                Some(row) => {
                    rows.push(row);
                    assert(table(rows@) =~= before.push(cells(line@)));
                },
                None => {
                    assert(line@.len() > 0) by {
                        lemma_trim(line@);
                    }
                    return Err(DataError::MalformedRow { line: done + 1 });
                },
            }
        }
        assert(table(rows@) =~= all.take(done + 1).filter(keep).map_values(read));
        if at == text.len() {
            assert(all =~= all.take(done + 1));
            return Ok(rows);
        }
        assert(all =~= all.take(done + 1) + lines(text@.skip(at + 1)));
        pos = at + 1;
        done = done + 1;
    }
}

} // verus!
