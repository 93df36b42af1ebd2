//! Extracting chosen columns from a delimited line: the computing core of
//! a field-cutting tool. Column numbers are one-based; every selected
//! column after the first is preceded by a tab, whether or not the first
//! column was selected.

use vstd::prelude::*;
use vstd::slice::{slice_subrange, slice_to_vec};

verus! {

/// The length of the run of non-separator characters starting at `i`.
pub open spec fn field_run(line: Seq<char>, sep: char, i: int) -> nat
    decreases (if line.len() - i >= 0 {
        line.len() - i
    } else {
        0
    }),
{
    if i < 0 || i >= line.len() || line[i] == sep {
        0nat
    } else {
        (1 + field_run(line, sep, i + 1)) as nat
    }
}

/// The fields of `line` from position `i` on, split at each separator.
/// A line with no separator is one field; each separator ends a field,
/// so a trailing separator yields a final empty field.
pub open spec fn spec_fields_from(line: Seq<char>, sep: char, i: int) -> Seq<Seq<char>>
    decreases (if line.len() - i >= 0 {
        line.len() - i
    } else {
        0
    }),
{
    let n = field_run(line, sep, i);
    if i < 0 || i + n >= line.len() {
        seq![line.subrange(i, line.len() as int)]
    } else {
        seq![line.subrange(i, i + n)] + spec_fields_from(line, sep, i + n + 1)
    }
}

/// Whether column number `col` is among the selected ones.
pub open spec fn wants(fields: Seq<usize>, col: int) -> bool {
    exists|m: int| 0 <= m < fields.len() && fields[m] == col
}

/// The output for a run of fields whose first field stands in column
/// `col`: each selected field, preceded by a tab unless it is column one.
pub open spec fn spec_cut_from(fs: Seq<Seq<char>>, fields: Seq<usize>, col: int) -> Seq<char>
    decreases fs.len(),
{
    if fs.len() == 0 {
        Seq::empty()
    } else {
        (if wants(fields, col) {
            (if col == 1 {
                Seq::<char>::empty()
            } else {
                seq!['\t']
            }) + fs[0]
        } else {
            Seq::<char>::empty()
        }) + spec_cut_from(fs.drop_first(), fields, col + 1)
    }
}

/// The selected columns of one line, in order.
pub open spec fn spec_cut_line(line: Seq<char>, sep: char, fields: Seq<usize>) -> Seq<char> {
    spec_cut_from(spec_fields_from(line, sep, 0), fields, 1)
}

/// Whether column number `col` is among the selected ones.
fn wants_col(fields: &Vec<usize>, col: usize) -> (b: bool)
    ensures
        b == wants(fields@, col as int),
{
    let mut m: usize = 0;
    while m < fields.len()
        invariant
            m <= fields@.len(),
            forall|q: int| 0 <= q < m ==> fields@[q] != col,
        decreases fields@.len() - m,
    {
        if fields[m] == col {
            return true;
        }
        m = m + 1;
    }
    false
}

/// The end of the field starting at `i`.
fn field_end(line: &Vec<char>, sep: char, i: usize) -> (j: usize)
    requires
        i <= line@.len(),
    ensures
        i <= j <= line@.len(),
        j == i + field_run(line@, sep, i as int),
{
    let mut j: usize = i;
    while j < line.len()
        invariant
            i <= j <= line@.len(),
            field_run(line@, sep, i as int) == (j - i) + field_run(line@, sep, j as int),
        decreases line@.len() - j,
    {
        if line[j] == sep {
            return j;
        }
        j = j + 1;
    }
    j
}

/// Extracts the selected columns of one line: splits at the separator and
/// emits each selected field, a tab before every one that is not column
/// one.
#[verifier::loop_isolation(false)]
pub fn cut_line(line: &Vec<char>, sep: char, fields: &Vec<usize>) -> (r: Vec<char>)
    requires
        line@.len() < usize::MAX,
    ensures
        r@ == spec_cut_line(line@, sep, fields@),
{
    let mut out: Vec<char> = Vec::new();
    let mut i: usize = 0;
    let mut col: usize = 1;
    proof {
        assert(out@ + spec_cut_from(spec_fields_from(line@, sep, 0), fields@, 1)
            =~= spec_cut_from(spec_fields_from(line@, sep, 0), fields@, 1));
    }
    loop
        invariant
            i <= line@.len(),
            1 <= col <= i + 1,
            spec_cut_line(line@, sep, fields@) == out@ + spec_cut_from(
                spec_fields_from(line@, sep, i as int),
                fields@,
                col as int,
            ),
        decreases line@.len() - i,
    {
        let j = field_end(line, sep, i);
        let ghost fs = spec_fields_from(line@, sep, i as int);
        proof {
            assert(fs[0] == line@.subrange(i as int, if i + field_run(line@, sep, i as int)
                >= line@.len() {
                line@.len() as int
            } else {
                i + field_run(line@, sep, i as int)
            }));
        }
        let ghost out_pre = out@;
        if wants_col(fields, col) {
            if col != 1 {
                out.push('\t');
            }
            let piece = slice_to_vec(slice_subrange(line.as_slice(), i, j));
            let mut k: usize = 0;
            while k < piece.len()
                invariant
                    k <= piece@.len(),
                    piece@ == line@.subrange(i as int, j as int),
                    out@ == out_pre + (if col == 1 {
                        Seq::<char>::empty()
                    } else {
                        seq!['\t']
                    }) + piece@.take(k as int),
                decreases piece@.len() - k,
            {
                proof {
                    assert(piece@.take(k + 1) =~= piece@.take(k as int).push(piece@[k as int]));
                }
                out.push(piece[k]);
                k = k + 1;
            }
            proof {
                assert(piece@.take(piece@.len() as int) =~= piece@);
            }
        }
        proof {
            let emitted = if wants(fields@, col as int) {
                (if col == 1 {
                    Seq::<char>::empty()
                } else {
                    seq!['\t']
                }) + line@.subrange(i as int, j as int)
            } else {
                Seq::<char>::empty()
            };
            assert(out@ =~= out_pre + emitted);
        }
        if j >= line.len() {
            proof {
                assert(spec_fields_from(line@, sep, i as int) == seq![
                    line@.subrange(i as int, line@.len() as int),
                ]);
                assert(seq![line@.subrange(i as int, line@.len() as int)].drop_first()
                    =~= Seq::<Seq<char>>::empty());
                assert(spec_cut_from(Seq::<Seq<char>>::empty(), fields@, col + 1)
                    == Seq::<char>::empty());
                assert(out@ + Seq::<char>::empty() =~= out@);
                assert(spec_cut_line(line@, sep, fields@) =~= out@);
            }
            return out;
        }
        proof {
            assert(spec_fields_from(line@, sep, i as int) == seq![
                line@.subrange(i as int, j as int),
            ] + spec_fields_from(line@, sep, j + 1));
            assert((seq![line@.subrange(i as int, j as int)] + spec_fields_from(
                line@,
                sep,
                j + 1,
            )).drop_first() =~= spec_fields_from(line@, sep, j + 1));
            let emitted = if wants(fields@, col as int) {
                (if col == 1 {
                    Seq::<char>::empty()
                } else {
                    seq!['\t']
                }) + line@.subrange(i as int, j as int)
            } else {
                Seq::<char>::empty()
            };
            assert((out_pre + emitted) + spec_cut_from(
                spec_fields_from(line@, sep, j + 1),
                fields@,
                col + 1,
            ) =~= out_pre + (emitted + spec_cut_from(
                spec_fields_from(line@, sep, j + 1),
                fields@,
                col + 1,
            )));
        }
        i = j + 1;
        col = col + 1;
    }
}

} // verus!
