use vstd::prelude::*;

verus! {

/// The filled cells of one line of a sudoku grid written row by row, `.` for
/// an empty cell: for each character at position `i` that is not `.`, its column
/// `i % 9 + 1`, its row `i / 9 + 1` and the character itself.
pub open spec fn givens_of(line: Seq<char>) -> Seq<(usize, usize, char)>
    decreases line.len(),
{
    if line.len() == 0 {
        Seq::empty()
    } else {
        let i = line.len() - 1;
        let rest = givens_of(line.drop_last());
        if line.last() == '.' {
            rest
        } else {
            rest.push(((i % 9 + 1) as usize, (i / 9 + 1) as usize, line.last()))
        }
    }
}

/// The cells that a line of a sudoku grid fills in (see `givens_of`); each
/// becomes the unit clause `<column><row><digit>` of the puzzle's encoding.
pub fn sudoku_givens(line: &[char]) -> (r: Vec<(usize, usize, char)>)
    ensures
        r@ == givens_of(line@),
{
    let mut r: Vec<(usize, usize, char)> = Vec::new();
    let mut i: usize = 0;
    while i < line.len()
        invariant
            i <= line@.len(),
            r@ == givens_of(line@.take(i as int)),
        decreases line@.len() - i,
    {
        proof {
            assert(line@.take(i + 1).drop_last() =~= line@.take(i as int));
        }
        if line[i] != '.' {
            r.push((i % 9 + 1, i / 9 + 1, line[i]));
        }
        i += 1;
    }
    assert(line@.take(line@.len() as int) =~= line@);
    r
}

} // verus!
