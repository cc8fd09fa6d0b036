//! The L* learner: saturation, repair of the table, hypotheses and refinement.
use vstd::prelude::*;

use crate::acceptor::{edges_view, Edge, RunError, State, DFA};
use crate::table::{lemma_state_name_injective, state_name, ObservationTable};
use crate::word::{concat, extend, over, Symbol, Word, WordView};

verus! {

broadcast use vstd::map_lib::lemma_submap_of_trans;

/// Why learning stopped without a hypothesis.
#[derive(Debug, Clone, Copy, PartialEq, Eq, Structural)]
pub enum LearnError {
    /// A membership query on the target failed.
    Query(RunError),
    /// The step budget ran out before the hypothesis matched the target.
    StepLimit,
}

/// Every cell holds the target's verdict on its prefix followed by its suffix.
pub open spec fn faithful(t: ObservationTable, target: DFA) -> bool {
    forall|k: (WordView, WordView)|
        #[trigger] t.cells_view().contains_key(k) ==> target.accepts(k.0 + k.1) == Ok::<
            bool,
            RunError,
        >(t.cells_view()[k])
}

/// The cell at `p`, `s` is filled, and so is every one-symbol extension of `p`
/// at `s`.
pub open spec fn cell_saturated(
    t: ObservationTable,
    alph: Seq<Seq<char>>,
    p: WordView,
    s: WordView,
) -> bool {
    &&& t.cells_view().contains_key((p, s))
    &&& forall|k: int|
        0 <= k < alph.len() ==> t.cells_view().contains_key((p.push(#[trigger] alph[k]), s))
}

/// Every column is saturated for prefix `p`.
pub open spec fn row_saturated(t: ObservationTable, alph: Seq<Seq<char>>, p: WordView) -> bool {
    forall|j: int| 0 <= j < t.cols_view().len() ==> cell_saturated(t, alph, p, #[trigger] t.cols_view()[j])
}

/// Every row and every one-symbol extension of a row has a value in every column.
pub open spec fn saturated(t: ObservationTable, alph: Seq<Seq<char>>) -> bool {
    forall|i: int| 0 <= i < t.rows_view().len() ==> row_saturated(t, alph, #[trigger] t.rows_view()[i])
}

/// Answers whether the target accepts `input`.
pub fn membership_query(target: &DFA, input: &[Symbol]) -> (r: Result<bool, RunError>)
    ensures
        r == target.accepts(input.deep_view()),
{
    target.run(input)
}

/// A copy of a list of words.
fn copy_words(ws: &[Word]) -> (r: Vec<Word>)
    ensures
        r.deep_view() == ws.deep_view(),
{
    let mut r: Vec<Word> = Vec::new();
    let mut i: usize = 0;
    while i < ws.len()
        invariant
            i <= ws.len(),
            r.deep_view() == ws.deep_view().take(i as int),
        decreases ws.len() - i,
    {
        let ghost before = r.deep_view();
        r.push(concat(&ws[i], &[]));
        assert(r.deep_view() =~= before.push(ws.deep_view()[i as int]));
        assert(r.deep_view() =~= ws.deep_view().take(i + 1));
        i = i + 1;
    }
    assert(ws.deep_view().take(ws.len() as int) =~= ws.deep_view());
    r
}

/// Fills the cell at `p`, `s` with one membership query unless it is filled,
/// counting the queries made in `count` (saturating).
fn fill_one(
    table: &mut ObservationTable,
    target: &DFA,
    p: &[Symbol],
    s: &[Symbol],
    count: &mut usize,
    Ghost(start): Ghost<ObservationTable>,
) -> (r: Result<(), RunError>)
    requires
        old(table).wf(),
        start.cells_view().submap_of(old(table).cells_view()),
        *old(count) == 0 <==> old(table).cells_view() == start.cells_view(),
    ensures
        final(table).wf(),
        faithful(*old(table), *target) ==> faithful(*final(table), *target),
        forall|key: (WordView, WordView)|
            #[trigger] final(table).cells_view().contains_key(key) ==> old(table).cells_view().contains_key(key)
                || key == (p.deep_view(), s.deep_view()),
        final(table).rows_view() == old(table).rows_view(),
        final(table).cols_view() == old(table).cols_view(),
        old(table).cells_view().submap_of(final(table).cells_view()),
        start.cells_view().submap_of(final(table).cells_view()),
        *final(count) == 0 <==> final(table).cells_view() == start.cells_view(),
        r is Ok ==> final(table).cells_view().contains_key((p.deep_view(), s.deep_view())),
        r matches Err(e) ==> target.accepts(p.deep_view() + s.deep_view()) == Err::<bool, RunError>(e),
        old(table).cells_view().contains_key((p.deep_view(), s.deep_view())) ==> r is Ok
            && *final(table) == *old(table) && *final(count) == *old(count),
{
    if table.is_filled(p, s) {
        return Ok(());
    }
    let w = concat(p, s);
    let v = match membership_query(target, &w) {
        Ok(v) => v,
        Err(e) => {
            return Err(e);
        },
    };
    table.fill_cell(p, s, v);
    assert(!start.cells_view().contains_key((p.deep_view(), s.deep_view())));
    assert(table.cells_view() != start.cells_view());
    *count = count.saturating_add(1);
    Ok(())
}

/// `key` names a row or a one-symbol extension of a row, and a column, of `t`.
pub open spec fn fill_key(t: ObservationTable, alph: Seq<Seq<char>>, key: (WordView, WordView)) -> bool {
    exists|i: int, j: int|
        0 <= i < t.rows_view().len() && 0 <= j < t.cols_view().len() && key.1 == t.cols_view()[j] && (key.0
            == t.rows_view()[i] || exists|k: int| 0 <= k < alph.len() && key.0 == t.rows_view()[i].push(alph[k]))
}

/// Every cell of `t` that `start` lacks names a row or a one-symbol extension
/// of a row, and a column, of `start`.
pub open spec fn confined(start: ObservationTable, t: ObservationTable, alph: Seq<Seq<char>>) -> bool {
    forall|key: (WordView, WordView)|
        #[trigger] t.cells_view().contains_key(key) ==> start.cells_view().contains_key(key) || fill_key(
            start,
            alph,
            key,
        )
}

proof fn lemma_confined_step(
    start: ObservationTable,
    t1: ObservationTable,
    t2: ObservationTable,
    alph: Seq<Seq<char>>,
    added: (WordView, WordView),
)
    requires
        confined(start, t1, alph),
        fill_key(start, alph, added),
        forall|key: (WordView, WordView)|
            #[trigger] t2.cells_view().contains_key(key) ==> t1.cells_view().contains_key(key) || key == added,
    ensures
        confined(start, t2, alph),
{
    assert forall|key: (WordView, WordView)| #[trigger] t2.cells_view().contains_key(key) implies start.cells_view().contains_key(key) || fill_key(start, alph, key) by {
        if key != added {
            assert(t1.cells_view().contains_key(key));
        }
    }
}

/// A membership query failed with `e` on a row or a one-symbol extension of
/// a row, followed by a column.
pub open spec fn fill_failure(t: ObservationTable, alph: Seq<Seq<char>>, target: DFA, e: RunError) -> bool {
    exists|i: int, j: int, p: WordView|
        0 <= i < t.rows_view().len() && 0 <= j < t.cols_view().len() && (p == t.rows_view()[i]
            || exists|k: int| 0 <= k < alph.len() && p == t.rows_view()[i].push(alph[k]))
            && target.accepts(p + t.cols_view()[j]) == Err::<bool, RunError>(e)
}

/// Saturation of a cell survives the growth of the cells.
proof fn lemma_cell_saturated_grows(
    t1: ObservationTable,
    t2: ObservationTable,
    alph: Seq<Seq<char>>,
    p: WordView,
    s: WordView,
)
    requires
        t1.cells_view().submap_of(t2.cells_view()),
        cell_saturated(t1, alph, p, s),
    ensures
        cell_saturated(t2, alph, p, s),
{
    assert forall|k: int| 0 <= k < alph.len() implies t2.cells_view().contains_key(
        (p.push(#[trigger] alph[k]), s),
    ) by {
        assert(t1.cells_view().contains_key((p.push(alph[k]), s)));
    }
}

/// Saturation of a row survives the growth of the cells under the same columns.
proof fn lemma_row_saturated_grows(
    t1: ObservationTable,
    t2: ObservationTable,
    alph: Seq<Seq<char>>,
    p: WordView,
)
    requires
        t1.cells_view().submap_of(t2.cells_view()),
        t1.cols_view() == t2.cols_view(),
        row_saturated(t1, alph, p),
    ensures
        row_saturated(t2, alph, p),
{
    assert forall|j: int| 0 <= j < t2.cols_view().len() implies cell_saturated(
        t2,
        alph,
        p,
        #[trigger] t2.cols_view()[j],
    ) by {
        lemma_cell_saturated_grows(t1, t2, alph, p, t1.cols_view()[j]);
    }
}

/// Asks a membership query for every unfilled cell of every row and of every
/// one-symbol extension of a row, and returns how many were asked
/// (saturating); filled cells keep their values.
pub fn fill(table: &mut ObservationTable, target: &DFA) -> (r: Result<usize, RunError>)
    requires
        old(table).wf(),
    ensures
        final(table).wf(),
        faithful(*old(table), *target) ==> faithful(*final(table), *target),
        confined(*old(table), *final(table), target.alphabet_view()),
        final(table).rows_view() == old(table).rows_view(),
        final(table).cols_view() == old(table).cols_view(),
        old(table).cells_view().submap_of(final(table).cells_view()),
        r is Ok ==> saturated(*final(table), target.alphabet_view()),
        r is Ok ==> (r->Ok_0 == 0 <==> final(table).cells_view() == old(table).cells_view()),
        saturated(*old(table), target.alphabet_view()) ==> r == Ok::<usize, RunError>(0)
            && *final(table) == *old(table),
        r matches Err(e) ==> fill_failure(*old(table), target.alphabet_view(), *target, e),
{
    let ghost start = *table;
    let ghost alph = target.alphabet_view();
    let rows = copy_words(table.get_rows());
    let cols = copy_words(table.get_columns());
    let letters = target.get_alphabet();
    let mut count: usize = 0;
    let mut i: usize = 0;
    while i < rows.len()
        invariant
            i <= rows.len(),
            table.wf(),
            start == *old(table),
            faithful(start, *target) ==> faithful(*table, *target),
            confined(start, *table, alph),
            rows.deep_view() == start.rows_view(),
            cols.deep_view() == start.cols_view(),
            letters.deep_view() == alph,
            alph == target.alphabet_view(),
            table.rows_view() == start.rows_view(),
            table.cols_view() == start.cols_view(),
            start.cells_view().submap_of(table.cells_view()),
            count == 0 <==> table.cells_view() == start.cells_view(),
            saturated(start, alph) ==> *table == start && count == 0,
            forall|i2: int| 0 <= i2 < i ==> row_saturated(*table, alph, #[trigger] rows.deep_view()[i2]),
        decreases rows.len() - i,
    {
        let ghost row_start = *table;
        let mut j: usize = 0;
        while j < cols.len()
            invariant
                i < rows.len(),
                j <= cols.len(),
                table.wf(),
                start == *old(table),
                faithful(start, *target) ==> faithful(*table, *target),
                confined(start, *table, alph),
                rows.deep_view() == start.rows_view(),
                cols.deep_view() == start.cols_view(),
                letters.deep_view() == alph,
                alph == target.alphabet_view(),
                table.rows_view() == start.rows_view(),
                table.cols_view() == start.cols_view(),
                start.cells_view().submap_of(table.cells_view()),
                row_start.cells_view().submap_of(table.cells_view()),
                count == 0 <==> table.cells_view() == start.cells_view(),
                saturated(start, alph) ==> *table == start && count == 0,
                forall|i2: int| 0 <= i2 < i ==> row_saturated(row_start, alph, #[trigger] rows.deep_view()[i2]),
                forall|j2: int|
                    0 <= j2 < j ==> cell_saturated(
                        *table,
                        alph,
                        rows.deep_view()[i as int],
                        #[trigger] cols.deep_view()[j2],
                    ),
            decreases cols.len() - j,
        {
            let ghost cell_start = *table;
            let row: &[Symbol] = rows[i].as_slice();
            let col: &[Symbol] = cols[j].as_slice();
            assert(row.deep_view() == rows.deep_view()[i as int]);
            assert(col.deep_view() == cols.deep_view()[j as int]);
            proof {
                if saturated(start, alph) {
                    assert(row_saturated(start, alph, start.rows_view()[i as int]));
                    assert(cell_saturated(start, alph, start.rows_view()[i as int], start.cols_view()[j as int]));
                }
            }
            let ghost t_before = *table;
            match fill_one(table, target, row, col, &mut count, Ghost(start)) {
                Ok(()) => {
                    proof {
                        assert(fill_key(start, alph, (row.deep_view(), col.deep_view()))) by {
                            assert(start.rows_view()[i as int] == row.deep_view());
                            assert(start.cols_view()[j as int] == col.deep_view());
                        }
                        lemma_confined_step(start, t_before, *table, alph, (row.deep_view(), col.deep_view()));
                    }
                },
                Err(e) => {
                    assert(fill_failure(start, alph, *target, e)) by {
                        assert(target.accepts(start.rows_view()[i as int] + start.cols_view()[j as int]) == Err::<bool, RunError>(e));
                    }
                    return Err(e);
                },
            }
            let mut k: usize = 0;
            while k < letters.len()
                invariant
                    i < rows.len(),
                    j < cols.len(),
                    k <= letters.len(),
                    row.deep_view() == rows.deep_view()[i as int],
                    col.deep_view() == cols.deep_view()[j as int],
                    table.wf(),
                    start == *old(table),
                    faithful(start, *target) ==> faithful(*table, *target),
                    confined(start, *table, alph),
                    rows.deep_view() == start.rows_view(),
                    cols.deep_view() == start.cols_view(),
                    letters.deep_view() == alph,
                    alph == target.alphabet_view(),
                    table.rows_view() == start.rows_view(),
                    table.cols_view() == start.cols_view(),
                    start.cells_view().submap_of(table.cells_view()),
                    cell_start.cells_view().submap_of(table.cells_view()),
                    count == 0 <==> table.cells_view() == start.cells_view(),
                    saturated(start, alph) ==> *table == start && count == 0,
                    saturated(start, alph) ==> cell_saturated(start, alph, row.deep_view(), col.deep_view()),
                    table.cells_view().contains_key((row.deep_view(), col.deep_view())),
                    forall|k2: int|
                        0 <= k2 < k ==> table.cells_view().contains_key(
                            (row.deep_view().push(#[trigger] alph[k2]), col.deep_view()),
                        ),
                decreases letters.len() - k,
            {
                let ghost before = *table;
                let ra = extend(row, &letters[k]);
                assert(letters.deep_view()[k as int] == letters[k as int]@);
                match fill_one(table, target, &ra, col, &mut count, Ghost(start)) {
                    Ok(()) => {
                        proof {
                            assert(fill_key(start, alph, (ra.deep_view(), col.deep_view()))) by {
                                assert(start.rows_view()[i as int] == row.deep_view());
                                assert(start.cols_view()[j as int] == col.deep_view());
                                assert(ra.deep_view() == start.rows_view()[i as int].push(alph[k as int]));
                            }
                            lemma_confined_step(start, before, *table, alph, (ra.deep_view(), col.deep_view()));
                        }
                    },
                    Err(e) => {
                        assert(fill_failure(start, alph, *target, e)) by {
                            let p = start.rows_view()[i as int].push(alph[k as int]);
                            assert(ra.deep_view() == p);
                            assert(target.accepts(p + start.cols_view()[j as int]) == Err::<bool, RunError>(e));
                        }
                        return Err(e);
                    },
                }
                assert forall|k2: int| 0 <= k2 <= k implies table.cells_view().contains_key(
                    (row.deep_view().push(#[trigger] alph[k2]), col.deep_view()),
                ) by {
                    if k2 < k {
                        assert(before.cells_view().contains_key(
                            (row.deep_view().push(alph[k2]), col.deep_view()),
                        ));
                    }
                }
                k = k + 1;
            }
            assert forall|j2: int|
                0 <= j2 <= j implies cell_saturated(
                *table,
                alph,
                rows.deep_view()[i as int],
                #[trigger] cols.deep_view()[j2],
            ) by {
                if j2 < j {
                    lemma_cell_saturated_grows(cell_start, *table, alph, rows.deep_view()[i as int], cols.deep_view()[j2]);
                }
            }
            j = j + 1;
        }
        assert forall|i2: int| 0 <= i2 <= i implies row_saturated(*table, alph, #[trigger] rows.deep_view()[i2]) by {
            if i2 < i {
                lemma_row_saturated_grows(row_start, *table, alph, rows.deep_view()[i2]);
            }
        }
        i = i + 1;
    }
    Ok(count)
}

/// The value of the cell at `p`, `s`, if it is filled.
pub open spec fn cell_opt(t: ObservationTable, p: WordView, s: WordView) -> Option<bool> {
    if t.cells_view().contains_key((p, s)) {
        Some(t.cells_view()[(p, s)])
    } else {
        None
    }
}

/// Prefixes `p1` and `p2` show the same cells in every column.
pub open spec fn agree(t: ObservationTable, p1: WordView, p2: WordView) -> bool {
    forall|j: int|
        0 <= j < t.cols_view().len() ==> cell_opt(t, p1, #[trigger] t.cols_view()[j]) == cell_opt(
            t,
            p2,
            t.cols_view()[j],
        )
}

/// Rows that agree still agree after any one-symbol extension.
pub open spec fn consistent(t: ObservationTable, alph: Seq<Seq<char>>) -> bool {
    forall|i1: int, i2: int|
        0 <= i1 < t.rows_view().len() && 0 <= i2 < t.rows_view().len() && agree(
            t,
            #[trigger] t.rows_view()[i1],
            #[trigger] t.rows_view()[i2],
        ) ==> forall|k: int|
            0 <= k < alph.len() ==> agree(
                t,
                t.rows_view()[i1].push(#[trigger] alph[k]),
                t.rows_view()[i2].push(alph[k]),
            )
}

/// Some row agrees with prefix `p`.
pub open spec fn has_row_like(t: ObservationTable, p: WordView) -> bool {
    exists|i: int| 0 <= i < t.rows_view().len() && agree(t, p, #[trigger] t.rows_view()[i])
}

/// Every one-symbol extension of a row agrees with some row.
pub open spec fn closed(t: ObservationTable, alph: Seq<Seq<char>>) -> bool {
    forall|i: int, k: int|
        0 <= i < t.rows_view().len() && 0 <= k < alph.len() ==> has_row_like(
            t,
            #[trigger] t.rows_view()[i].push(#[trigger] alph[k]),
        )
}

/// The first column in which `p1` and `p2` show different cells.
fn first_disagreement(table: &ObservationTable, p1: &[Symbol], p2: &[Symbol]) -> (r: Option<usize>)
    requires
        table.wf(),
    ensures
        match r {
            None => agree(*table, p1.deep_view(), p2.deep_view()),
            Some(j) => j < table.cols_view().len() && cell_opt(
                *table,
                p1.deep_view(),
                table.cols_view()[j as int],
            ) != cell_opt(*table, p2.deep_view(), table.cols_view()[j as int]),
        },
{
    let cols = table.get_columns();
    let mut j: usize = 0;
    while j < cols.len()
        invariant
            j <= cols.len(),
            table.wf(),
            cols.deep_view() == table.cols_view(),
            forall|j2: int|
                0 <= j2 < j ==> cell_opt(*table, p1.deep_view(), #[trigger] table.cols_view()[j2])
                    == cell_opt(*table, p2.deep_view(), table.cols_view()[j2]),
        decreases cols.len() - j,
    {
        let col: &[Symbol] = cols[j].as_slice();
        assert(col.deep_view() == table.cols_view()[j as int]);
        if table.get_cell(p1, col) != table.get_cell(p2, col) {
            return Some(j);
        }
        j = j + 1;
    }
    None
}

/// For agreeing rows `r1` and `r2`, the column `a·e` that tells their
/// extensions by `a` apart in column `e`, if there is one.
fn pair_divergence(
    table: &ObservationTable,
    letters: &[Symbol],
    r1: &[Symbol],
    r2: &[Symbol],
) -> (r: Option<Word>)
    requires
        table.wf(),
    ensures
        match r {
            None => agree(*table, r1.deep_view(), r2.deep_view()) ==> forall|k: int|
                0 <= k < letters.deep_view().len() ==> agree(
                    *table,
                    r1.deep_view().push(#[trigger] letters.deep_view()[k]),
                    r2.deep_view().push(letters.deep_view()[k]),
                ),
            Some(w) => agree(*table, r1.deep_view(), r2.deep_view()) && exists|k: int, j: int|
                0 <= k < letters.deep_view().len() && 0 <= j < table.cols_view().len()
                    && cell_opt(*table, r1.deep_view().push(letters.deep_view()[k]), table.cols_view()[j])
                    != cell_opt(*table, r2.deep_view().push(letters.deep_view()[k]), table.cols_view()[j])
                    && w.deep_view() == seq![letters.deep_view()[k]] + table.cols_view()[j],
        },
{
    if first_disagreement(table, r1, r2).is_some() {
        return None;
    }
    let mut k: usize = 0;
    while k < letters.len()
        invariant
            k <= letters.len(),
            table.wf(),
            agree(*table, r1.deep_view(), r2.deep_view()),
            forall|k2: int|
                0 <= k2 < k ==> agree(
                    *table,
                    r1.deep_view().push(#[trigger] letters.deep_view()[k2]),
                    r2.deep_view().push(letters.deep_view()[k2]),
                ),
        decreases letters.len() - k,
    {
        let a1 = extend(r1, &letters[k]);
        let a2 = extend(r2, &letters[k]);
        assert(letters.deep_view()[k as int] == letters[k as int]@);
        match first_disagreement(table, &a1, &a2) {
            Some(j) => {
                let cols = table.get_columns();
                let first = extend(&[], &letters[k]);
                let col: &[Symbol] = cols[j].as_slice();
                assert(col.deep_view() == table.cols_view()[j as int]);
                let w = concat(&first, col);
                assert(first.deep_view() =~= seq![letters.deep_view()[k as int]]);
                return Some(w);
            },
            None => {},
        }
        k = k + 1;
    }
    None
}

/// A column `a·e` that would repair an inconsistency of the table, or `None`
/// where the table is consistent.
pub fn find_inconsistency(table: &ObservationTable, letters: &[Symbol]) -> (r: Option<Word>)
    requires
        table.wf(),
    ensures
        match r {
            None => consistent(*table, letters.deep_view()),
            Some(w) => exists|i1: int, i2: int, k: int, j: int|
                0 <= i1 < table.rows_view().len() && 0 <= i2 < table.rows_view().len() && 0 <= k
                    < letters.deep_view().len() && 0 <= j < table.cols_view().len() && agree(
                    *table,
                    table.rows_view()[i1],
                    table.rows_view()[i2],
                ) && cell_opt(*table, table.rows_view()[i1].push(letters.deep_view()[k]), table.cols_view()[j])
                    != cell_opt(*table, table.rows_view()[i2].push(letters.deep_view()[k]), table.cols_view()[j])
                    && w.deep_view() == seq![letters.deep_view()[k]] + table.cols_view()[j],
        },
{
    let ghost alph = letters.deep_view();
    let rows = table.get_rows();
    let mut i1: usize = 0;
    while i1 < rows.len()
        invariant
            i1 <= rows.len(),
            table.wf(),
            alph == letters.deep_view(),
            rows.deep_view() == table.rows_view(),
            forall|a: int, b: int|
                0 <= a < i1 && 0 <= b < table.rows_view().len() && agree(
                    *table,
                    #[trigger] table.rows_view()[a],
                    #[trigger] table.rows_view()[b],
                ) ==> forall|k: int|
                    0 <= k < alph.len() ==> agree(
                        *table,
                        table.rows_view()[a].push(#[trigger] alph[k]),
                        table.rows_view()[b].push(alph[k]),
                    ),
        decreases rows.len() - i1,
    {
        let mut i2: usize = 0;
        while i2 < rows.len()
            invariant
                i1 < rows.len(),
                i2 <= rows.len(),
                table.wf(),
                alph == letters.deep_view(),
                rows.deep_view() == table.rows_view(),
                forall|a: int, b: int|
                    0 <= a < i1 && 0 <= b < table.rows_view().len() && agree(
                        *table,
                        #[trigger] table.rows_view()[a],
                        #[trigger] table.rows_view()[b],
                    ) ==> forall|k: int|
                        0 <= k < alph.len() ==> agree(
                            *table,
                            table.rows_view()[a].push(#[trigger] alph[k]),
                            table.rows_view()[b].push(alph[k]),
                        ),
                forall|b: int|
                    0 <= b < i2 && agree(*table, table.rows_view()[i1 as int], #[trigger] table.rows_view()[b])
                        ==> forall|k: int|
                        0 <= k < alph.len() ==> agree(
                            *table,
                            table.rows_view()[i1 as int].push(#[trigger] alph[k]),
                            table.rows_view()[b].push(alph[k]),
                        ),
            decreases rows.len() - i2,
        {
            let r1: &[Symbol] = rows[i1].as_slice();
            let r2: &[Symbol] = rows[i2].as_slice();
            assert(r1.deep_view() == table.rows_view()[i1 as int]);
            assert(r2.deep_view() == table.rows_view()[i2 as int]);
            match pair_divergence(table, letters, r1, r2) {
                Some(w) => {
                    return Some(w);
                },
                None => {},
            }
            i2 = i2 + 1;
        }
        i1 = i1 + 1;
    }
    None
}

/// Whether some row agrees with prefix `p`.
fn row_like(table: &ObservationTable, p: &[Symbol]) -> (r: bool)
    requires
        table.wf(),
    ensures
        r == has_row_like(*table, p.deep_view()),
{
    let rows = table.get_rows();
    let mut i: usize = 0;
    while i < rows.len()
        invariant
            i <= rows.len(),
            table.wf(),
            rows.deep_view() == table.rows_view(),
            forall|b: int| 0 <= b < i ==> !agree(*table, p.deep_view(), #[trigger] table.rows_view()[b]),
        decreases rows.len() - i,
    {
        let row: &[Symbol] = rows[i].as_slice();
        assert(row.deep_view() == table.rows_view()[i as int]);
        if first_disagreement(table, p, row).is_none() {
            return true;
        }
        i = i + 1;
    }
    false
}

/// A one-symbol extension of a row that agrees with no row, or `None` where
/// the table is closed.
pub fn find_unclosed(table: &ObservationTable, letters: &[Symbol]) -> (r: Option<Word>)
    requires
        table.wf(),
    ensures
        match r {
            None => closed(*table, letters.deep_view()),
            Some(w) => exists|i: int, k: int|
                0 <= i < table.rows_view().len() && 0 <= k < letters.deep_view().len()
                    && w.deep_view() == table.rows_view()[i].push(letters.deep_view()[k])
                    && !has_row_like(*table, w.deep_view()),
        },
{
    let ghost alph = letters.deep_view();
    let rows = table.get_rows();
    let mut i: usize = 0;
    while i < rows.len()
        invariant
            i <= rows.len(),
            table.wf(),
            alph == letters.deep_view(),
            rows.deep_view() == table.rows_view(),
            forall|a: int, k: int|
                0 <= a < i && 0 <= k < alph.len() ==> has_row_like(
                    *table,
                    #[trigger] table.rows_view()[a].push(#[trigger] alph[k]),
                ),
        decreases rows.len() - i,
    {
        let row: &[Symbol] = rows[i].as_slice();
        assert(row.deep_view() == table.rows_view()[i as int]);
        let mut k: usize = 0;
        while k < letters.len()
            invariant
                i < rows.len(),
                k <= letters.len(),
                table.wf(),
                alph == letters.deep_view(),
                rows.deep_view() == table.rows_view(),
                row.deep_view() == table.rows_view()[i as int],
                forall|a: int, k2: int|
                    0 <= a < i && 0 <= k2 < alph.len() ==> has_row_like(
                        *table,
                        #[trigger] table.rows_view()[a].push(#[trigger] alph[k2]),
                    ),
                forall|k2: int|
                    0 <= k2 < k ==> has_row_like(*table, table.rows_view()[i as int].push(#[trigger] alph[k2])),
            decreases letters.len() - k,
        {
            let ra = extend(row, &letters[k]);
            assert(letters.deep_view()[k as int] == letters[k as int]@);
            if !row_like(table, &ra) {
                return Some(ra);
            }
            k = k + 1;
        }
        i = i + 1;
    }
    None
}

/// The longest word that the equivalence check tries on `target`.
pub open spec fn search_bound(target: DFA) -> int {
    target.states_view().len() as int + 1
}

/// Whether two simulation outcomes are equal.
fn same_outcome(a: Result<bool, RunError>, b: Result<bool, RunError>) -> (r: bool)
    ensures
        r == (a == b),
{
    match (a, b) {
        (Ok(x), Ok(y)) => x == y,
        (Err(RunError::UnknownSymbol), Err(RunError::UnknownSymbol)) => true,
        (Err(RunError::MissingTransition), Err(RunError::MissingTransition)) => true,
        _ => false,
    }
}

/// The first word of `frontier` on which the two acceptors differ.
fn first_difference(target: &DFA, hypothesis: &DFA, frontier: &Vec<Word>) -> (r: Option<usize>)
    ensures
        match r {
            None => forall|m: int|
                0 <= m < frontier.deep_view().len() ==> target.accepts(
                    #[trigger] frontier.deep_view()[m],
                ) == hypothesis.accepts(frontier.deep_view()[m]),
            Some(m) => m < frontier.deep_view().len() && target.accepts(frontier.deep_view()[m as int])
                != hypothesis.accepts(frontier.deep_view()[m as int]),
        },
{
    let mut m: usize = 0;
    while m < frontier.len()
        invariant
            m <= frontier.len(),
            forall|m2: int|
                0 <= m2 < m ==> target.accepts(#[trigger] frontier.deep_view()[m2]) == hypothesis.accepts(
                    frontier.deep_view()[m2],
                ),
        decreases frontier.len() - m,
    {
        let w: &[Symbol] = frontier[m].as_slice();
        assert(w.deep_view() == frontier.deep_view()[m as int]);
        if !same_outcome(target.run(w), hypothesis.run(w)) {
            return Some(m);
        }
        m = m + 1;
    }
    None
}

/// `w` is a word of `fv` followed by a symbol of `lv`.
pub open spec fn is_extension(fv: Seq<WordView>, lv: Seq<Seq<char>>, w: WordView) -> bool {
    exists|m: int, k: int| 0 <= m < fv.len() && 0 <= k < lv.len() && w == fv[m].push(lv[k])
}

/// Every word of `frontier` extended by every symbol of `letters`, in order.
fn extend_all(frontier: &Vec<Word>, letters: &[Symbol]) -> (r: Vec<Word>)
    ensures
        forall|m: int, k: int|
            0 <= m < frontier.deep_view().len() && 0 <= k < letters.deep_view().len()
                ==> r.deep_view().contains(
                #[trigger] frontier.deep_view()[m].push(#[trigger] letters.deep_view()[k]),
            ),
        forall|x: int|
            0 <= x < r.deep_view().len() ==> is_extension(
                frontier.deep_view(),
                letters.deep_view(),
                #[trigger] r.deep_view()[x],
            ),
{
    let ghost fv = frontier.deep_view();
    let ghost lv = letters.deep_view();
    let mut next: Vec<Word> = Vec::new();
    let mut m: usize = 0;
    while m < frontier.len()
        invariant
            m <= frontier.len(),
            fv == frontier.deep_view(),
            lv == letters.deep_view(),
            forall|m2: int, k: int|
                0 <= m2 < m && 0 <= k < lv.len() ==> next.deep_view().contains(
                    #[trigger] fv[m2].push(#[trigger] lv[k]),
                ),
            forall|x: int| 0 <= x < next.deep_view().len() ==> is_extension(fv, lv, #[trigger] next.deep_view()[x]),
        decreases frontier.len() - m,
    {
        let f: &[Symbol] = frontier[m].as_slice();
        assert(f.deep_view() == fv[m as int]);
        let mut k: usize = 0;
        while k < letters.len()
            invariant
                m < frontier.len(),
                k <= letters.len(),
                f.deep_view() == fv[m as int],
                fv == frontier.deep_view(),
                lv == letters.deep_view(),
                forall|m2: int, k2: int|
                    0 <= m2 < m && 0 <= k2 < lv.len() ==> next.deep_view().contains(
                        #[trigger] fv[m2].push(#[trigger] lv[k2]),
                    ),
                forall|k2: int| 0 <= k2 < k ==> next.deep_view().contains(fv[m as int].push(#[trigger] lv[k2])),
                forall|x: int| 0 <= x < next.deep_view().len() ==> is_extension(fv, lv, #[trigger] next.deep_view()[x]),
            decreases letters.len() - k,
        {
            let ghost before = next.deep_view();
            let w = extend(f, &letters[k]);
            assert(lv[k as int] == letters[k as int]@);
            next.push(w);
            assert(next.deep_view() =~= before.push(fv[m as int].push(lv[k as int])));
            assert forall|x: int| 0 <= x < next.deep_view().len() implies is_extension(fv, lv, #[trigger] next.deep_view()[x]) by {
                if x < before.len() {
                    assert(next.deep_view()[x] == before[x]);
                } else {
                    assert(next.deep_view()[x] == fv[m as int].push(lv[k as int]));
                    assert(is_extension(fv, lv, next.deep_view()[x]));
                }
            }
            assert forall|m2: int, k2: int|
                0 <= m2 < m && 0 <= k2 < lv.len() implies next.deep_view().contains(
                    #[trigger] fv[m2].push(#[trigger] lv[k2]),
                ) by {
                let y = choose|y: int| 0 <= y < before.len() && before[y] == fv[m2].push(lv[k2]);
                assert(next.deep_view()[y] == before[y]);
            }
            assert forall|k2: int| 0 <= k2 <= k implies next.deep_view().contains(
                fv[m as int].push(#[trigger] lv[k2]),
            ) by {
                if k2 < k {
                    let y = choose|y: int| 0 <= y < before.len() && before[y] == fv[m as int].push(lv[k2]);
                    assert(next.deep_view()[y] == before[y]);
                } else {
                    assert(next.deep_view()[before.len() as int] == fv[m as int].push(lv[k2]));
                }
            }
            k = k + 1;
        }
        m = m + 1;
    }
    next
}

/// Looks for a word on which the hypothesis and the target differ, trying
/// every word over the target's alphabet breadth-first, up to one symbol
/// longer than the target has states. The search is exhaustive only up to
/// that length: it proves equivalence only where the hypothesis has no more
/// states than the target.
pub fn equivalence_query(target: &DFA, hypothesis: &DFA) -> (r: Option<Word>)
    ensures
        match r {
            None => forall|w: WordView|
                over(w, target.alphabet_view()) && w.len() <= search_bound(*target) ==> #[trigger] target.accepts(w)
                    == hypothesis.accepts(w),
            Some(w) => {
                &&& over(w.deep_view(), target.alphabet_view())
                &&& w.deep_view().len() <= search_bound(*target)
                &&& target.accepts(w.deep_view()) != hypothesis.accepts(w.deep_view())
                &&& forall|u: WordView|
                    over(u, target.alphabet_view()) && u.len() < w.deep_view().len() ==> #[trigger] target.accepts(u)
                        == hypothesis.accepts(u)
            },
        },
{
    let ghost alph = target.alphabet_view();
    let letters = target.get_alphabet();
    let n: u128 = target.states_size() as u128;
    let mut depth: u128 = 0;
    let mut frontier: Vec<Word> = vec![Vec::new()];
    proof {
        assert(frontier.deep_view()[0] =~= Seq::<Seq<char>>::empty());
        assert forall|w: WordView| over(w, alph) && w.len() == depth implies frontier.deep_view().contains(w) by {
            assert(w =~= frontier.deep_view()[0]);
        }
    }
    loop
        invariant
            alph == target.alphabet_view(),
            letters.deep_view() == alph,
            n == target.states_view().len(),
            n <= usize::MAX as u128,
            depth <= n + 1,
            forall|x: int|
                0 <= x < frontier.deep_view().len() ==> over(#[trigger] frontier.deep_view()[x], alph)
                    && frontier.deep_view()[x].len() == depth,
            forall|w: WordView| over(w, alph) && w.len() == depth ==> #[trigger] frontier.deep_view().contains(w),
            forall|w: WordView|
                over(w, alph) && w.len() < depth ==> #[trigger] target.accepts(w) == hypothesis.accepts(w),
        decreases n + 1 - depth,
    {
        match first_difference(target, hypothesis, &frontier) {
            Some(m) => {
                let w = concat(&frontier[m], &[]);
                assert(w.deep_view() =~= frontier.deep_view()[m as int]);
                return Some(w);
            },
            None => {},
        }
        assert forall|w: WordView|
            over(w, alph) && w.len() < depth + 1 implies #[trigger] target.accepts(w) == hypothesis.accepts(w) by {
            if w.len() == depth {
                assert(frontier.deep_view().contains(w));
                let m = choose|m: int| 0 <= m < frontier.deep_view().len() && frontier.deep_view()[m] == w;
                assert(target.accepts(frontier.deep_view()[m]) == hypothesis.accepts(frontier.deep_view()[m]));
            }
        }
        if depth > n {
            return None;
        }
        let next = extend_all(&frontier, letters);
        proof {
            let fv = frontier.deep_view();
            assert forall|x: int|
                0 <= x < next.deep_view().len() implies over(#[trigger] next.deep_view()[x], alph)
                    && next.deep_view()[x].len() == depth + 1 by {
                assert(is_extension(fv, alph, next.deep_view()[x]));
                let (m, k) = choose|m: int, k: int|
                    0 <= m < fv.len() && 0 <= k < alph.len() && next.deep_view()[x] == fv[m].push(alph[k]);
                assert(over(fv[m], alph));
                assert forall|y: int| 0 <= y < next.deep_view()[x].len() implies alph.contains(
                    #[trigger] next.deep_view()[x][y],
                ) by {
                    if y < fv[m].len() {
                        assert(next.deep_view()[x][y] == fv[m][y]);
                    } else {
                        assert(next.deep_view()[x][y] == alph[k]);
                    }
                }
            }
            assert forall|w: WordView| over(w, alph) && w.len() == depth + 1 implies #[trigger] next.deep_view().contains(w) by {
                let u = w.drop_last();
                assert(over(u, alph)) by {
                    assert forall|y: int| 0 <= y < u.len() implies alph.contains(#[trigger] u[y]) by {
                        assert(u[y] == w[y]);
                    }
                }
                assert(fv.contains(u));
                let m = choose|m: int| 0 <= m < fv.len() && fv[m] == u;
                assert(alph.contains(w[w.len() - 1]));
                let k = choose|k: int| 0 <= k < alph.len() && alph[k] == w[w.len() - 1];
                assert(w =~= fv[m].push(alph[k]));
            }
        }
        frontier = next;
        depth = depth + 1;
    }
}

/// The canonical state of prefix `p`: the name of its signature.
pub open spec fn state_of(t: ObservationTable, p: WordView) -> Seq<char> {
    state_name(t.signature(p).unwrap())
}

/// Two complete prefixes share a canonical state exactly when their
/// signatures are equal, and exactly when they agree in every column; the
/// state depends on the table's cells and columns alone, so every call on
/// the same table gives the same state.
pub proof fn lemma_canonical_state(t: ObservationTable, p1: WordView, p2: WordView)
    requires
        t.row_complete(p1),
        t.row_complete(p2),
    ensures
        state_of(t, p1) == state_of(t, p2) <==> t.signature(p1) == t.signature(p2),
        agree(t, p1, p2) <==> t.signature(p1) == t.signature(p2),
{
    lemma_state_name_injective(t.signature(p1).unwrap(), t.signature(p2).unwrap());
    if agree(t, p1, p2) {
        assert(t.signature(p1).unwrap() =~= t.signature(p2).unwrap()) by {
            assert forall|j: int| 0 <= j < t.cols_view().len() implies t.signature(p1).unwrap()[j]
                == t.signature(p2).unwrap()[j] by {
                assert(cell_opt(t, p1, t.cols_view()[j]) == cell_opt(t, p2, t.cols_view()[j]));
            }
        }
    }
    if t.signature(p1) == t.signature(p2) {
        assert forall|j: int| 0 <= j < t.cols_view().len() implies cell_opt(t, p1, #[trigger] t.cols_view()[j])
            == cell_opt(t, p2, t.cols_view()[j]) by {
            assert(t.signature(p1).unwrap()[j] == t.signature(p2).unwrap()[j]);
        }
    }
}

/// The transitions of the hypothesis that leave row `r`, one per symbol.
pub open spec fn row_edges(t: ObservationTable, alph: Seq<Seq<char>>, r: WordView) -> Seq<Edge> {
    Seq::new(alph.len(), |k: int| (state_of(t, r), alph[k], state_of(t, r.push(alph[k]))))
}

/// The transitions of the hypothesis that leave the first `n` rows, row by row.
pub open spec fn hypothesis_edges(t: ObservationTable, alph: Seq<Seq<char>>, n: int) -> Seq<Edge>
    decreases n,
{
    if n <= 0 {
        Seq::empty()
    } else {
        hypothesis_edges(t, alph, n - 1) + row_edges(t, alph, t.rows_view()[n - 1])
    }
}

/// A state name whose first digit, the one of the empty-word column, is `1`.
pub open spec fn accepting_name(q: Seq<char>) -> bool {
    q.len() > 0 && q[0] == '1'
}

/// The accepting names of `s`, in order.
pub open spec fn accepting_states(s: Seq<Seq<char>>) -> Seq<Seq<char>> {
    s.filter(|q: Seq<char>| accepting_name(q))
}

proof fn lemma_accepting_states_push(s: Seq<Seq<char>>, q: Seq<char>)
    ensures
        accepting_states(s.push(q)) == (if accepting_name(q) {
            accepting_states(s).push(q)
        } else {
            accepting_states(s)
        }),
{
    broadcast use vstd::seq::Seq::lemma_filter_push;

}

/// The canonical states of the first `n` rows, in row order.
pub open spec fn row_states(t: ObservationTable, n: int) -> Seq<Seq<char>> {
    Seq::new(n as nat, |i: int| state_of(t, t.rows_view()[i]))
}

/// Builds the hypothesis of a saturated table: one state per distinct row
/// signature, the empty row's state as the initial one, a transition from
/// the state of each row `r` on each symbol `a` to the state of `r·a`, and the
/// states whose empty-word cell is `1` as accepting ones.
pub fn construct_automaton(table: &ObservationTable, letters: &[Symbol]) -> (r: DFA)
    requires
        table.wf(),
        saturated(*table, letters.deep_view()),
    ensures
        r.built_from(
            hypothesis_edges(*table, letters.deep_view(), table.rows_view().len() as int),
            state_of(*table, Seq::empty()),
            accepting_states(row_states(*table, table.rows_view().len() as int)),
        ),
{
    let ghost alph = letters.deep_view();
    let ghost t = *table;
    let rows = table.get_rows();
    let mut ts: Vec<(State, Symbol, State)> = Vec::new();
    let mut finals: Vec<State> = Vec::new();
    let mut i: usize = 0;
    while i < rows.len()
        invariant
            i <= rows.len(),
            table.wf(),
            t == *table,
            alph == letters.deep_view(),
            saturated(t, alph),
            rows.deep_view() == t.rows_view(),
            edges_view(ts@) == hypothesis_edges(t, alph, i as int),
            finals.deep_view() == accepting_states(row_states(t, i as int)),
        decreases rows.len() - i,
    {
        let row: &[Symbol] = rows[i].as_slice();
        assert(row.deep_view() == t.rows_view()[i as int]);
        assert(row_saturated(t, alph, t.rows_view()[i as int]));
        assert(t.row_complete(row.deep_view())) by {
            assert forall|j: int| 0 <= j < t.cols_view().len() implies t.cells_view().contains_key(
                (row.deep_view(), #[trigger] t.cols_view()[j]),
            ) by {
                assert(cell_saturated(t, alph, row.deep_view(), t.cols_view()[j]));
            }
        }
        let sig = table.get_value(row).unwrap();
        let here = ObservationTable::vecbool_to_state(sig.clone());
        let ghost fin_before = finals.deep_view();
        proof {
            assert(row_states(t, i + 1) =~= row_states(t, i as int).push(here@));
            lemma_accepting_states_push(row_states(t, i as int), here@);
            assert(here@[0] == (if sig@[0] { '1' } else { '0' }));
        }
        if sig[0] {
            finals.push(here.clone());
            assert(finals.deep_view() =~= fin_before.push(here@));
        }
        let ghost row_start = edges_view(ts@);
        let mut k: usize = 0;
        while k < letters.len()
            invariant
                i < rows.len(),
                k <= letters.len(),
                table.wf(),
                t == *table,
                alph == letters.deep_view(),
                saturated(t, alph),
                row_saturated(t, alph, row.deep_view()),
                row.deep_view() == t.rows_view()[i as int],
                here@ == state_of(t, row.deep_view()),
                row_start == hypothesis_edges(t, alph, i as int),
                edges_view(ts@) == row_start + row_edges(t, alph, row.deep_view()).take(k as int),
            decreases letters.len() - k,
        {
            let ra = extend(row, &letters[k]);
            assert(alph[k as int] == letters[k as int]@);
            assert(t.row_complete(ra.deep_view())) by {
                assert forall|j: int| 0 <= j < t.cols_view().len() implies t.cells_view().contains_key(
                    (ra.deep_view(), #[trigger] t.cols_view()[j]),
                ) by {
                    assert(cell_saturated(t, alph, row.deep_view(), t.cols_view()[j]));
                }
            }
            let next = table.get_value_as_state(&ra).unwrap();
            let ghost before = edges_view(ts@);
            ts.push((here.clone(), letters[k].clone(), next));
            assert(edges_view(ts@) =~= before.push((here@, alph[k as int], state_of(t, ra.deep_view()))));
            assert(row_edges(t, alph, row.deep_view()).take(k + 1) =~= row_edges(
                t,
                alph,
                row.deep_view(),
            ).take(k as int).push((here@, alph[k as int], state_of(t, ra.deep_view()))));
            k = k + 1;
        }
        assert(row_edges(t, alph, row.deep_view()).take(letters.len() as int) =~= row_edges(
            t,
            alph,
            row.deep_view(),
        ));
        i = i + 1;
    }
    assert(t.rows_view()[0] == Seq::<Seq<char>>::empty());
    assert(row_saturated(t, alph, t.rows_view()[0]));
    assert(t.row_complete(Seq::empty())) by {
        assert forall|j: int| 0 <= j < t.cols_view().len() implies t.cells_view().contains_key(
            (Seq::<Seq<char>>::empty(), #[trigger] t.cols_view()[j]),
        ) by {
            assert(cell_saturated(t, alph, t.rows_view()[0], t.cols_view()[j]));
        }
    }
    let empty: Word = Vec::new();
    assert(empty.deep_view() =~= Seq::<Seq<char>>::empty());
    let init = table.get_value_as_state(&empty).unwrap();
    DFA::from_triples(ts, init, finals)
}

/// A membership query failed with `e` on some word.
pub open spec fn query_failed(target: DFA, e: RunError) -> bool {
    exists|w: WordView| over(w, target.alphabet_view()) && target.accepts(w) == Err::<bool, RunError>(e)
}

/// Every word of `ws` is over `alph`.
pub open spec fn all_over(ws: Seq<WordView>, alph: Seq<Seq<char>>) -> bool {
    forall|i: int| 0 <= i < ws.len() ==> over(#[trigger] ws[i], alph)
}

/// Appending a word over `alph` keeps a list of such words.
pub proof fn lemma_all_over_push(ws: Seq<WordView>, w: WordView, alph: Seq<Seq<char>>)
    requires
        all_over(ws, alph),
        over(w, alph),
    ensures
        all_over(ws.push(w), alph),
{
    assert forall|i: int| 0 <= i < ws.push(w).len() implies over(#[trigger] ws.push(w)[i], alph) by {
        if i < ws.len() {
            assert(ws.push(w)[i] == ws[i]);
        }
    }
}

/// A word over `alph` followed by another is over `alph`.
pub proof fn lemma_over_concat(u: WordView, v: WordView, alph: Seq<Seq<char>>)
    requires
        over(u, alph),
        over(v, alph),
    ensures
        over(u + v, alph),
{
    assert forall|i: int| 0 <= i < (u + v).len() implies alph.contains(#[trigger] (u + v)[i]) by {
        if i < u.len() {
            assert((u + v)[i] == u[i]);
        } else {
            assert((u + v)[i] == v[i - u.len()]);
        }
    }
}

/// Every prefix of a row is a row.
pub open spec fn prefix_closed(rows: Seq<WordView>) -> bool {
    forall|i: int, n: int|
        0 <= i < rows.len() && 0 <= n <= rows[i].len() ==> rows.contains(#[trigger] rows[i].take(n))
}

/// Every suffix of a column is a column.
pub open spec fn suffix_closed(cols: Seq<WordView>) -> bool {
    forall|j: int, n: int|
        0 <= j < cols.len() && 0 <= n <= cols[j].len() ==> cols.contains(#[trigger] cols[j].skip(n))
}

/// Appending a word whose shorter prefixes are rows keeps the rows prefix-closed.
proof fn lemma_prefix_closed_push(rows: Seq<WordView>, w: WordView)
    requires
        prefix_closed(rows),
        forall|n: int| 0 <= n < w.len() ==> rows.contains(#[trigger] w.take(n)),
    ensures
        prefix_closed(rows.push(w)),
{
    let rs = rows.push(w);
    assert forall|i: int, n: int| 0 <= i < rs.len() && 0 <= n <= rs[i].len() implies rs.contains(
        #[trigger] rs[i].take(n),
    ) by {
        if i < rows.len() {
            assert(rs[i] == rows[i]);
            assert(rows.contains(rows[i].take(n)));
            let x = choose|x: int| 0 <= x < rows.len() && rows[x] == rows[i].take(n);
            assert(rs[x] == rows[x]);
        } else if n < w.len() {
            let x = choose|x: int| 0 <= x < rows.len() && rows[x] == w.take(n);
            assert(rs[x] == rows[x]);
        } else {
            assert(w.take(n) =~= w);
            assert(rs[rows.len() as int] == w);
        }
    }
}

/// Appending a word whose shorter suffixes are columns keeps the columns
/// suffix-closed.
proof fn lemma_suffix_closed_push(cols: Seq<WordView>, w: WordView)
    requires
        suffix_closed(cols),
        forall|n: int| 0 < n <= w.len() ==> cols.contains(#[trigger] w.skip(n)),
    ensures
        suffix_closed(cols.push(w)),
{
    let cs = cols.push(w);
    assert forall|j: int, n: int| 0 <= j < cs.len() && 0 <= n <= cs[j].len() implies cs.contains(
        #[trigger] cs[j].skip(n),
    ) by {
        if j < cols.len() {
            assert(cs[j] == cols[j]);
            assert(cols.contains(cols[j].skip(n)));
            let x = choose|x: int| 0 <= x < cols.len() && cols[x] == cols[j].skip(n);
            assert(cs[x] == cols[x]);
        } else if n > 0 {
            let x = choose|x: int| 0 <= x < cols.len() && cols[x] == w.skip(n);
            assert(cs[x] == cols[x]);
        } else {
            assert(w.skip(0) =~= w);
            assert(cs[cols.len() as int] == w);
        }
    }
}

/// The invariant that the learner keeps between repairs: cells are the
/// target's answers and saturate the table, rows and columns are words over
/// the alphabet, rows are prefix-closed and columns suffix-closed.
pub open spec fn ready(t: ObservationTable, target: DFA) -> bool {
    &&& t.wf()
    &&& faithful(t, target)
    &&& saturated(t, target.alphabet_view())
    &&& all_over(t.rows_view(), target.alphabet_view())
    &&& all_over(t.cols_view(), target.alphabet_view())
    &&& prefix_closed(t.rows_view())
    &&& suffix_closed(t.cols_view())
}

/// Fills the table, passing a failed query on as a learning error.
fn refill(table: &mut ObservationTable, target: &DFA) -> (r: Result<(), LearnError>)
    requires
        old(table).wf(),
        faithful(*old(table), *target),
        all_over(old(table).rows_view(), target.alphabet_view()),
        all_over(old(table).cols_view(), target.alphabet_view()),
    ensures
        final(table).wf(),
        faithful(*final(table), *target),
        final(table).rows_view() == old(table).rows_view(),
        final(table).cols_view() == old(table).cols_view(),
        old(table).cells_view().submap_of(final(table).cells_view()),
        r is Ok ==> saturated(*final(table), target.alphabet_view()),
        r matches Err(e) ==> e matches LearnError::Query(q) && query_failed(*target, q),
{
    let ghost alph = target.alphabet_view();
    match fill(table, target) {
        Ok(_) => Ok(()),
        Err(e) => {
            proof {
                let t = *old(table);
                let (i, j, p) = choose|i: int, j: int, p: WordView|
                    0 <= i < t.rows_view().len() && 0 <= j < t.cols_view().len() && (p == t.rows_view()[i]
                        || exists|k: int| 0 <= k < alph.len() && p == t.rows_view()[i].push(alph[k]))
                        && target.accepts(p + t.cols_view()[j]) == Err::<bool, RunError>(e);
                assert(over(t.rows_view()[i], alph));
                assert(over(t.cols_view()[j], alph));
                assert(over(p, alph)) by {
                    if p != t.rows_view()[i] {
                        let k = choose|k: int| 0 <= k < alph.len() && p == t.rows_view()[i].push(alph[k]);
                        lemma_over_concat(t.rows_view()[i], seq![alph[k]], alph);
                        assert(t.rows_view()[i] + seq![alph[k]] =~= p);
                    }
                }
                lemma_over_concat(p, t.cols_view()[j], alph);
            }
            Err(LearnError::Query(e))
        },
    }
}

/// Column `j` is a symbol of `alph` followed by an earlier column.
pub open spec fn prepends_earlier(cols: Seq<WordView>, alph: Seq<Seq<char>>, j: int) -> bool {
    exists|k: int, j2: int| 0 <= k < alph.len() && 0 <= j2 < j && cols[j] == seq![alph[k]] + cols[j2]
}

/// Row `i` is an earlier row followed by a symbol of `alph`.
pub open spec fn extends_earlier(rows: Seq<WordView>, alph: Seq<Seq<char>>, i: int) -> bool {
    exists|k: int, i2: int| 0 <= k < alph.len() && 0 <= i2 < i && rows[i] == rows[i2].push(alph[k])
}

/// `s` begins with `o`.
pub open spec fn begins_with(s: Seq<WordView>, o: Seq<WordView>) -> bool {
    o.len() <= s.len() && s.take(o.len() as int) == o
}

/// The column `a·e` that repairs an inconsistency is not a column yet: the
/// agreeing rows would otherwise agree on it, and so their extensions by `a`
/// would agree in column `e`.
proof fn lemma_repair_column_fresh(t: ObservationTable, target: DFA, i1: int, i2: int, k: int, j: int)
    requires
        ready(t, target),
        0 <= i1 < t.rows_view().len(),
        0 <= i2 < t.rows_view().len(),
        0 <= k < target.alphabet_view().len(),
        0 <= j < t.cols_view().len(),
        agree(t, t.rows_view()[i1], t.rows_view()[i2]),
        cell_opt(t, t.rows_view()[i1].push(target.alphabet_view()[k]), t.cols_view()[j]) != cell_opt(
            t,
            t.rows_view()[i2].push(target.alphabet_view()[k]),
            t.cols_view()[j],
        ),
    ensures
        !t.cols_view().contains(seq![target.alphabet_view()[k]] + t.cols_view()[j]),
{
    let alph = target.alphabet_view();
    let a = alph[k];
    let e = t.cols_view()[j];
    let col = seq![a] + e;
    if t.cols_view().contains(col) {
        let j2 = choose|j2: int| 0 <= j2 < t.cols_view().len() && t.cols_view()[j2] == col;
        let r1 = t.rows_view()[i1];
        let r2 = t.rows_view()[i2];
        assert(row_saturated(t, alph, r1));
        assert(row_saturated(t, alph, r2));
        assert(cell_saturated(t, alph, r1, t.cols_view()[j2]));
        assert(cell_saturated(t, alph, r2, t.cols_view()[j2]));
        assert(cell_saturated(t, alph, r1, e));
        assert(cell_saturated(t, alph, r2, e));
        assert(t.cells_view().contains_key((r1.push(a), e)));
        assert(t.cells_view().contains_key((r2.push(a), e)));
        assert(r1 + col =~= r1.push(a) + e);
        assert(r2 + col =~= r2.push(a) + e);
        assert(t.cells_view().contains_key((r1, col)));
        assert(t.cells_view().contains_key((r2, col)));
        assert(cell_opt(t, r1, t.cols_view()[j2]) == cell_opt(t, r2, t.cols_view()[j2]));
        assert(false);
    }
}

/// Repairs inconsistencies until there is none: for agreeing rows whose
/// extensions by `a` differ in column `e`, adds the column `a·e` and fills the
/// table again. Each repair costs one unit of `budget` and adds exactly one
/// column; rows, earlier columns and filled cells are kept.
pub fn make_consistent(table: &mut ObservationTable, target: &DFA, budget: &mut u64) -> (r: Result<
    (),
    LearnError,
>)
    requires
        ready(*old(table), *target),
    ensures
        final(table).wf(),
        faithful(*final(table), *target),
        *final(budget) <= *old(budget),
        final(table).rows_view() == old(table).rows_view(),
        begins_with(final(table).cols_view(), old(table).cols_view()),
        forall|j: int|
            old(table).cols_view().len() <= j < final(table).cols_view().len() ==> #[trigger] prepends_earlier(
                final(table).cols_view(),
                target.alphabet_view(),
                j,
            ),
        final(table).cols_view().len() == old(table).cols_view().len() + (*old(budget) - *final(budget)),
        old(table).cells_view().submap_of(final(table).cells_view()),
        consistent(*old(table), target.alphabet_view()) ==> r is Ok && *final(table) == *old(table)
            && *final(budget) == *old(budget),
        r is Ok ==> ready(*final(table), *target) && consistent(*final(table), target.alphabet_view()),
        r matches Err(e) ==> (e == LearnError::StepLimit && *final(budget) == 0) || (
        e matches LearnError::Query(q) && query_failed(*target, q)),
{
    let ghost alph = target.alphabet_view();
    let ghost n0 = old(table).cols_view().len();
    let letters = target.get_alphabet();
    assert(table.cols_view().take(n0 as int) =~= table.cols_view());
    loop
        invariant
            ready(*table, *target),
            alph == target.alphabet_view(),
            n0 == old(table).cols_view().len(),
            letters.deep_view() == alph,
            *budget <= *old(budget),
            table.rows_view() == old(table).rows_view(),
            begins_with(table.cols_view(), old(table).cols_view()),
            forall|j: int|
                n0 <= j < table.cols_view().len() ==> #[trigger] prepends_earlier(table.cols_view(), alph, j),
            table.cols_view().len() == n0 + (*old(budget) - *budget),
            old(table).cells_view().submap_of(table.cells_view()),
            consistent(*old(table), alph) ==> *table == *old(table) && *budget == *old(budget),
        decreases *budget,
    {
        match find_inconsistency(table, letters) {
            None => {
                return Ok(());
            },
            Some(column) => {
                let ghost before = *table;
                let ghost j0: int;
                proof {
                    let (i1, i2, k, j) = choose|i1: int, i2: int, k: int, j: int|
                        0 <= i1 < table.rows_view().len() && 0 <= i2 < table.rows_view().len() && 0 <= k
                            < alph.len() && 0 <= j < table.cols_view().len() && agree(
                            *table,
                            table.rows_view()[i1],
                            table.rows_view()[i2],
                        ) && cell_opt(*table, table.rows_view()[i1].push(alph[k]), table.cols_view()[j])
                            != cell_opt(*table, table.rows_view()[i2].push(alph[k]), table.cols_view()[j])
                            && column.deep_view() == seq![alph[k]] + table.cols_view()[j];
                    assert(!consistent(*table, alph)) by {
                        assert(!agree(
                            *table,
                            table.rows_view()[i1].push(alph[k]),
                            table.rows_view()[i2].push(alph[k]),
                        ));
                    }
                    assert(over(seq![alph[k]], alph)) by {
                        assert(seq![alph[k]][0] == alph[k]);
                    }
                    assert(over(table.cols_view()[j], alph));
                    lemma_over_concat(seq![alph[k]], table.cols_view()[j], alph);
                    lemma_all_over_push(table.cols_view(), column.deep_view(), alph);
                    assert forall|n: int| 0 < n <= column.deep_view().len() implies table.cols_view().contains(
                        #[trigger] column.deep_view().skip(n),
                    ) by {
                        let c = table.cols_view()[j];
                        assert(column.deep_view().skip(n) =~= c.skip(n - 1));
                        assert(table.cols_view().contains(c.skip(n - 1)));
                    }
                    lemma_suffix_closed_push(table.cols_view(), column.deep_view());
                    lemma_repair_column_fresh(*table, *target, i1, i2, k, j);
                    assert(prepends_earlier(table.cols_view().push(column.deep_view()), alph, table.cols_view().len() as int)) by {
                        assert(table.cols_view().push(column.deep_view())[j] == table.cols_view()[j]);
                    }
                }
                if *budget == 0 {
                    return Err(LearnError::StepLimit);
                }
                *budget = *budget - 1;
                table.add_columns(column);
                proof {
                    let c = before.cols_view();
                    assert(table.cols_view() == c.push(column.deep_view()));
                    assert(table.cols_view().take(n0 as int) =~= c.take(n0 as int));
                    assert forall|j: int|
                        n0 <= j < table.cols_view().len() implies #[trigger] prepends_earlier(table.cols_view(), alph, j) by {
                        if j < c.len() {
                            assert(prepends_earlier(c, alph, j));
                            let (k, j2) = choose|k: int, j2: int|
                                0 <= k < alph.len() && 0 <= j2 < j && c[j] == seq![alph[k]] + c[j2];
                            assert(table.cols_view()[j] == c[j]);
                            assert(table.cols_view()[j2] == c[j2]);
                        }
                    }
                }
                match refill(table, target) {
                    Ok(()) => {},
                    Err(e) => {
                        return Err(e);
                    },
                }
            },
        }
    }
}

/// A disagreement between two complete prefixes survives the growth of the
/// cells under the same columns.
proof fn lemma_disagreement_kept(t1: ObservationTable, t2: ObservationTable, p1: WordView, p2: WordView)
    requires
        t1.cells_view().submap_of(t2.cells_view()),
        t1.cols_view() == t2.cols_view(),
        t1.row_complete(p1),
        t1.row_complete(p2),
        !agree(t1, p1, p2),
    ensures
        !agree(t2, p1, p2),
{
    let j = choose|j: int|
        0 <= j < t1.cols_view().len() && cell_opt(t1, p1, t1.cols_view()[j]) != cell_opt(t1, p2, t1.cols_view()[j]);
    assert(t1.cells_view().contains_key((p1, t1.cols_view()[j])));
    assert(t1.cells_view().contains_key((p2, t1.cols_view()[j])));
    assert(cell_opt(t2, p1, t2.cols_view()[j]) != cell_opt(t2, p2, t2.cols_view()[j]));
}

/// Every row of a saturated table, and every one-symbol extension of one, is complete.
proof fn lemma_row_and_extension_complete(t: ObservationTable, alph: Seq<Seq<char>>, i: int, k: int)
    requires
        saturated(t, alph),
        0 <= i < t.rows_view().len(),
        0 <= k < alph.len(),
    ensures
        t.row_complete(t.rows_view()[i]),
        t.row_complete(t.rows_view()[i].push(alph[k])),
{
    let r = t.rows_view()[i];
    assert(row_saturated(t, alph, r));
    assert forall|j: int| 0 <= j < t.cols_view().len() implies t.cells_view().contains_key(
        (r, #[trigger] t.cols_view()[j]),
    ) by {
        assert(cell_saturated(t, alph, r, t.cols_view()[j]));
    }
    assert forall|j: int| 0 <= j < t.cols_view().len() implies t.cells_view().contains_key(
        (r.push(alph[k]), #[trigger] t.cols_view()[j]),
    ) by {
        assert(cell_saturated(t, alph, r, t.cols_view()[j]));
    }
}

/// Row `i` agrees with no earlier row.
pub open spec fn fresh_row(t: ObservationTable, i: int) -> bool {
    forall|i2: int| 0 <= i2 < i ==> !agree(t, t.rows_view()[i], #[trigger] t.rows_view()[i2])
}

/// One closedness repair keeps the record of added rows: each is an earlier
/// row extended by a symbol and agrees with no earlier row.
proof fn lemma_closed_step(
    before: ObservationTable,
    after: ObservationTable,
    alph: Seq<Seq<char>>,
    orig: Seq<WordView>,
    w: WordView,
)
    requires
        saturated(before, alph),
        before.row_complete(w),
        !has_row_like(before, w),
        after.rows_view() == before.rows_view().push(w),
        after.cols_view() == before.cols_view(),
        before.cells_view().submap_of(after.cells_view()),
        begins_with(before.rows_view(), orig),
        forall|i: int|
            orig.len() <= i < before.rows_view().len() ==> #[trigger] extends_earlier(before.rows_view(), alph, i),
        forall|i: int|
            orig.len() <= i < before.rows_view().len() ==> #[trigger] fresh_row(before, i),
        extends_earlier(after.rows_view(), alph, before.rows_view().len() as int),
    ensures
        begins_with(after.rows_view(), orig),
        forall|i: int|
            orig.len() <= i < after.rows_view().len() ==> #[trigger] extends_earlier(after.rows_view(), alph, i),
        forall|i: int|
            orig.len() <= i < after.rows_view().len() ==> #[trigger] fresh_row(after, i),
{
    let rs = before.rows_view();
    let ra = after.rows_view();
    assert(ra.take(orig.len() as int) =~= rs.take(orig.len() as int));
    assert forall|i: int| 0 <= i < rs.len() implies before.row_complete(#[trigger] rs[i]) by {
        assert(row_saturated(before, alph, rs[i]));
        assert forall|j: int| 0 <= j < before.cols_view().len() implies before.cells_view().contains_key(
            (rs[i], #[trigger] before.cols_view()[j]),
        ) by {
            assert(cell_saturated(before, alph, rs[i], before.cols_view()[j]));
        }
    }
    assert forall|i: int|
        #![trigger extends_earlier(ra, alph, i)]
        #![trigger fresh_row(after, i)]
        orig.len() <= i < ra.len() implies extends_earlier(ra, alph, i) && fresh_row(after, i) by {
        if i < rs.len() {
            assert(extends_earlier(rs, alph, i) && fresh_row(before, i));
            let (k, i2) = choose|k: int, i2: int| 0 <= k < alph.len() && 0 <= i2 < i && rs[i] == rs[i2].push(alph[k]);
            assert(ra[i] == rs[i] && ra[i2] == rs[i2]);
            assert forall|i2: int| 0 <= i2 < i implies !agree(after, ra[i], #[trigger] ra[i2]) by {
                assert(ra[i2] == rs[i2]);
                assert(!agree(before, rs[i], rs[i2]));
                assert(before.row_complete(rs[i]));
                assert(before.row_complete(rs[i2]));
                lemma_disagreement_kept(before, after, rs[i], rs[i2]);
            }
        } else {
            assert forall|i2: int| 0 <= i2 < i implies !agree(after, ra[i], #[trigger] ra[i2]) by {
                assert(ra[i2] == rs[i2]);
                assert(ra[i] == w);
                assert(!agree(before, w, rs[i2]));
                assert(before.row_complete(rs[i2]));
                lemma_disagreement_kept(before, after, w, rs[i2]);
            }
        }
    }
}

/// Two prefixes complete in `t1` agree in `t2` exactly when they agree in
/// `t1`, when the cells only grew under the same columns.
proof fn lemma_agree_transfer(t1: ObservationTable, t2: ObservationTable, p1: WordView, p2: WordView)
    requires
        t1.cells_view().submap_of(t2.cells_view()),
        t1.cols_view() == t2.cols_view(),
        t1.row_complete(p1),
        t1.row_complete(p2),
    ensures
        agree(t2, p1, p2) <==> agree(t1, p1, p2),
{
    assert forall|j: int| 0 <= j < t1.cols_view().len() implies cell_opt(t1, p1, t1.cols_view()[j])
        == cell_opt(t2, p1, t1.cols_view()[j]) && cell_opt(t1, p2, t1.cols_view()[j]) == cell_opt(
        t2,
        p2,
        t1.cols_view()[j],
    ) by {
        assert(t1.cells_view().contains_key((p1, t1.cols_view()[j])));
        assert(t1.cells_view().contains_key((p2, t1.cols_view()[j])));
    }
}

/// Adding rows that each agree with no earlier row keeps a consistent table
/// consistent.
proof fn lemma_fresh_rows_keep_consistency(t0: ObservationTable, t: ObservationTable, alph: Seq<Seq<char>>)
    requires
        saturated(t0, alph),
        consistent(t0, alph),
        t0.cells_view().submap_of(t.cells_view()),
        t0.cols_view() == t.cols_view(),
        begins_with(t.rows_view(), t0.rows_view()),
        forall|i: int| t0.rows_view().len() <= i < t.rows_view().len() ==> #[trigger] fresh_row(t, i),
    ensures
        consistent(t, alph),
{
    let n0 = t0.rows_view().len() as int;
    assert forall|i1: int, i2: int|
        0 <= i1 < t.rows_view().len() && 0 <= i2 < t.rows_view().len() && agree(
            t,
            #[trigger] t.rows_view()[i1],
            #[trigger] t.rows_view()[i2],
        ) implies forall|k: int|
        0 <= k < alph.len() ==> agree(
            t,
            t.rows_view()[i1].push(#[trigger] alph[k]),
            t.rows_view()[i2].push(alph[k]),
        ) by {
        if i1 == i2 {
        } else if i1 >= n0 && i1 > i2 {
            assert(fresh_row(t, i1));
            assert(!agree(t, t.rows_view()[i1], t.rows_view()[i2]));
        } else if i2 >= n0 && i2 > i1 {
            assert(fresh_row(t, i2));
            assert(!agree(t, t.rows_view()[i2], t.rows_view()[i1]));
        } else {
            assert(i1 < n0 && i2 < n0);
            assert(t.rows_view()[i1] == t.rows_view().take(n0)[i1]);
            assert(t.rows_view()[i2] == t.rows_view().take(n0)[i2]);
            assert(t.rows_view()[i1] == t0.rows_view()[i1]);
            assert(t.rows_view()[i2] == t0.rows_view()[i2]);
            assert forall|k: int| 0 <= k < alph.len() implies agree(
                t,
                t.rows_view()[i1].push(#[trigger] alph[k]),
                t.rows_view()[i2].push(alph[k]),
            ) by {
                lemma_row_and_extension_complete(t0, alph, i1, k);
                lemma_row_and_extension_complete(t0, alph, i2, k);
                lemma_agree_transfer(t0, t, t0.rows_view()[i1], t0.rows_view()[i2]);
                assert(agree(t0, t0.rows_view()[i1], t0.rows_view()[i2]));
                assert(agree(t0, t0.rows_view()[i1].push(alph[k]), t0.rows_view()[i2].push(alph[k])));
                lemma_agree_transfer(t0, t, t0.rows_view()[i1].push(alph[k]), t0.rows_view()[i2].push(alph[k]));
            }
        }
    }
}

/// Repairs unclosedness until there is none: promotes an extension `r·a`
/// that agrees with no row to a row and fills the table again. Each repair
/// costs one unit of `budget` and adds exactly one row, which agrees with no
/// earlier row; columns, earlier rows and filled cells are kept.
pub fn make_closed(table: &mut ObservationTable, target: &DFA, budget: &mut u64) -> (r: Result<
    (),
    LearnError,
>)
    requires
        ready(*old(table), *target),
    ensures
        final(table).wf(),
        faithful(*final(table), *target),
        *final(budget) <= *old(budget),
        final(table).cols_view() == old(table).cols_view(),
        begins_with(final(table).rows_view(), old(table).rows_view()),
        forall|i: int|
            old(table).rows_view().len() <= i < final(table).rows_view().len() ==> #[trigger] extends_earlier(
                final(table).rows_view(),
                target.alphabet_view(),
                i,
            ),
        forall|i: int|
            old(table).rows_view().len() <= i < final(table).rows_view().len() ==> #[trigger] fresh_row(*final(table), i),
        final(table).rows_view().len() == old(table).rows_view().len() + (*old(budget) - *final(budget)),
        old(table).cells_view().submap_of(final(table).cells_view()),
        closed(*old(table), target.alphabet_view()) ==> r is Ok && *final(table) == *old(table)
            && *final(budget) == *old(budget),
        r is Ok ==> ready(*final(table), *target) && closed(*final(table), target.alphabet_view()),
        r is Ok && consistent(*old(table), target.alphabet_view()) ==> consistent(
            *final(table),
            target.alphabet_view(),
        ),
        r matches Err(e) ==> (e == LearnError::StepLimit && *final(budget) == 0) || (
        e matches LearnError::Query(q) && query_failed(*target, q)),
{
    let ghost alph = target.alphabet_view();
    let ghost n0 = old(table).rows_view().len();
    let letters = target.get_alphabet();
    assert(table.rows_view().take(n0 as int) =~= table.rows_view());
    loop
        invariant
            ready(*table, *target),
            alph == target.alphabet_view(),
            saturated(*old(table), alph),
            n0 == old(table).rows_view().len(),
            letters.deep_view() == alph,
            *budget <= *old(budget),
            table.cols_view() == old(table).cols_view(),
            begins_with(table.rows_view(), old(table).rows_view()),
            forall|i: int|
                n0 <= i < table.rows_view().len() ==> #[trigger] extends_earlier(table.rows_view(), alph, i),
        forall|i: int|
                n0 <= i < table.rows_view().len() ==> #[trigger] fresh_row(*table, i),
            table.rows_view().len() == n0 + (*old(budget) - *budget),
            old(table).cells_view().submap_of(table.cells_view()),
            closed(*old(table), alph) ==> *table == *old(table) && *budget == *old(budget),
        decreases *budget,
    {
        match find_unclosed(table, letters) {
            None => {
                proof {
                    if consistent(*old(table), alph) {
                        lemma_fresh_rows_keep_consistency(*old(table), *table, alph);
                    }
                }
                return Ok(());
            },
            Some(row) => {
                let ghost before = *table;
                let ghost rs = before.rows_view();
                let ghost w = row.deep_view();
                proof {
                    let (i, k) = choose|i: int, k: int|
                        0 <= i < table.rows_view().len() && 0 <= k < alph.len()
                            && row.deep_view() == table.rows_view()[i].push(alph[k])
                            && !has_row_like(*table, row.deep_view());
                    assert(!closed(*table, alph));
                    assert(over(seq![alph[k]], alph)) by {
                        assert(seq![alph[k]][0] == alph[k]);
                    }
                    assert(over(table.rows_view()[i], alph));
                    lemma_over_concat(table.rows_view()[i], seq![alph[k]], alph);
                    assert(table.rows_view()[i] + seq![alph[k]] =~= row.deep_view());
                    lemma_all_over_push(table.rows_view(), row.deep_view(), alph);
                    assert forall|n: int| 0 <= n < row.deep_view().len() implies table.rows_view().contains(
                        #[trigger] row.deep_view().take(n),
                    ) by {
                        let r = table.rows_view()[i];
                        assert(row.deep_view().take(n) =~= r.take(n));
                        assert(table.rows_view().contains(r.take(n)));
                    }
                    lemma_prefix_closed_push(table.rows_view(), row.deep_view());
                    lemma_row_and_extension_complete(before, alph, i, k);
                    if rs.contains(w) {
                        let i3 = choose|i3: int| 0 <= i3 < rs.len() && rs[i3] == w;
                        assert(agree(before, w, rs[i3]));
                    }
                    assert(extends_earlier(rs.push(w), alph, rs.len() as int)) by {
                        assert(rs.push(w)[i] == rs[i]);
                    }
                }
                if *budget == 0 {
                    return Err(LearnError::StepLimit);
                }
                *budget = *budget - 1;
                table.add_rows(row);
                match refill(table, target) {
                    Ok(()) => {},
                    Err(e) => {
                        proof {
                            lemma_closed_step(before, *table, alph, old(table).rows_view(), w);
                        }
                        return Err(e);
                    },
                }
                proof {
                    lemma_closed_step(before, *table, alph, old(table).rows_view(), w);
                }
            },
        }
    }
}

/// The first `n` symbols of `w`.
fn word_prefix(w: &[Symbol], n: usize) -> (r: Word)
    requires
        n <= w.len(),
    ensures
        r.deep_view() == w.deep_view().take(n as int),
{
    let mut r: Word = Vec::new();
    let mut i: usize = 0;
    while i < n
        invariant
            i <= n <= w.len(),
            r.deep_view() == w.deep_view().take(i as int),
        decreases n - i,
    {
        let ghost before = r.deep_view();
        r.push(w[i].clone());
        assert(r.deep_view() =~= before.push(w.deep_view()[i as int]));
        assert(r.deep_view() =~= w.deep_view().take(i + 1));
        i = i + 1;
    }
    r
}

/// Adds every non-empty prefix of the counterexample `ce` as a row.
fn add_prefixes(table: &mut ObservationTable, target: &DFA, ce: &Word)
    requires
        old(table).wf(),
        faithful(*old(table), *target),
        all_over(old(table).rows_view(), target.alphabet_view()),
        all_over(old(table).cols_view(), target.alphabet_view()),
        over(ce.deep_view(), target.alphabet_view()),
        prefix_closed(old(table).rows_view()),
    ensures
        final(table).wf(),
        faithful(*final(table), *target),
        all_over(final(table).rows_view(), target.alphabet_view()),
        all_over(final(table).cols_view(), target.alphabet_view()),
        final(table).cols_view() == old(table).cols_view(),
        prefix_closed(final(table).rows_view()),
{
    let ghost alph = target.alphabet_view();
    let mut n: usize = 0;
    proof {
        assert(ce.deep_view().take(0) =~= table.rows_view()[0]);
    }
    while n < ce.len()
        invariant
            n <= ce.len(),
            alph == target.alphabet_view(),
            over(ce.deep_view(), alph),
            table.wf(),
            faithful(*table, *target),
            all_over(table.rows_view(), alph),
            all_over(table.cols_view(), alph),
            table.cols_view() == old(table).cols_view(),
            prefix_closed(table.rows_view()),
            forall|m: int| 0 <= m <= n ==> table.rows_view().contains(#[trigger] ce.deep_view().take(m)),
        decreases ce.len() - n,
    {
        n = n + 1;
        let p = word_prefix(ce, n);
        proof {
            assert forall|i: int| 0 <= i < p.deep_view().len() implies alph.contains(#[trigger] p.deep_view()[i]) by {
                assert(p.deep_view()[i] == ce.deep_view()[i]);
            }
            lemma_all_over_push(table.rows_view(), p.deep_view(), alph);
            assert forall|m: int| 0 <= m < p.deep_view().len() implies table.rows_view().contains(
                #[trigger] p.deep_view().take(m),
            ) by {
                assert(p.deep_view().take(m) =~= ce.deep_view().take(m));
            }
            lemma_prefix_closed_push(table.rows_view(), p.deep_view());
        }
        let ghost before = table.rows_view();
        table.add_rows(p);
        proof {
            assert forall|m: int| 0 <= m <= n implies table.rows_view().contains(#[trigger] ce.deep_view().take(m)) by {
                if m < n {
                    let x = choose|x: int| 0 <= x < before.len() && before[x] == ce.deep_view().take(m);
                    if !before.contains(p.deep_view()) {
                        assert(table.rows_view()[x] == before[x]);
                    }
                } else if !before.contains(p.deep_view()) {
                    assert(table.rows_view()[before.len() as int] == p.deep_view());
                }
            }
        }
    }
}

/// What a successful run of the learner returns: a table that is saturated,
/// faithful to the target, prefix-closed in its rows, suffix-closed in its
/// columns, consistent and closed; its hypothesis; and the
/// hypothesis agrees with the target on every word over the alphabet up to
/// the search bound.
pub open spec fn learned(target: DFA, h: DFA, t: ObservationTable) -> bool {
    let alph = target.alphabet_view();
    &&& ready(t, target)
    &&& consistent(t, alph)
    &&& closed(t, alph)
    &&& h.built_from(
        hypothesis_edges(t, alph, t.rows_view().len() as int),
        state_of(t, Seq::empty()),
        accepting_states(row_states(t, t.rows_view().len() as int)),
    )
    &&& forall|w: WordView|
        over(w, alph) && w.len() <= search_bound(target) ==> #[trigger] target.accepts(w) == h.accepts(w)
}

/// The learner's main loop.
fn run_learner(target: &DFA, max_steps: u64) -> (r: Result<(DFA, ObservationTable), LearnError>)
    ensures
        match r {
            Ok((h, t)) => learned(*target, h, t),
            Err(LearnError::StepLimit) => true,
            Err(LearnError::Query(q)) => query_failed(*target, q),
        },
{
    let letters = target.get_alphabet();
    let mut budget: u64 = max_steps;
    let mut table = ObservationTable::new();
    proof {
        assert forall|i: int, n: int|
            0 <= i < table.rows_view().len() && 0 <= n <= table.rows_view()[i].len() implies table.rows_view().contains(
            #[trigger] table.rows_view()[i].take(n),
        ) by {
            assert(table.rows_view()[i].take(n) =~= table.rows_view()[0]);
        }
        assert forall|j: int, n: int|
            0 <= j < table.cols_view().len() && 0 <= n <= table.cols_view()[j].len() implies table.cols_view().contains(
            #[trigger] table.cols_view()[j].skip(n),
        ) by {
            assert(table.cols_view()[j].skip(n) =~= table.cols_view()[0]);
        }
    }
    match refill(&mut table, target) {
        Ok(()) => {},
        Err(e) => {
            return Err(e);
        },
    }
    loop
        invariant
            ready(table, *target),
            letters.deep_view() == target.alphabet_view(),
        decreases budget,
    {
        if budget == 0 {
            return Err(LearnError::StepLimit);
        }
        budget = budget - 1;
        match make_consistent(&mut table, target, &mut budget) {
            Ok(()) => {},
            Err(e) => {
                return Err(e);
            },
        }
        match make_closed(&mut table, target, &mut budget) {
            Ok(()) => {},
            Err(e) => {
                return Err(e);
            },
        }
        if find_inconsistency(&table, letters).is_none() {
            let hypothesis = construct_automaton(&table, letters);
            match equivalence_query(target, &hypothesis) {
                None => {
                    return Ok((hypothesis, table));
                },
                Some(ce) => {
                    add_prefixes(&mut table, target, &ce);
                    match refill(&mut table, target) {
                        Ok(()) => {},
                        Err(e) => {
                            return Err(e);
                        },
                    }
                },
            }
        }
    }
}

/// Runs L* against `target`, spending at most `max_steps` units on repairs
/// and rounds of refinement.
pub fn learn_within(target: &DFA, max_steps: u64) -> (r: Result<(DFA, ObservationTable), LearnError>)
    ensures
        match r {
            Ok((h, t)) => learned(*target, h, t),
            Err(LearnError::StepLimit) => true,
            Err(LearnError::Query(q)) => query_failed(*target, q) && !target.total(),
        },
{
    let r = run_learner(target, max_steps);
    proof {
        use_type_invariant(target);
        if let Err(LearnError::Query(q)) = r {
            if target.total() {
                let w = choose|w: WordView|
                    over(w, target.alphabet_view()) && target.accepts(w) == Err::<bool, RunError>(q);
                target.lemma_total_reads(w);
            }
        }
    }
    r
}

/// Learns an acceptor equivalent to `target` (up to the bounded equivalence
/// check) with L*, with no practical limit on the number of steps.
pub fn learn(target: &DFA) -> (r: Result<(DFA, ObservationTable), LearnError>)
    ensures
        match r {
            Ok((h, t)) => learned(*target, h, t),
            Err(LearnError::StepLimit) => true,
            Err(LearnError::Query(q)) => query_failed(*target, q) && !target.total(),
        },
{
    learn_within(target, u64::MAX)
}

} // verus!
