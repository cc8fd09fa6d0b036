//! The observation table: membership results indexed by prefixes and suffixes.
use vstd::prelude::*;

use crate::acceptor::State;
use crate::word::{same_word, Symbol, Word, WordView};

verus! {

/// Why a signature or the set of states could not be computed.
#[derive(Debug, Clone, Copy, PartialEq, Eq, Structural)]
pub enum TableError {
    /// A cell of the row is not filled.
    IncompleteRow,
    /// A cell of some row is not filled.
    IncompleteTable,
}

/// The key of a cell: prefix and suffix.
pub type CellKey = (WordView, WordView);

/// The name of the state that a signature stands for: one digit per column,
/// `1` for a member and `0` for a non-member.
pub open spec fn state_name(sig: Seq<bool>) -> Seq<char> {
    Seq::new(sig.len(), |i: int| if sig[i] { '1' } else { '0' })
}

/// Distinct signatures have distinct names, so a name stands for exactly one
/// signature.
pub proof fn lemma_state_name_injective(s1: Seq<bool>, s2: Seq<bool>)
    ensures
        state_name(s1) == state_name(s2) <==> s1 == s2,
{
    if state_name(s1) == state_name(s2) {
        assert(s1.len() == state_name(s1).len());
        assert forall|i: int| 0 <= i < s1.len() implies s1[i] == s2[i] by {
            assert(state_name(s1)[i] == state_name(s2)[i]);
        }
        assert(s1 =~= s2);
    }
}

/// A partial matrix of membership results, with its rows and columns.
///
/// Cells are kept as a list of entries whose keys are those of a ghost map.
pub struct ObservationTable {
    rows: Vec<Word>,
    columns: Vec<Word>,
    cells: Vec<(Word, Word, bool)>,
    model: Ghost<Map<CellKey, bool>>,
}

impl ObservationTable {
    /// The distinguished prefixes, in order of addition.
    pub closed spec fn rows_view(&self) -> Seq<WordView> {
        self.rows.deep_view()
    }

    /// The distinguished suffixes, in order of addition.
    pub closed spec fn cols_view(&self) -> Seq<WordView> {
        self.columns.deep_view()
    }

    /// The filled cells.
    pub closed spec fn cells_view(&self) -> Map<CellKey, bool> {
        self.model@
    }

    closed spec fn entry_key(&self, i: int) -> CellKey {
        (self.cells@[i].0.deep_view(), self.cells@[i].1.deep_view())
    }

    /// The cell entries hold exactly the filled cells.
    pub closed spec fn cells_wf(&self) -> bool {
        &&& forall|i: int|
            0 <= i < self.cells@.len() ==> {
                &&& self.model@.contains_key(#[trigger] self.entry_key(i))
                &&& self.model@[self.entry_key(i)] == self.cells@[i].2
            }
        &&& forall|k: CellKey|
            #[trigger] self.model@.contains_key(k) ==> exists|i: int|
                0 <= i < self.cells@.len() && self.entry_key(i) == k
    }

    /// Well-formedness: the empty word leads both rows and columns, neither
    /// repeats a word, and the cells are kept coherently.
    pub open spec fn wf(&self) -> bool {
        &&& self.rows_view().len() > 0
        &&& self.rows_view()[0] == Seq::<Seq<char>>::empty()
        &&& self.rows_view().no_duplicates()
        &&& self.cols_view().len() > 0
        &&& self.cols_view()[0] == Seq::<Seq<char>>::empty()
        &&& self.cols_view().no_duplicates()
        &&& self.cells_wf()
    }

    /// Whether every column holds a value for prefix `p`.
    pub open spec fn row_complete(&self, p: WordView) -> bool {
        forall|j: int|
            0 <= j < self.cols_view().len() ==> self.cells_view().contains_key(
                (p, #[trigger] self.cols_view()[j]),
            )
    }

    /// The signature of `p`: its cell values across the columns, in order.
    pub open spec fn signature(&self, p: WordView) -> Option<Seq<bool>> {
        if self.row_complete(p) {
            Some(Seq::new(self.cols_view().len(), |j: int| self.cells_view()[(p, self.cols_view()[j])]))
        } else {
            None
        }
    }

    /// An empty table: the empty word as its only row and only column.
    pub fn new() -> (r: ObservationTable)
        ensures
            r.wf(),
            r.rows_view() == seq![Seq::<Seq<char>>::empty()],
            r.cols_view() == seq![Seq::<Seq<char>>::empty()],
            r.cells_view() == Map::<CellKey, bool>::empty(),
    {
        let rows: Vec<Word> = vec![Vec::new()];
        let columns: Vec<Word> = vec![Vec::new()];
        let r = ObservationTable {
            rows,
            columns,
            cells: Vec::new(),
            model: Ghost(Map::empty()),
        };
        assert(r.rows@[0].deep_view() =~= Seq::<Seq<char>>::empty());
        assert(r.columns@[0].deep_view() =~= Seq::<Seq<char>>::empty());
        assert(r.rows_view() =~= seq![Seq::<Seq<char>>::empty()]);
        assert(r.cols_view() =~= seq![Seq::<Seq<char>>::empty()]);
        r
    }

    /// The rows.
    pub fn get_rows(&self) -> (r: &[Word])
        ensures
            r.deep_view() == self.rows_view(),
    {
        self.rows.as_slice()
    }

    /// The columns.
    pub fn get_columns(&self) -> (r: &[Word])
        ensures
            r.deep_view() == self.cols_view(),
    {
        self.columns.as_slice()
    }

    /// The value of the cell at `prefix` and `suffix`, if it is filled.
    pub fn get_cell(&self, prefix: &[Symbol], suffix: &[Symbol]) -> (r: Option<bool>)
        requires
            self.wf(),
        ensures
            r == (if self.cells_view().contains_key((prefix.deep_view(), suffix.deep_view())) {
                Some(self.cells_view()[(prefix.deep_view(), suffix.deep_view())])
            } else {
                None::<bool>
            }),
    {
        let ghost key = (prefix.deep_view(), suffix.deep_view());
        let mut i: usize = 0;
        while i < self.cells.len()
            invariant
                i <= self.cells@.len(),
                self.wf(),
                key == (prefix.deep_view(), suffix.deep_view()),
                forall|k: int| 0 <= k < i ==> self.entry_key(k) != key,
            decreases self.cells.len() - i,
        {
            let e = &self.cells[i];
            if same_word(&e.0, prefix) && same_word(&e.1, suffix) {
                assert(self.entry_key(i as int) == key);
                return Some(e.2);
            }
            i = i + 1;
        }
        proof {
            if self.model@.contains_key(key) {
                let k = choose|k: int| 0 <= k < self.cells@.len() && self.entry_key(k) == key;
                assert(false);
            }
        }
        None
    }

    /// The signature of `prefix`, or `IncompleteRow` where a cell of it is unfilled.
    pub fn get_value(&self, prefix: &[Symbol]) -> (r: Result<Vec<bool>, TableError>)
        requires
            self.wf(),
        ensures
            match self.signature(prefix.deep_view()) {
                Some(sig) => r is Ok && r->Ok_0@ == sig,
                None => r == Err::<Vec<bool>, TableError>(TableError::IncompleteRow),
            },
    {
        let ghost p = prefix.deep_view();
        let mut v: Vec<bool> = Vec::new();
        let mut j: usize = 0;
        while j < self.columns.len()
            invariant
                j <= self.cols_view().len(),
                self.wf(),
                p == prefix.deep_view(),
                v@.len() == j,
                forall|k: int|
                    0 <= k < j ==> self.cells_view().contains_key((p, #[trigger] self.cols_view()[k])),
                forall|k: int|
                    0 <= k < j ==> (#[trigger] v@[k]) == self.cells_view()[(p, self.cols_view()[k])],
            decreases self.columns.len() - j,
        {
            assert(self.columns@[j as int].deep_view() == self.cols_view()[j as int]);
            let col: &[Symbol] = self.columns[j].as_slice();
            assert(col.deep_view() == self.cols_view()[j as int]);
            match self.get_cell(prefix, col) {
                Some(b) => {
                    let ghost before = v@;
                    v.push(b);
                    assert(self.cells_view().contains_key((p, self.cols_view()[j as int])));
                    assert(v@[j as int] == self.cells_view()[(p, self.cols_view()[j as int])]);
                    assert forall|k: int| 0 <= k <= j implies self.cells_view().contains_key((p, self.cols_view()[k]))
                        && (#[trigger] v@[k]) == self.cells_view()[(p, self.cols_view()[k])] by {
                        if k < j {
                            assert(v@[k] == before[k]);
                        }
                    }
                },
                None => {
                    assert(!self.cells_view().contains_key((p, self.cols_view()[j as int])));
                    assert(!self.row_complete(p));
                    return Err(TableError::IncompleteRow);
                },
            }
            j = j + 1;
        }
        assert forall|k: int| 0 <= k < self.cols_view().len() implies
            self.cells_view().contains_key((p, #[trigger] self.cols_view()[k])) by {
            assert(v@[k] == self.cells_view()[(p, self.cols_view()[k])]);
        }
        assert(self.row_complete(p));
        assert(v@ =~= self.signature(p).unwrap());
        Ok(v)
    }

    /// The canonical state of `prefix`: the name of its signature.
    pub fn get_value_as_state(&self, prefix: &[Symbol]) -> (r: Result<State, TableError>)
        requires
            self.wf(),
        ensures
            match self.signature(prefix.deep_view()) {
                Some(sig) => r is Ok && r->Ok_0@ == state_name(sig),
                None => r == Err::<State, TableError>(TableError::IncompleteRow),
            },
    {
        match self.get_value(prefix) {
            Ok(v) => Ok(Self::vecbool_to_state(v)),
            Err(e) => Err(e),
        }
    }

    /// Encodes a signature as a state name, one digit per value.
    pub fn vecbool_to_state(vb: Vec<bool>) -> (r: State)
        ensures
            r@ == state_name(vb@),
    {
        let mut s = String::new();
        let mut i: usize = 0;
        proof {
            reveal_strlit("1");
            reveal_strlit("0");
        }
        while i < vb.len()
            invariant
                i <= vb@.len(),
                s@ == state_name(vb@.take(i as int)),
                "1"@ == seq!['1'],
                "0"@ == seq!['0'],
            decreases vb.len() - i,
        {
            let ghost before = s@;
            if vb[i] {
                s.append("1");
            } else {
                s.append("0");
            }
            i = i + 1;
            assert(s@ =~= state_name(vb@.take(i as int)));
        }
        assert(vb@.take(vb@.len() as int) =~= vb@);
        s
    }

    /// Adds `prefix` as a row unless it is one already.
    pub fn add_rows(&mut self, prefix: Word)
        requires
            old(self).wf(),
        ensures
            final(self).wf(),
            final(self).rows_view() == (if old(self).rows_view().contains(prefix.deep_view()) {
                old(self).rows_view()
            } else {
                old(self).rows_view().push(prefix.deep_view())
            }),
            final(self).cols_view() == old(self).cols_view(),
            final(self).cells_view() == old(self).cells_view(),
    {
        if !contains_word(&self.rows, &prefix) {
            let ghost before = self.rows_view();
            let ghost pv = prefix.deep_view();
            self.rows.push(prefix);
            assert(self.rows_view() =~= before.push(pv));
            assert(self.rows_view()[0] == before[0]);
            proof {
                lemma_push_fresh(before, pv);
            }
            assert(self.rows_view().no_duplicates());
            assert(self.cells_wf()) by {
                assert forall|i: int| 0 <= i < self.cells@.len() implies self.entry_key(i) == old(self).entry_key(i) by {}
            }
        }
    }

    /// Adds `suffix` as a column unless it is one already.
    pub fn add_columns(&mut self, suffix: Word)
        requires
            old(self).wf(),
        ensures
            final(self).wf(),
            final(self).cols_view() == (if old(self).cols_view().contains(suffix.deep_view()) {
                old(self).cols_view()
            } else {
                old(self).cols_view().push(suffix.deep_view())
            }),
            final(self).rows_view() == old(self).rows_view(),
            final(self).cells_view() == old(self).cells_view(),
    {
        if !contains_word(&self.columns, &suffix) {
            let ghost before = self.cols_view();
            let ghost pv = suffix.deep_view();
            self.columns.push(suffix);
            assert(self.cols_view() =~= before.push(pv));
            assert(self.cols_view()[0] == before[0]);
            proof {
                lemma_push_fresh(before, pv);
            }
            assert(self.cells_wf()) by {
                assert forall|i: int| 0 <= i < self.cells@.len() implies self.entry_key(i) == old(self).entry_key(i) by {}
            }
        }
    }

    /// The canonical state of every row, in row order, or `IncompleteTable`
    /// where some row has an unfilled cell.
    pub fn get_states(&self) -> (r: Result<Vec<State>, TableError>)
        requires
            self.wf(),
        ensures
            match r {
                Ok(v) => {
                    &&& forall|i: int|
                        0 <= i < self.rows_view().len() ==> self.row_complete(
                            #[trigger] self.rows_view()[i],
                        )
                    &&& v.deep_view() == Seq::new(
                        self.rows_view().len(),
                        |i: int| state_name(self.signature(self.rows_view()[i]).unwrap()),
                    )
                },
                Err(e) => {
                    &&& e == TableError::IncompleteTable
                    &&& exists|i: int|
                        0 <= i < self.rows_view().len() && !self.row_complete(
                            #[trigger] self.rows_view()[i],
                        )
                },
            },
    {
        let mut states: Vec<State> = Vec::new();
        let mut i: usize = 0;
        while i < self.rows.len()
            invariant
                i <= self.rows_view().len(),
                self.wf(),
                states@.len() == i,
                forall|k: int| 0 <= k < i ==> self.row_complete(#[trigger] self.rows_view()[k]),
                forall|k: int|
                    0 <= k < i ==> (#[trigger] states@[k])@ == state_name(
                        self.signature(self.rows_view()[k]).unwrap(),
                    ),
            decreases self.rows.len() - i,
        {
            match self.get_value_as_state(&self.rows[i]) {
                Ok(st) => {
                    states.push(st);
                },
                Err(_) => {
                    assert(!self.row_complete(self.rows_view()[i as int]));
                    return Err(TableError::IncompleteTable);
                },
            }
            i = i + 1;
        }
        assert(states.deep_view() =~= Seq::new(
            self.rows_view().len(),
            |i: int| state_name(self.signature(self.rows_view()[i]).unwrap()),
        ));
        Ok(states)
    }

    /// Whether the cell at `row` and `column` is filled.
    pub fn is_filled(&self, row: &[Symbol], column: &[Symbol]) -> (r: bool)
        requires
            self.wf(),
        ensures
            r == self.cells_view().contains_key((row.deep_view(), column.deep_view())),
    {
        self.get_cell(row, column).is_some()
    }

    /// Fills the cell at `row` and `column` with `value`; a filled cell keeps
    /// the value that it has.
    pub fn fill_cell(&mut self, row: &[Symbol], column: &[Symbol], value: bool)
        requires
            old(self).wf(),
        ensures
            final(self).wf(),
            final(self).rows_view() == old(self).rows_view(),
            final(self).cols_view() == old(self).cols_view(),
            final(self).cells_view() == (if old(self).cells_view().contains_key(
                (row.deep_view(), column.deep_view()),
            ) {
                old(self).cells_view()
            } else {
                old(self).cells_view().insert((row.deep_view(), column.deep_view()), value)
            }),
    {
        if self.is_filled(row, column) {
            return;
        }
        let ghost key = (row.deep_view(), column.deep_view());
        let ghost old_cells = self.cells@;
        let rw = crate::word::concat(row, &[]);
        let cw = crate::word::concat(column, &[]);
        assert(rw.deep_view() =~= row.deep_view());
        assert(cw.deep_view() =~= column.deep_view());
        self.cells.push((rw, cw, value));
        self.model = Ghost(self.model@.insert(key, value));
        assert forall|i: int| 0 <= i < self.cells@.len() implies {
            &&& self.model@.contains_key(#[trigger] self.entry_key(i))
            &&& self.model@[self.entry_key(i)] == self.cells@[i].2
        } by {
            if i < old_cells.len() {
                assert(self.cells@[i] == old_cells[i]);
                assert(self.entry_key(i) == old(self).entry_key(i));
                assert(old(self).model@.contains_key(old(self).entry_key(i)));
            } else {
                assert(self.entry_key(i) == key);
            }
        }
        assert forall|k: CellKey| #[trigger] self.model@.contains_key(k) implies exists|i: int|
            0 <= i < self.cells@.len() && self.entry_key(i) == k by {
            if k == key {
                assert(self.entry_key(old_cells.len() as int) == k);
            } else {
                let i = choose|i: int| 0 <= i < old_cells.len() && old(self).entry_key(i) == k;
                assert(self.cells@[i] == old_cells[i]);
                assert(self.entry_key(i) == k);
            }
        }
    }
}

/// Appending an element that a sequence lacks keeps it free of repeats.
pub proof fn lemma_push_fresh<A>(s: Seq<A>, x: A)
    requires
        s.no_duplicates(),
        !s.contains(x),
    ensures
        s.push(x).no_duplicates(),
{
    assert forall|i: int, j: int|
        0 <= i < s.push(x).len() && 0 <= j < s.push(x).len() && i != j implies s.push(x)[i]
        != s.push(x)[j] by {
        if i < s.len() && j < s.len() {
            assert(s.push(x)[i] == s[i]);
            assert(s.push(x)[j] == s[j]);
        } else if i < s.len() {
            assert(s.push(x)[i] == s[i]);
        } else if j < s.len() {
            assert(s.push(x)[j] == s[j]);
        }
    }
}

/// Whether `ws` holds the word `w`.
pub fn contains_word(ws: &[Word], w: &[Symbol]) -> (r: bool)
    ensures
        r == ws.deep_view().contains(w.deep_view()),
{
    let mut i: usize = 0;
    while i < ws.len()
        invariant
            i <= ws.len(),
            forall|k: int| 0 <= k < i ==> ws.deep_view()[k] != w.deep_view(),
        decreases ws.len() - i,
    {
        if same_word(&ws[i], w) {
            assert(ws.deep_view()[i as int] == w.deep_view());
            return true;
        }
        i = i + 1;
    }
    false
}

} // verus!
