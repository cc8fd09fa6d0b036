//! Words over an alphabet of string symbols; the empty word is the empty sequence.
use vstd::prelude::*;

verus! {

/// An alphabet element.
pub type Symbol = String;

/// A finite sequence of symbols.
pub type Word = Vec<Symbol>;

/// The plain value of a word.
pub type WordView = Seq<Seq<char>>;

/// Every symbol of `w` belongs to `alph`.
pub open spec fn over(w: WordView, alph: Seq<Seq<char>>) -> bool {
    forall|i: int| 0 <= i < w.len() ==> alph.contains(#[trigger] w[i])
}

/// Concatenation of two words; the empty word is its identity on either side.
pub fn concat(a: &[Symbol], b: &[Symbol]) -> (r: Word)
    ensures
        r.deep_view() == a.deep_view() + b.deep_view(),
{
    let mut r: Word = Vec::new();
    let mut i: usize = 0;
    while i < a.len()
        invariant
            i <= a.len(),
            r.deep_view() == a.deep_view().take(i as int),
        decreases a.len() - i,
    {
        let ghost before = r.deep_view();
        r.push(a[i].clone());
        assert(r.deep_view() =~= before.push(a.deep_view()[i as int]));
        i = i + 1;
        assert(r.deep_view() =~= a.deep_view().take(i as int));
    }
    let mut j: usize = 0;
    while j < b.len()
        invariant
            j <= b.len(),
            r.deep_view() == a.deep_view() + b.deep_view().take(j as int),
        decreases b.len() - j,
    {
        let ghost before = r.deep_view();
        r.push(b[j].clone());
        assert(r.deep_view() =~= before.push(b.deep_view()[j as int]));
        j = j + 1;
        assert(r.deep_view() =~= a.deep_view() + b.deep_view().take(j as int));
    }
    assert(a.deep_view().take(a.len() as int) =~= a.deep_view());
    assert(b.deep_view().take(b.len() as int) =~= b.deep_view());
    r
}

/// The word `w` followed by the single symbol `a`.
pub fn extend(w: &[Symbol], a: &Symbol) -> (r: Word)
    ensures
        r.deep_view() == w.deep_view().push(a@),
{
    let mut r = concat(w, &[]);
    r.push(a.clone());
    assert(r.deep_view() =~= w.deep_view().push(a@));
    r
}

/// Whether two words hold the same symbols in the same order.
pub fn same_word(a: &[Symbol], b: &[Symbol]) -> (r: bool)
    ensures
        r == (a.deep_view() == b.deep_view()),
{
    if a.len() != b.len() {
        assert(a.deep_view().len() != b.deep_view().len());
        return false;
    }
    let mut i: usize = 0;
    while i < a.len()
        invariant
            i <= a.len(),
            a.len() == b.len(),
            forall|k: int| 0 <= k < i ==> a.deep_view()[k] == b.deep_view()[k],
        decreases a.len() - i,
    {
        if a[i] != b[i] {
            assert(a.deep_view()[i as int] != b.deep_view()[i as int]);
            return false;
        }
        i = i + 1;
    }
    assert(a.deep_view() =~= b.deep_view());
    true
}

/// The empty word is a left and a right identity of concatenation.
pub proof fn lemma_concat_identity(w: Seq<Seq<char>>)
    ensures
        Seq::<Seq<char>>::empty() + w == w,
        w + Seq::<Seq<char>>::empty() == w,
{
    assert(Seq::<Seq<char>>::empty() + w =~= w);
    assert(w + Seq::<Seq<char>>::empty() =~= w);
}

} // verus!
