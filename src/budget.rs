use vstd::multiset::Multiset;
use vstd::prelude::*;

verus! {

/// How many times `c` occurs in `s`.
pub open spec fn occurrences(s: Seq<char>, c: char) -> nat {
    s.to_multiset().count(c)
}

/// `word` can be spelled from the characters of `available`: it uses no
/// character more often than `available` holds it.
pub open spec fn fits(word: Seq<char>, available: Seq<char>) -> bool {
    forall|c: char| occurrences(word, c) <= occurrences(available, c)
}

/// The words of `dictionary` that can be spelled from the characters of
/// `available`, each character used at most as often as it occurs there.
pub open spec fn subset_anagrams(dictionary: Set<Seq<char>>, available: Seq<char>) -> Set<Seq<char>> {
    dictionary.filter(|w: Seq<char>| fits(w, available))
}

/// The words of `dictionary` that extend `prefix` by characters that can be
/// spelled from `available`.
pub open spec fn extensions(dictionary: Set<Seq<char>>, prefix: Seq<char>, available: Seq<char>) -> Set<Seq<char>> {
    dictionary.filter(
        |w: Seq<char>| prefix.is_prefix_of(w) && fits(w.skip(prefix.len() as int), available),
    )
}

/// Those of `extensions(dictionary, prefix, available)` that go on past
/// `prefix` with a character of `firsts`.
pub open spec fn extensions_through(
    dictionary: Set<Seq<char>>,
    prefix: Seq<char>,
    available: Seq<char>,
    firsts: Set<char>,
) -> Set<Seq<char>> {
    extensions(dictionary, prefix, available).filter(
        |w: Seq<char>| w.len() > prefix.len() && firsts.contains(w[prefix.len() as int]),
    )
}

/// The subset anagrams are the extensions of the empty word.
pub proof fn lemma_anagrams_extend_empty(dictionary: Set<Seq<char>>, available: Seq<char>)
    ensures
        subset_anagrams(dictionary, available) == extensions(dictionary, Seq::empty(), available),
{
    assert forall|w: Seq<char>| #[trigger] w.skip(0) == w by {
        assert(w.skip(0) =~= w);
    }
    assert(subset_anagrams(dictionary, available) =~= extensions(dictionary, Seq::empty(), available));
}

/// Going one character `c` further, paid for by `available[t]`: the extensions
/// of `prefix + c` within what remains are those of `prefix` that go on with `c`.
pub proof fn lemma_extensions_step(
    dictionary: Set<Seq<char>>,
    prefix: Seq<char>,
    c: char,
    available: Seq<char>,
    t: int,
)
    requires
        0 <= t < available.len(),
        available[t] == c,
    ensures
        extensions(dictionary, prefix.push(c), available.remove(t))
            == extensions_through(dictionary, prefix, available, set![c]),
{
    let n = prefix.len() as int;
    assert forall|w: Seq<char>| #[trigger] dictionary.contains(w)
        implies (prefix.push(c).is_prefix_of(w) && fits(w.skip(n + 1), available.remove(t)))
            == (prefix.is_prefix_of(w) && fits(w.skip(n), available) && w.len() > n
                && set![c].contains(w[n])) by {
        if prefix.push(c).is_prefix_of(w) {
            assert(w.subrange(0, n) =~= prefix.push(c).subrange(0, n));
            assert(prefix.push(c).subrange(0, n) =~= prefix);
            assert(w[n] == prefix.push(c)[n]);
        }
        if prefix.is_prefix_of(w) && w.len() > n && w[n] == c {
            assert(w.subrange(0, n + 1) =~= prefix.push(c));
        }
        if w.len() > n && w[n] == c {
            assert(w.skip(n).drop_first() =~= w.skip(n + 1));
            lemma_fits_spend(w.skip(n), available, t);
        }
    }
    assert(extensions(dictionary, prefix.push(c), available.remove(t))
        =~= extensions_through(dictionary, prefix, available, set![c]));
}

/// No extension of `prefix` goes on with a character that `available` lacks.
pub proof fn lemma_extensions_missing(
    dictionary: Set<Seq<char>>,
    prefix: Seq<char>,
    c: char,
    available: Seq<char>,
)
    requires
        !available.contains(c),
    ensures
        extensions_through(dictionary, prefix, available, set![c]) == Set::<Seq<char>>::empty(),
{
    let n = prefix.len() as int;
    assert forall|w: Seq<char>| w.len() > n && w[n] == c
        implies !fits(#[trigger] w.skip(n), available) by {
        lemma_fits_missing(w.skip(n), available);
    }
    assert(extensions_through(dictionary, prefix, available, set![c]) =~= Set::<Seq<char>>::empty());
}

/// The empty word fits any budget.
pub proof fn lemma_empty_fits(available: Seq<char>)
    ensures
        fits(Seq::empty(), available),
{
    broadcast use vstd::seq_lib::group_seq_properties, vstd::multiset::group_multiset_axioms;

    assert forall|c: char| occurrences(Seq::empty(), c) <= occurrences(available, c) by {
        assert(Seq::<char>::empty().to_multiset() =~= Multiset::empty());
    }
}

/// Spending one occurrence of `s[0]` from the budget: `s` fits `available`
/// exactly when the rest of `s` fits what remains once `available[t]`, the
/// same character, is taken out.
pub proof fn lemma_fits_spend(s: Seq<char>, available: Seq<char>, t: int)
    requires
        s.len() > 0,
        0 <= t < available.len(),
        available[t] == s[0],
    ensures
        fits(s, available) == fits(s.drop_first(), available.remove(t)),
{
    broadcast use vstd::seq_lib::group_seq_properties, vstd::multiset::group_multiset_axioms;

    let c = s[0];
    assert(s.remove(0) == s.drop_first());
    assert(s.contains(c));
    assert(available.contains(c));
    assert(s.drop_first().to_multiset() == s.to_multiset().remove(c));
    assert(available.remove(t).to_multiset() == available.to_multiset().remove(c));
    if fits(s, available) {
        assert forall|x: char|
            occurrences(s.drop_first(), x) <= occurrences(available.remove(t), x) by {
            assert(occurrences(s, x) <= occurrences(available, x));
        }
    }
    if fits(s.drop_first(), available.remove(t)) {
        assert forall|x: char| occurrences(s, x) <= occurrences(available, x) by {
            assert(occurrences(s.drop_first(), x) <= occurrences(available.remove(t), x));
        }
    }
}

/// A word that starts with a character that `available` lacks does not fit.
pub proof fn lemma_fits_missing(s: Seq<char>, available: Seq<char>)
    requires
        s.len() > 0,
        !available.contains(s[0]),
    ensures
        !fits(s, available),
{
    broadcast use vstd::seq_lib::group_seq_properties, vstd::multiset::group_multiset_axioms;

    assert(s.contains(s[0]));
    assert(occurrences(s, s[0]) > occurrences(available, s[0]));
}

/// Index of some occurrence of `c` in `budget`, if there is one.
pub fn find_char(budget: &Vec<char>, c: char) -> (r: Option<usize>)
    ensures
        match r {
            Some(t) => t < budget@.len() && budget@[t as int] == c,
            None => !budget@.contains(c),
        },
{
    let mut t: usize = 0;
    while t < budget.len()
        invariant
            t <= budget@.len(),
            forall|j: int| 0 <= j < t ==> budget@[j] != c,
        decreases budget@.len() - t,
    {
        if budget[t] == c {
            return Some(t);
        }
        t = t + 1;
    }
    None
}

} // verus!
