use vstd::prelude::*;

use crate::budget::{fits, occurrences, subset_anagrams};
use crate::trie::reported;

verus! {

/// The dictionary reached from `start` by inserting the words of `ws` in order.
pub open spec fn inserted_all(start: Set<Seq<char>>, ws: Seq<Seq<char>>) -> Set<Seq<char>>
    decreases ws.len(),
{
    if ws.len() == 0 {
        start
    } else {
        inserted_all(start, ws.drop_last()).insert(ws.last())
    }
}

/// A word is reported present right after it is inserted, and, unless it is
/// the empty word, reported absent right after it is then deleted.
pub proof fn law_round_trip(words: Set<Seq<char>>, w: Seq<char>)
    ensures
        reported(words.insert(w), w),
        w.len() > 0 ==> !reported(words.insert(w).remove(w), w),
{
}

/// Inserting distinct words one by one into an empty dictionary leaves as many
/// words as were inserted.
pub proof fn law_size_after_inserts(ws: Seq<Seq<char>>)
    requires
        ws.no_duplicates(),
    ensures
        inserted_all(Set::empty(), ws).finite(),
        inserted_all(Set::empty(), ws).len() == ws.len(),
        inserted_all(Set::empty(), ws) == ws.to_set(),
    decreases ws.len(),
{
    if ws.len() > 0 {
        let rest = ws.drop_last();
        assert(rest.no_duplicates());
        law_size_after_inserts(rest);
        assert(!rest.contains(ws.last())) by {
            if rest.contains(ws.last()) {
                let j = choose|j: int| 0 <= j < rest.len() && rest[j] == ws.last();
                assert(ws[j] == ws[ws.len() - 1]);
            }
        }
        assert(ws.to_set() =~= rest.to_set().insert(ws.last())) by {
            assert forall|x: Seq<char>| ws.contains(x) implies rest.contains(x) || x == ws.last() by {
                let j = choose|j: int| 0 <= j < ws.len() && ws[j] == x;
                if j < rest.len() {
                    assert(rest[j] == x);
                }
            }
            assert forall|x: Seq<char>| rest.contains(x) implies ws.contains(x) by {
                let j = choose|j: int| 0 <= j < rest.len() && rest[j] == x;
                assert(ws[j] == x);
            }
            assert(ws[ws.len() - 1] == ws.last());
        }
    }
}

/// Deleting a word that is not stored leaves the dictionary, and so its size,
/// unchanged.
pub proof fn law_delete_absent(words: Set<Seq<char>>, w: Seq<char>)
    requires
        !words.contains(w),
    ensures
        words.remove(w) == words,
        words.remove(w).len() == words.len(),
{
    assert(words.remove(w) =~= words);
}

/// Deleting a word leaves every other stored word in place.
pub proof fn law_delete_keeps_others(words: Set<Seq<char>>, w: Seq<char>, other: Seq<char>)
    requires
        words.contains(other),
        other != w,
    ensures
        words.remove(w).contains(other),
{
}

/// No word of a query's result uses a character more often than the query
/// holds it.
pub proof fn law_budget_respected(dictionary: Set<Seq<char>>, available: Seq<char>, w: Seq<char>, c: char)
    requires
        subset_anagrams(dictionary, available).contains(w),
    ensures
        occurrences(w, c) <= occurrences(available, c),
{
    assert(fits(w, available));
}

/// Every word of a query's result is reported present by the dictionary.
pub proof fn law_no_false_positives(dictionary: Set<Seq<char>>, available: Seq<char>, w: Seq<char>)
    requires
        subset_anagrams(dictionary, available).contains(w),
    ensures
        dictionary.contains(w),
        reported(dictionary, w),
{
}

/// Asking the same query twice of the same dictionary gives the same words:
/// a query depends on nothing but the dictionary and the query.
pub proof fn law_query_repeatable(
    dictionary: Set<Seq<char>>,
    available: Seq<char>,
    first: Set<Seq<char>>,
    second: Set<Seq<char>>,
)
    requires
        first == subset_anagrams(dictionary, available),
        second == subset_anagrams(dictionary, available),
    ensures
        first == second,
{
}

} // verus!
