use vstd::prelude::*;

use crate::budget::{
    extensions, extensions_through, lemma_anagrams_extend_empty, lemma_empty_fits,
    lemma_extensions_missing, lemma_extensions_step, subset_anagrams,
};
use crate::text::{chars_of, pop_char, push_char};
use crate::word_set::{lemma_views_push, views_of, WordSet};

verus! {

/// A dictionary that can list the words spelled from a subset of given
/// characters.
pub trait AnagramSolver {
    /// The words the solver holds.
    spec fn dictionary(&self) -> Set<Seq<char>>;

    /// Whether the solver's own structure is sound.
    spec fn ready(&self) -> bool;

    /// The words of the dictionary that use each character no more often than
    /// `ch` holds it.
    fn find_all_anagrams(&self, ch: &str) -> (r: WordSet)
        requires
            self.ready(),
        ensures
            r@ == subset_anagrams(self.dictionary(), ch@),
    ;

    /// Adds every word of `dictionary`.
    fn add_dictionary(&mut self, dictionary: &Vec<String>)
        requires
            old(self).ready(),
        ensures
            final(self).ready(),
            final(self).dictionary() == old(self).dictionary() + views_of(dictionary@).to_set(),
    ;
}

/// The plain set of words answers by trying every arrangement of every subset
/// of the query's characters against the set; slow, but simple enough to
/// compare the tree against.
impl AnagramSolver for WordSet {
    open spec fn dictionary(&self) -> Set<Seq<char>> {
        self@
    }

    open spec fn ready(&self) -> bool {
        true
    }

    fn find_all_anagrams(&self, ch: &str) -> (r: WordSet) {
        let mut anagrams = WordSet::new();
        let mut combination = String::new();
        let mut unused = chars_of(ch);
        find_all_anagrams_recurse(self, &mut combination, &mut unused, &mut anagrams);
        proof {
            lemma_anagrams_extend_empty(self@, ch@);
            assert(anagrams@ =~= subset_anagrams(self@, ch@));
        }
        anagrams
    }

    fn add_dictionary(&mut self, dictionary: &Vec<String>) {
        let ghost start = self@;
        let mut i: usize = 0;
        while i < dictionary.len()
            invariant
                i <= dictionary@.len(),
                self@ == start + views_of(dictionary@.take(i as int)).to_set(),
            decreases dictionary@.len() - i,
        {
            self.insert(dictionary[i].as_str());
            proof {
                assert(dictionary@.take(i + 1) =~= dictionary@.take(i as int).push(dictionary@[i as int]));
                lemma_views_push(dictionary@.take(i as int), dictionary@[i as int]);
            }
            i = i + 1;
        }
        assert(dictionary@.take(i as int) =~= dictionary@);
    }
}

/// Adds to `anagrams` every word of `dictionary` that `char_combination`
/// followed by some arrangement of some of the `unused` characters spells.
/// Each step moves one unused character to the end of the combination, and
/// puts it back afterwards.
fn find_all_anagrams_recurse(
    dictionary: &WordSet,
    char_combination: &mut String,
    unused: &mut Vec<char>,
    anagrams: &mut WordSet,
)
    ensures
        final(char_combination)@ == old(char_combination)@,
        final(unused)@ == old(unused)@,
        final(anagrams)@ == old(anagrams)@ + extensions(
            dictionary@,
            old(char_combination)@,
            old(unused)@,
        ),
    decreases old(unused)@.len(),
{
    let ghost p = char_combination@;
    let ghost u = unused@;
    let ghost d = dictionary@;
    let ghost a0 = anagrams@;
    let ghost here = if d.contains(p) {
        set![p]
    } else {
        Set::<Seq<char>>::empty()
    };
    if dictionary.contains(char_combination.as_str()) {
        anagrams.insert(char_combination.as_str());
    }
    assert(anagrams@ =~= a0 + here);
    let ghost mut firsts: Set<char> = Set::empty();
    let mut i: usize = 0;
    assert(extensions_through(d, p, u, firsts) =~= Set::<Seq<char>>::empty());
    while i < unused.len()
        invariant
            d == dictionary@,
            char_combination@ == p,
            unused@ == u,
            u == old(unused)@,
            i <= u.len(),
            forall|ch: char| firsts.contains(ch) <==> exists|j: int| 0 <= j < i && #[trigger] u[j] == ch,
            anagrams@ == a0 + here + extensions_through(d, p, u, firsts),
        decreases u.len() - i,
    {
        let ghost before = anagrams@;
        let c = unused.remove(i);
        push_char(char_combination, c);
        find_all_anagrams_recurse(dictionary, char_combination, unused, anagrams);
        pop_char(char_combination);
        unused.insert(i, c);
        proof {
            lemma_extensions_step(d, p, c, u, i as int);
            assert(u.remove(i as int).insert(i as int, c) =~= u);
            assert(p.push(c).drop_last() =~= p);
            assert(anagrams@ == before + extensions_through(d, p, u, set![c]));
            assert(extensions_through(d, p, u, firsts) + extensions_through(d, p, u, set![c])
                =~= extensions_through(d, p, u, firsts.insert(c)));
            firsts = firsts.insert(c);
            assert(u[i as int] == c);
        }
        i = i + 1;
    }
    proof {
        assert forall|x: Seq<char>| #[trigger] extensions(d, p, u).contains(x)
            implies (here + extensions_through(d, p, u, firsts)).contains(x) by {
            if x.len() == p.len() {
                assert(x =~= p);
            } else {
                let c = x[p.len() as int];
                if !u.contains(c) {
                    lemma_extensions_missing(d, p, c, u);
                    assert(extensions_through(d, p, u, set![c]).contains(x));
                }
            }
        }
        if d.contains(p) {
            assert(p.skip(p.len() as int) =~= Seq::<char>::empty());
            lemma_empty_fits(u);
            assert(p.is_prefix_of(p));
        }
        assert(here + extensions_through(d, p, u, firsts) =~= extensions(d, p, u));
    }
}

} // verus!
