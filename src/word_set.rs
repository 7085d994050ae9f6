use vstd::prelude::*;

verus! {

/// The characters of each string in `v`.
pub open spec fn views_of(v: Seq<String>) -> Seq<Seq<char>> {
    v.map_values(|s: String| s@)
}

/// Appending a string adds its characters to the set of words.
pub proof fn lemma_views_push(v: Seq<String>, s: String)
    ensures
        views_of(v.push(s)) == views_of(v).push(s@),
        views_of(v.push(s)).to_set() == views_of(v).to_set().insert(s@),
{
    let before = views_of(v);
    let after = views_of(v.push(s));
    assert(after =~= before.push(s@));
    assert forall|x: Seq<char>| after.contains(x) implies before.contains(x) || x == s@ by {
        let j = choose|j: int| 0 <= j < after.len() && after[j] == x;
        if j < before.len() {
            assert(before[j] == x);
        }
    }
    assert forall|x: Seq<char>| before.contains(x) implies after.contains(x) by {
        let j = choose|j: int| 0 <= j < before.len() && before[j] == x;
        assert(after[j] == x);
    }
    assert(after[after.len() - 1] == s@);
    assert(after.to_set() =~= before.to_set().insert(s@));
}

/// A set of words, held as a list of strings without repeats.
pub struct WordSet {
    words: Vec<String>,
}

impl View for WordSet {
    type V = Set<Seq<char>>;

    closed spec fn view(&self) -> Set<Seq<char>> {
        views_of(self.words@).to_set()
    }
}

impl WordSet {
    #[verifier::type_invariant]
    spec fn no_repeats(&self) -> bool {
        views_of(self.words@).no_duplicates()
    }

    pub fn new() -> (r: WordSet)
        ensures
            r@ == Set::<Seq<char>>::empty(),
    {
        let r = WordSet { words: Vec::new() };
        assert(views_of(r.words@).to_set() =~= Set::<Seq<char>>::empty());
        r
    }

    /// Adds `word` to the set.
    pub fn insert(&mut self, word: &str)
        ensures
            final(self)@ == old(self)@.insert(word@),
    {
        if !self.contains(word) {
            proof {
                use_type_invariant(&*self);
            }
            let ghost before = self.words@;
            // The list is taken out whole and put back, since the type
            // invariant rules out borrowing the field mutably.
            let mut taken = WordSet::new();
            std::mem::swap(self, &mut taken);
            let WordSet { mut words } = taken;
            let added = word.to_owned();
            proof {
                lemma_views_push(before, added);
            }
            words.push(added);
            *self = WordSet { words };
        } else {
            assert(old(self)@.insert(word@) =~= old(self)@);
        }
    }

    /// The number of words in the set.
    pub fn len(&self) -> (r: usize)
        ensures
            r == self@.len(),
    {
        proof {
            use_type_invariant(self);
            views_of(self.words@).unique_seq_to_set();
        }
        self.words.len()
    }

    /// Whether `word` is in the set.
    pub fn contains(&self, word: &str) -> (r: bool)
        ensures
            r == self@.contains(word@),
    {
        let target = word.to_owned();
        let mut i: usize = 0;
        while i < self.words.len()
            invariant
                i <= self.words@.len(),
                target@ == word@,
                forall|j: int| 0 <= j < i ==> self.words@[j]@ != word@,
            decreases self.words@.len() - i,
        {
            if self.words[i] == target {
                assert(views_of(self.words@)[i as int] == word@);
                return true;
            }
            i = i + 1;
        }
        assert(!views_of(self.words@).contains(word@)) by {
            if views_of(self.words@).contains(word@) {
                let j = choose|j: int| 0 <= j < self.words@.len() && views_of(self.words@)[j] == word@;
                assert(self.words@[j]@ == word@);
            }
        }
        false
    }

    /// The words, each once, in no particular order.
    pub fn as_slice(&self) -> (r: &[String])
        ensures
            views_of(r@).to_set() == self@,
            views_of(r@).no_duplicates(),
    {
        proof {
            use_type_invariant(self);
        }
        self.words.as_slice()
    }
}

} // verus!
