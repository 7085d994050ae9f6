use vstd::prelude::*;

use crate::word_set::views_of;

verus! {

/// The characters of `s`, in order.
pub fn chars_of(s: &str) -> (r: Vec<char>)
    ensures
        r@ == s@,
{
    broadcast use vstd::string::group_string_axioms;

    let mut out: Vec<char> = Vec::new();
    for c in iter: s.chars()
        invariant
            iter.seq() == s@,
            out@ == s@.take(iter.index() as int),
    {
        out.push(c);
    }
    out
}

/// `s` cut at every occurrence of `sep`: n separators give n + 1 pieces.
pub open spec fn split_on(s: Seq<char>, sep: char) -> Seq<Seq<char>>
    decreases s.len(),
{
    if s.len() == 0 {
        seq![Seq::empty()]
    } else {
        let rest = split_on(s.drop_last(), sep);
        if s.last() == sep {
            rest.push(Seq::empty())
        } else {
            rest.update(rest.len() - 1, rest.last().push(s.last()))
        }
    }
}

/// `line` without one carriage return at its end, if it has one.
pub open spec fn strip_cr(line: Seq<char>) -> Seq<char> {
    if line.len() > 0 && line.last() == '\r' {
        line.drop_last()
    } else {
        line
    }
}

/// The lines of `text`: the pieces between line feeds, where a line ended by
/// a line feed loses one carriage return before it; a last piece left empty,
/// by a final line feed or by an empty text, is no line.
pub open spec fn lines_of(text: Seq<char>) -> Seq<Seq<char>> {
    let pieces = split_on(text, '\n');
    let ended = pieces.take(pieces.len() - 1).map_values(|l: Seq<char>| strip_cr(l));
    if pieces.last().len() == 0 {
        ended
    } else {
        ended.push(pieces.last())
    }
}

/// The words of `lines`: each line cut at every space, in order. Two spaces in
/// a row, or an empty line, give an empty word.
pub open spec fn words_of_lines(lines: Seq<Seq<char>>) -> Seq<Seq<char>>
    decreases lines.len(),
{
    if lines.len() == 0 {
        Seq::empty()
    } else {
        words_of_lines(lines.drop_last()) + split_on(lines.last(), ' ')
    }
}

proof fn lemma_split_nonempty(s: Seq<char>, sep: char)
    ensures
        split_on(s, sep).len() >= 1,
    decreases s.len(),
{
    if s.len() > 0 {
        lemma_split_nonempty(s.drop_last(), sep);
    }
}

/// Cuts `s` at every occurrence of `sep`.
fn split_chars(s: &[char], sep: char) -> (r: Vec<Vec<char>>)
    ensures
        r@.map_values(|v: Vec<char>| v@) == split_on(s@, sep),
{
    let mut done: Vec<Vec<char>> = Vec::new();
    let mut current: Vec<char> = Vec::new();
    let mut i: usize = 0;
    assert(s@.take(0) =~= Seq::<char>::empty());
    assert(done@.map_values(|v: Vec<char>| v@).push(current@) =~= split_on(s@.take(0), sep));
    while i < s.len()
        invariant
            i <= s@.len(),
            done@.map_values(|v: Vec<char>| v@).push(current@) == split_on(s@.take(i as int), sep),
        decreases s@.len() - i,
    {
        let c = s[i];
        let ghost before = done@.map_values(|v: Vec<char>| v@);
        assert(s@.take(i + 1).drop_last() =~= s@.take(i as int));
        assert(s@.take(i + 1).last() == c);
        if c == sep {
            done.push(current);
            current = Vec::new();
            assert(done@.map_values(|v: Vec<char>| v@) =~= before.push(done@.last()@));
        } else {
            current.push(c);
        }
        assert(done@.map_values(|v: Vec<char>| v@).push(current@) =~= split_on(s@.take(i + 1), sep));
        i = i + 1;
    }
    assert(s@.take(i as int) =~= s@);
    done.push(current);
    assert(done@.map_values(|v: Vec<char>| v@) =~= split_on(s@, sep));
    done
}

/// A string of the characters of `v`.
fn string_of(v: &Vec<char>) -> (r: String)
    ensures
        r@ == v@,
{
    let mut out = String::new();
    let mut i: usize = 0;
    while i < v.len()
        invariant
            i <= v@.len(),
            out@ == v@.take(i as int),
        decreases v@.len() - i,
    {
        push_char(&mut out, v[i]);
        assert(v@.take(i + 1) =~= v@.take(i as int).push(v@[i as int]));
        i = i + 1;
    }
    assert(v@.take(i as int) =~= v@);
    out
}

/// Appends to `words` the pieces of `line` between spaces.
fn push_words_of_line(line: &[char], words: &mut Vec<String>)
    ensures
        views_of(final(words)@) == views_of(old(words)@) + split_on(line@, ' '),
{
    let pieces = split_chars(line, ' ');
    let ghost start = views_of(words@);
    let ghost target = split_on(line@, ' ');
    let mut k: usize = 0;
    assert(pieces@.map_values(|v: Vec<char>| v@).len() == pieces@.len());
    while k < pieces.len()
        invariant
            k <= pieces@.len(),
            pieces@.map_values(|v: Vec<char>| v@) == target,
            views_of(words@) == start + target.take(k as int),
        decreases pieces@.len() - k,
    {
        let ghost before = views_of(words@);
        let w = string_of(&pieces[k]);
        words.push(w);
        assert(target[k as int] == pieces@[k as int]@);
        assert(views_of(words@) =~= before.push(w@));
        assert(target.take(k + 1) =~= target.take(k as int).push(target[k as int]));
        k = k + 1;
    }
    assert(target.take(k as int) =~= target);
}

/// The words of a dictionary text: its lines, each cut at every space.
pub fn extract_words(file_contents: &str) -> (r: Vec<String>)
    ensures
        views_of(r@) == words_of_lines(lines_of(file_contents@)),
{
    let text = chars_of(file_contents);
    let pieces = split_chars(text.as_slice(), '\n');
    let ghost pv = pieces@.map_values(|v: Vec<char>| v@);
    let ghost lines = lines_of(file_contents@);
    proof {
        lemma_split_nonempty(file_contents@, '\n');
    }
    let last = pieces.len() - 1;
    let mut words: Vec<String> = Vec::new();
    let mut i: usize = 0;
    assert(views_of(words@) =~= words_of_lines(lines.take(0)));
    while i < last
        invariant
            last + 1 == pieces@.len(),
            pv == pieces@.map_values(|v: Vec<char>| v@),
            pv == split_on(file_contents@, '\n'),
            lines == lines_of(file_contents@),
            i <= last,
            views_of(words@) == words_of_lines(lines.take(i as int)),
        decreases last - i,
    {
        let piece = &pieces[i];
        let line: &[char] = if piece.len() > 0 && piece[piece.len() - 1] == '\r' {
            &piece.as_slice()[0..piece.len() - 1]
        } else {
            piece.as_slice()
        };
        push_words_of_line(line, &mut words);
        proof {
            assert(pv[i as int] == piece@);
            assert(line@ == strip_cr(piece@)) by {
                if piece@.len() > 0 && piece@.last() == '\r' {
                    assert(line@ =~= piece@.drop_last());
                }
            }
            assert(lines[i as int] == strip_cr(pv[i as int]));
            assert(lines.take(i + 1).drop_last() =~= lines.take(i as int));
        }
        i = i + 1;
    }
    if pieces[last].len() > 0 {
        push_words_of_line(pieces[last].as_slice(), &mut words);
        proof {
            assert(lines.take(last as int) =~= lines.drop_last());
            assert(lines.drop_last().push(lines.last()) =~= lines);
        }
    } else {
        assert(lines.take(last as int) =~= lines);
    }
    words
}

/// Relies on `String::push`, which appends `c` at the end of `s`.
#[verifier::external_body]
pub(crate) fn push_char(s: &mut String, c: char)
    ensures
        final(s)@ == old(s)@.push(c),
{
    s.push(c);
}

/// Relies on `String::pop`, which removes the last character of `s` and
/// returns it, or returns `None` and leaves `s` as it is when `s` is empty.
#[verifier::external_body]
pub(crate) fn pop_char(s: &mut String) -> (r: Option<char>)
    ensures
        old(s)@.len() == 0 ==> r == None::<char> && final(s)@ == old(s)@,
        old(s)@.len() > 0 ==> r == Some(old(s)@.last()) && final(s)@ == old(s)@.drop_last(),
{
    s.pop()
}

} // verus!
