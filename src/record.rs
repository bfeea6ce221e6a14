use vstd::prelude::*;
use vstd::string::StrSliceExecFns;

use crate::text::{chars_of, trim_bounds, trimmed};

verus! {

broadcast use vstd::string::group_string_axioms;

/// The character sequences of a list of strings.
pub open spec fn views(v: Seq<&str>) -> Seq<Seq<char>> {
    v.map_values(|t: &str| t@)
}

/// The tag/sentence delimiter `., ` stands in `s` at position `i`.
pub open spec fn delim_at(s: Seq<char>, i: int) -> bool {
    0 <= i && i + 3 <= s.len() && s[i] == '.' && s[i + 1] == ',' && s[i + 2] == ' '
}

/// The position of the first delimiter in `s`, if there is one.
pub open spec fn first_delim(s: Seq<char>) -> Option<int>
    decreases s.len(),
{
    if s.len() < 3 {
        None
    } else if delim_at(s, 0) {
        Some(0)
    } else {
        match first_delim(s.drop_first()) {
            Some(k) => Some(k + 1),
            None => None,
        }
    }
}

/// `s` split at every comma, as `str::split(',')` does: `n` commas give `n + 1` pieces.
pub open spec fn split_commas(s: Seq<char>) -> Seq<Seq<char>>
    decreases s.len(),
{
    if s.len() == 0 {
        seq![Seq::empty()]
    } else {
        let init = split_commas(s.drop_last());
        if s.last() == ',' {
            init.push(Seq::empty())
        } else {
            init.update(init.len() - 1, init.last().push(s.last()))
        }
    }
}

/// The part of `content` that holds the tags: what comes before the first delimiter.
pub open spec fn tag_section(content: Seq<char>) -> Seq<char> {
    match first_delim(content) {
        Some(k) => content.take(k),
        None => content,
    }
}

/// The tags of `content`.
pub open spec fn parsed_tags(content: Seq<char>) -> Seq<Seq<char>> {
    split_commas(tag_section(content))
}

/// The sentence of `content`: all that follows the first delimiter, trimmed; empty without one.
pub open spec fn parsed_sentence(content: Seq<char>) -> Seq<char> {
    match first_delim(content) {
        Some(k) => trimmed(content.skip(k + 3)),
        None => Seq::empty(),
    }
}

/// `first_delim` finds a delimiter, and none stands before it; where it finds none, there is none.
pub proof fn lemma_first_delim(s: Seq<char>)
    ensures
        first_delim(s) is Some ==> delim_at(s, first_delim(s)->0),
        first_delim(s) is Some ==> forall|j: int| 0 <= j < first_delim(s)->0 ==> !delim_at(s, j),
        first_delim(s) is None ==> forall|j: int| !delim_at(s, j),
    decreases s.len(),
{
    if s.len() >= 3 && !delim_at(s, 0) {
        let t = s.drop_first();
        lemma_first_delim(t);
        assert forall|j: int| delim_at(s, j + 1) <==> delim_at(t, j) by {}
        assert forall|j: int| delim_at(s, j) implies j >= 1 && delim_at(t, j - 1) by {
            if delim_at(s, j) && j >= 1 {
                assert(delim_at(s, (j - 1) + 1));
            }
        }
    }
}

/// The position of the first delimiter in `c`.
pub fn find_delimiter(c: &Vec<char>) -> (r: Option<usize>)
    ensures
        match r {
            Some(k) => first_delim(c@) == Some(k as int),
            None => first_delim(c@) is None,
        },
{
    proof {
        lemma_first_delim(c@);
    }
    let n = c.len();
    let mut i: usize = 0;
    while i < n && n - i >= 3
        invariant
            n == c@.len(),
            forall|j: int| 0 <= j < i ==> !delim_at(c@, j),
        decreases n - i,
    {
        if c[i] == '.' && c[i + 1] == ',' && c[i + 2] == ' ' {
            assert(delim_at(c@, i as int));
            proof {
                lemma_first_delim(c@);
                match first_delim(c@) {
                    Some(k) => {
                        assert(delim_at(c@, k));
                        assert(!(k < i));
                        assert(!(k > i));
                    },
                    None => {},
                }
            }
            return Some(i);
        }
        i = i + 1;
    }
    assert forall|j: int| !delim_at(c@, j) by {
        if delim_at(c@, j) {
            assert(j < i);
        }
    }
    None
}

/// Splits `content` into its tags and its sentence. The tags are what precedes the first
/// `., ` split at every comma, untrimmed; the sentence is all that follows that delimiter,
/// with white space removed at both ends, or the empty string where there is no delimiter.
pub fn split_content(content: &str) -> (r: (Vec<&str>, &str))
    ensures
        views(r.0@) == parsed_tags(content@),
        r.1@ == parsed_sentence(content@),
{
    let c = chars_of(content);
    let found = find_delimiter(&c);
    proof {
        lemma_first_delim(c@);
    }
    let end: usize = match found {
        Some(k) => k,
        None => c.len(),
    };
    assert(tag_section(content@) == c@.take(end as int));
    let mut tags: Vec<&str> = Vec::new();
    let mut start: usize = 0;
    let mut i: usize = 0;
    assert(split_commas(c@.take(0)) == seq![Seq::<char>::empty()]);
    assert(views(tags@) =~= Seq::<Seq<char>>::empty());
    assert(c@.subrange(0, 0) =~= Seq::<char>::empty());
    assert(views(tags@).push(c@.subrange(0, 0)) =~= seq![Seq::<char>::empty()]);
    while i < end
        invariant
            c@ == content@,
            end <= c@.len(),
            start <= i <= end,
            split_commas(c@.take(i as int)) == views(tags@).push(c@.subrange(start as int, i as int)),
        decreases end - i,
    {
        let ghost before = c@.take(i as int);
        assert(c@.take(i + 1).drop_last() =~= before);
        if c[i] == ',' {
            let piece = content.substring_char(start, i);
            tags.push(piece);
            start = i + 1;
            assert(views(tags@) =~= views(tags@.drop_last()).push(piece@));
            assert(c@.subrange(start as int, i + 1) =~= Seq::<char>::empty());
        } else {
            assert(c@.subrange(start as int, i + 1) =~= c@.subrange(start as int, i as int).push(
                c@[i as int],
            ));
        }
        i = i + 1;
    }
    let last = content.substring_char(start, end);
    let ghost old_tags = tags@;
    tags.push(last);
    assert(views(tags@) =~= views(old_tags).push(last@));
    assert(c@.take(end as int) =~= tag_section(content@));
    let sentence: &str = match found {
        Some(k) => {
            let (a, b) = trim_bounds(&c, k + 3, c.len());
            assert(c@.subrange(k + 3, c@.len() as int) =~= content@.skip(k + 3));
            content.substring_char(a, b)
        },
        None => content.substring_char(0, 0),
    };
    assert(found is None ==> sentence@ =~= parsed_sentence(content@));
    (tags, sentence)
}

} // verus!
