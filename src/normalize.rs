use vstd::prelude::*;
use vstd::string::StringExecFns;

use crate::record::{
    delim_at, first_delim, lemma_first_delim, parsed_sentence, parsed_tags, split_commas,
    split_content, tag_section, views,
};
use crate::text::{chars_of, contains_chars, contains_sub, same_chars};

verus! {

broadcast use vstd::string::group_string_axioms;

/// Whether the tag `t` survives the filter: it is kept unless it is on the allow-list and
/// does not occur in the sentence.
pub open spec fn kept(allow: Seq<Seq<char>>, sentence: Seq<char>, t: Seq<char>) -> bool {
    !allow.contains(t) || contains_sub(sentence, t)
}

/// The tags that survive the filter, in their original order.
pub open spec fn filtered(tags: Seq<Seq<char>>, allow: Seq<Seq<char>>, sentence: Seq<char>) -> Seq<
    Seq<char>,
> {
    tags.filter(|t: Seq<char>| kept(allow, sentence, t))
}

/// The separator between joined items: `", "`.
pub open spec fn sep() -> Seq<char> {
    seq![',', ' ']
}

/// The separator between the allow-list and the tags: `" ||| "`.
pub open spec fn bar() -> Seq<char> {
    seq![' ', '|', '|', '|', ' ']
}

/// `parts` joined with `sep` between neighbours.
pub open spec fn join(parts: Seq<Seq<char>>, sep: Seq<char>) -> Seq<char>
    decreases parts.len(),
{
    if parts.len() == 0 {
        Seq::empty()
    } else if parts.len() == 1 {
        parts[0]
    } else {
        join(parts.drop_last(), sep) + sep + parts.last()
    }
}

/// The rewritten text: the allow-list joined by `", "`, then `" ||| "`, then the kept tags
/// joined by `", "`, then `", "`, then the sentence.
pub open spec fn formatted(allow: Seq<Seq<char>>, tags: Seq<Seq<char>>, sentence: Seq<char>) -> Seq<
    char,
> {
    join(allow, sep()) + bar() + join(tags, sep()) + sep() + sentence
}

/// What a file holding `content` holds once it has been normalized against `allow`.
pub open spec fn normalized(allow: Seq<Seq<char>>, content: Seq<char>) -> Seq<char> {
    let sentence = parsed_sentence(content);
    formatted(allow, filtered(parsed_tags(content), allow, sentence), sentence)
}

/// A tag is in the filtered list exactly when it is in the input list and is either off the
/// allow-list or a substring of the sentence; so it is dropped exactly when it is on the
/// allow-list and the sentence does not contain it.
pub proof fn lemma_filter_membership(
    tags: Seq<Seq<char>>,
    allow: Seq<Seq<char>>,
    sentence: Seq<char>,
    t: Seq<char>,
)
    ensures
        filtered(tags, allow, sentence).contains(t) <==> (tags.contains(t) && kept(
            allow,
            sentence,
            t,
        )),
        !filtered(tags, allow, sentence).contains(t) && tags.contains(t) <==> (tags.contains(t)
            && allow.contains(t) && !contains_sub(sentence, t)),
    decreases tags.len(),
{
    reveal(Seq::filter);
    if tags.len() > 0 {
        let init = tags.drop_last();
        lemma_filter_membership(init, allow, sentence, t);
        assert(tags =~= init.push(tags.last()));
        let sub = filtered(init, allow, sentence);
        if kept(allow, sentence, tags.last()) {
            assert(filtered(tags, allow, sentence) == sub.push(tags.last()));
            if sub.push(tags.last()).contains(t) {
                let k = choose|k: int| 0 <= k < sub.len() + 1 && sub.push(tags.last())[k] == t;
                if k < sub.len() {
                    assert(sub[k] == t);
                }
            }
            if sub.contains(t) {
                let k = choose|k: int| 0 <= k < sub.len() && sub[k] == t;
                assert(sub.push(tags.last())[k] == t);
            }
            assert(sub.push(tags.last())[sub.len() as int] == tags.last());
        }
        if tags.contains(t) {
            let k = choose|k: int| 0 <= k < tags.len() && tags[k] == t;
            if k < init.len() {
                assert(init[k] == t);
            }
        }
        if init.contains(t) {
            let k = choose|k: int| 0 <= k < init.len() && init[k] == t;
            assert(tags[k] == t);
        }
        assert(tags[tags.len() - 1] == tags.last());
    }
}

/// The filter keeps the relative order of the tags: the `k`-th kept tag is the tag at
/// position `idx[k]` of the input, and the positions increase strictly.
pub proof fn lemma_filter_keeps_order(
    tags: Seq<Seq<char>>,
    allow: Seq<Seq<char>>,
    sentence: Seq<char>,
) -> (idx: Seq<int>)
    ensures
        idx.len() == filtered(tags, allow, sentence).len(),
        forall|k: int|
            0 <= k < idx.len() ==> 0 <= #[trigger] idx[k] < tags.len()
                && filtered(tags, allow, sentence)[k] == tags[idx[k]],
        forall|k: int, l: int| 0 <= k < l < idx.len() ==> idx[k] < idx[l],
    decreases tags.len(),
{
    reveal(Seq::filter);
    if tags.len() == 0 {
        Seq::empty()
    } else {
        let init = tags.drop_last();
        let prev = lemma_filter_keeps_order(init, allow, sentence);
        let sub = filtered(init, allow, sentence);
        if kept(allow, sentence, tags.last()) {
            let idx = prev.push(tags.len() - 1);
            assert(filtered(tags, allow, sentence) == sub.push(tags.last()));
            assert forall|k: int| 0 <= k < idx.len() implies 0 <= #[trigger] idx[k] < tags.len()
                && filtered(tags, allow, sentence)[k] == tags[idx[k]] by {
                if k < prev.len() {
                    assert(idx[k] == prev[k]);
                    assert(init[prev[k]] == tags[prev[k]]);
                }
            }
            idx
        } else {
            assert forall|k: int| 0 <= k < prev.len() implies 0 <= #[trigger] prev[k] < tags.len()
                && filtered(tags, allow, sentence)[k] == tags[prev[k]] by {
                assert(init[prev[k]] == tags[prev[k]]);
            }
            prev
        }
    }
}

/// Normalizing is not idempotent, and nothing here makes it so: the rewritten text is parsed
/// again by the same rules, so its allow-list segment and ` ||| ` end up among the tags. With an
/// empty allow-list, empty content becomes ` ||| , `, and that becomes ` |||  ||| ,  , `.
pub proof fn lemma_normalize_not_idempotent()
    ensures
        exists|allow: Seq<Seq<char>>, content: Seq<char>|
            normalized(allow, normalized(allow, content)) != normalized(allow, content),
{
    reveal(Seq::filter);
    reveal_with_fuel(split_commas, 8);
    reveal_with_fuel(Seq::filter, 3);
    let allow = Seq::<Seq<char>>::empty();
    let empty = Seq::<char>::empty();
    assert(first_delim(empty) is None);
    assert(tag_section(empty) == empty);
    assert(parsed_tags(empty) =~= seq![empty]);
    assert(parsed_sentence(empty) == empty);
    let one = seq![empty];
    assert(one.drop_last() =~= Seq::<Seq<char>>::empty());
    assert(filtered(one, allow, empty) =~= one);
    assert(join(allow, sep()) =~= empty);
    let x = normalized(allow, empty);
    assert(x =~= bar() + sep());
    lemma_first_delim(x);
    assert(first_delim(x) is None) by {
        if first_delim(x) is Some {
            assert(delim_at(x, first_delim(x)->0));
        }
    }
    assert(tag_section(x) == x);
    let tags = seq![bar(), seq![' ']];
    assert(x.drop_last() =~= seq![' ', '|', '|', '|', ' ', ',']);
    assert(x.drop_last().drop_last() =~= bar());
    assert(bar().drop_last() =~= seq![' ', '|', '|', '|']);
    assert(bar().drop_last().drop_last() =~= seq![' ', '|', '|']);
    assert(bar().drop_last().drop_last().drop_last() =~= seq![' ', '|']);
    assert(bar().drop_last().drop_last().drop_last().drop_last() =~= seq![' ']);
    assert(seq![' '].drop_last() =~= empty);
    assert(split_commas(seq![' ']) =~= seq![seq![' ']]);
    assert(seq![' ', '|'].drop_last() =~= seq![' ']);
    assert(seq![' '].push('|') =~= seq![' ', '|']);
    assert(seq![seq![' ']].update(0, seq![' '].push('|')) =~= seq![seq![' ', '|']]);
    assert(split_commas(seq![' ', '|']) =~= seq![seq![' ', '|']]);
    assert(seq![' ', '|', '|'].drop_last() =~= seq![' ', '|']);
    assert(seq![' ', '|'].push('|') =~= seq![' ', '|', '|']);
    assert(seq![seq![' ', '|']].update(0, seq![' ', '|'].push('|')) =~= seq![seq![' ', '|', '|']]);
    assert(split_commas(seq![' ', '|', '|']) =~= seq![seq![' ', '|', '|']]);
    assert(seq![' ', '|', '|', '|'].drop_last() =~= seq![' ', '|', '|']);
    assert(seq![' ', '|', '|'].push('|') =~= seq![' ', '|', '|', '|']);
    assert(seq![seq![' ', '|', '|']].update(0, seq![' ', '|', '|'].push('|')) =~= seq![
        seq![' ', '|', '|', '|'],
    ]);
    assert(split_commas(seq![' ', '|', '|', '|']) =~= seq![seq![' ', '|', '|', '|']]);
    assert(seq![' ', '|', '|', '|'].push(' ') =~= bar());
    assert(seq![seq![' ', '|', '|', '|']].update(0, seq![' ', '|', '|', '|'].push(' ')) =~= seq![
        bar(),
    ]);
    assert(split_commas(bar()) =~= seq![bar()]);
    assert(split_commas(x.drop_last()) =~= seq![bar(), empty]);
    assert(split_commas(x) =~= tags);
    assert(parsed_sentence(x) == empty);
    assert(tags.drop_last() =~= seq![bar()]);
    assert(seq![bar()].drop_last() =~= Seq::<Seq<char>>::empty());
    assert(filtered(seq![bar()], allow, empty) =~= seq![bar()]);
    assert(filtered(tags, allow, empty) =~= tags);
    assert(join(seq![bar()], sep()) == bar());
    assert(tags.last() == seq![' ']);
    assert(join(tags, sep()) == join(seq![bar()], sep()) + sep() + seq![' ']);
    let y = normalized(allow, x);
    assert(y == join(allow, sep()) + bar() + join(tags, sep()) + sep() + empty);
    assert(y.len() == 15);
    assert(normalized(allow, normalized(allow, empty)) != normalized(allow, empty));
}

/// Whether `t` is one of the items of `list`.
pub fn in_list(list: &Vec<&str>, t: &Vec<char>) -> (r: bool)
    ensures
        r == views(list@).contains(t@),
{
    let mut i: usize = 0;
    while i < list.len()
        invariant
            i <= list@.len(),
            forall|j: int| 0 <= j < i ==> list@[j]@ != t@,
        decreases list.len() - i,
    {
        let item = chars_of(list[i]);
        if same_chars(&item, t) {
            assert(views(list@)[i as int] == t@);
            return true;
        }
        i = i + 1;
    }
    assert forall|j: int| 0 <= j < views(list@).len() implies views(list@)[j] != t@ by {
        assert(list@[j]@ != t@);
    }
    false
}

/// The tags that survive the filter against `allow` and `sentence`, in their original order.
pub fn filter_tags<'a>(tags: &Vec<&'a str>, allow: &Vec<&str>, sentence: &str) -> (r: Vec<&'a str>)
    ensures
        views(r@) == filtered(views(tags@), views(allow@), sentence@),
{
    let s = chars_of(sentence);
    let mut out: Vec<&'a str> = Vec::new();
    let mut i: usize = 0;
    assert(views(tags@).take(0) =~= Seq::<Seq<char>>::empty());
    assert(views(out@) =~= Seq::<Seq<char>>::empty());
    while i < tags.len()
        invariant
            i <= tags@.len(),
            s@ == sentence@,
            views(out@) == filtered(views(tags@).take(i as int), views(allow@), sentence@),
        decreases tags.len() - i,
    {
        proof {
            reveal(Seq::filter);
        }
        let ghost next = views(tags@).take(i + 1);
        assert(next.drop_last() =~= views(tags@).take(i as int));
        assert(next.last() == tags@[i as int]@);
        let t = chars_of(tags[i]);
        let keep = !in_list(allow, &t) || contains_chars(&s, &t);
        assert(keep == kept(views(allow@), sentence@, next.last()));
        if keep {
            let ghost before = out@;
            out.push(tags[i]);
            assert(views(out@) =~= views(before).push(tags@[i as int]@));
        }
        i = i + 1;
    }
    assert(views(tags@).take(tags@.len() as int) =~= views(tags@));
    out
}

/// Appends the items of `parts` to `out`, with `", "` between neighbours.
pub fn push_joined(out: &mut String, parts: &Vec<&str>)
    ensures
        final(out)@ == old(out)@ + join(views(parts@), sep()),
{
    let ghost start = out@;
    let mut i: usize = 0;
    assert(views(parts@).take(0) =~= Seq::<Seq<char>>::empty());
    assert(out@ =~= start + join(views(parts@).take(0), sep()));
    while i < parts.len()
        invariant
            i <= parts@.len(),
            out@ == start + join(views(parts@).take(i as int), sep()),
        decreases parts.len() - i,
    {
        let ghost done = views(parts@).take(i as int);
        let ghost next = views(parts@).take(i + 1);
        assert(next.drop_last() =~= done);
        if i > 0 {
            out.append(", ");
            proof {
                reveal_strlit(", ");
            }
            assert(", "@ =~= sep());
        } else {
            assert(next =~= seq![parts@[0]@]);
        }
        out.append(parts[i]);
        i = i + 1;
    }
    assert(views(parts@).take(parts@.len() as int) =~= views(parts@));
}

/// The character sequences of a list of owned strings.
pub open spec fn string_views(v: Seq<String>) -> Seq<Seq<char>> {
    v.map_values(|t: String| t@)
}

/// The lines of a file put back together with nothing between them.
pub fn concat_lines(lines: &Vec<String>) -> (r: String)
    ensures
        r@ == join(string_views(lines@), Seq::empty()),
{
    let mut out = String::new();
    let mut i: usize = 0;
    assert(string_views(lines@).take(0) =~= Seq::<Seq<char>>::empty());
    while i < lines.len()
        invariant
            i <= lines@.len(),
            out@ == join(string_views(lines@).take(i as int), Seq::empty()),
        decreases lines.len() - i,
    {
        let ghost done = string_views(lines@).take(i as int);
        let ghost next = string_views(lines@).take(i + 1);
        assert(next.drop_last() =~= done);
        if i == 0 {
            assert(next =~= seq![lines@[0]@]);
        }
        assert(join(done, Seq::empty()) + Seq::<char>::empty() =~= join(done, Seq::empty()));
        out.append(lines[i].as_str());
        i = i + 1;
    }
    assert(string_views(lines@).take(lines@.len() as int) =~= string_views(lines@));
    out
}

/// The rewritten text for the allow-list `allow`, the kept tags `tags` and the sentence.
pub fn format_output(allow: &Vec<&str>, tags: &Vec<&str>, sentence: &str) -> (r: String)
    ensures
        r@ == formatted(views(allow@), views(tags@), sentence@),
{
    proof {
        reveal_strlit(", ");
        reveal_strlit(" ||| ");
    }
    let mut out = String::new();
    push_joined(&mut out, allow);
    out.append(" ||| ");
    push_joined(&mut out, tags);
    out.append(", ");
    out.append(sentence);
    assert(" ||| "@ =~= bar());
    assert(", "@ =~= sep());
    assert(out@ =~= formatted(views(allow@), views(tags@), sentence@));
    out
}

/// The normalized form of `content`: the allow-list, then the tags that survive the filter,
/// then the sentence.
pub fn normalize_content(allow: &Vec<&str>, content: &str) -> (r: String)
    ensures
        r@ == normalized(views(allow@), content@),
{
    let (tags, sentence) = split_content(content);
    let kept_tags = filter_tags(&tags, allow, sentence);
    format_output(allow, &kept_tags, sentence)
}

} // verus!
