use vstd::prelude::*;

use crate::text::{chars_of, matches_at, same_chars};

verus! {

broadcast use {vstd::string::group_string_axioms, vstd::std_specs::vec::group_vec_axioms};

/// A directory tree as listed from disk: a file, or a directory with its entries.
#[derive(Debug)]
pub enum Entry {
    File(String),
    Dir(String, Vec<Entry>),
}

/// `s` ends with `suffix`.
pub open spec fn ends_with(s: Seq<char>, suffix: Seq<char>) -> bool {
    suffix.len() <= s.len() && s.skip(s.len() - suffix.len()) == suffix
}

/// `.txt`
pub open spec fn txt_suffix() -> Seq<char> {
    seq!['.', 't', 'x', 't']
}

/// `.git`
pub open spec fn git_name() -> Seq<char> {
    seq!['.', 'g', 'i', 't']
}

/// `sample-prompts.txt`
pub open spec fn sample_prompts() -> Seq<char> {
    seq!['s', 'a', 'm', 'p', 'l', 'e', '-', 'p', 'r', 'o', 'm', 'p', 't', 's', '.', 't', 'x', 't']
}

/// `-sample-prompts.txt`
pub open spec fn sample_prompts_suffix() -> Seq<char> {
    seq!['-'] + sample_prompts()
}

/// The file name has the extension `txt`: it ends with `.txt` and something precedes that dot.
pub open spec fn has_txt_extension(name: Seq<char>) -> bool {
    name.len() > 4 && ends_with(name, txt_suffix())
}

/// A file of this name is a candidate: its extension is `txt` and it is neither
/// `sample-prompts.txt` nor a name ending with `-sample-prompts.txt`.
pub open spec fn candidate_name(name: Seq<char>) -> bool {
    has_txt_extension(name) && name != sample_prompts() && !ends_with(name, sample_prompts_suffix())
}

/// A directory of this name is not entered.
pub open spec fn skipped_dir(name: Seq<char>) -> bool {
    name == git_name()
}

/// Following the child indices `idx` from `e` gives the path of names `p`, from `e`'s own
/// name down to a candidate file, through directories that are entered.
pub open spec fn reaches(e: Entry, idx: Seq<int>, p: Seq<Seq<char>>) -> bool
    decreases idx.len(),
{
    match e {
        Entry::File(name) => idx.len() == 0 && p == seq![name@] && candidate_name(name@),
        Entry::Dir(name, kids) => {
            &&& !skipped_dir(name@)
            &&& idx.len() >= 1
            &&& p.len() >= 1
            &&& p[0] == name@
            &&& 0 <= idx[0] < kids@.len()
            &&& reaches(kids@[idx[0]], idx.drop_first(), p.drop_first())
        },
    }
}

/// The path of names `p`, from `e`'s own name down to a file, leads to a candidate file
/// through directories that are entered.
pub open spec fn selected(e: Entry, p: Seq<Seq<char>>) -> bool {
    exists|idx: Seq<int>| reaches(e, idx, p)
}

/// What `selected` says of a file.
pub proof fn lemma_selected_file(name: String, p: Seq<Seq<char>>)
    ensures
        selected(Entry::File(name), p) == (p == seq![name@] && candidate_name(name@)),
{
    if p == seq![name@] && candidate_name(name@) {
        assert(reaches(Entry::File(name), Seq::empty(), p));
    }
}

/// What `selected` says of a directory.
pub proof fn lemma_selected_dir(name: String, kids: Vec<Entry>, p: Seq<Seq<char>>)
    ensures
        selected(Entry::Dir(name, kids), p) == (!skipped_dir(name@) && p.len() >= 1 && p[0]
            == name@ && exists|i: int|
            0 <= i < kids@.len() && #[trigger] selected(kids@[i], p.drop_first())),
{
    let e = Entry::Dir(name, kids);
    if selected(e, p) {
        let idx = choose|idx: Seq<int>| reaches(e, idx, p);
        assert(reaches(kids@[idx[0]], idx.drop_first(), p.drop_first()));
        assert(selected(kids@[idx[0]], p.drop_first()));
    }
    if !skipped_dir(name@) && p.len() >= 1 && p[0] == name@ && exists|i: int|
        0 <= i < kids@.len() && #[trigger] selected(kids@[i], p.drop_first()) {
        let i = choose|i: int| 0 <= i < kids@.len() && #[trigger] selected(kids@[i], p.drop_first());
        let rest = choose|idx: Seq<int>| reaches(kids@[i], idx, p.drop_first());
        let idx = seq![i] + rest;
        assert(idx.drop_first() =~= rest);
        assert(reaches(e, idx, p));
    }
}

/// The names along a path.
pub open spec fn path_view(v: Vec<String>) -> Seq<Seq<char>> {
    v@.map_values(|s: String| s@)
}

/// Whether `s` ends with `suffix`.
pub fn ends_with_chars(s: &Vec<char>, suffix: &Vec<char>) -> (r: bool)
    ensures
        r == ends_with(s@, suffix@),
{
    if suffix.len() > s.len() {
        return false;
    }
    let at = s.len() - suffix.len();
    let r = matches_at(s, suffix, at);
    assert(s@.subrange(at as int, at + suffix@.len()) =~= s@.skip(at as int));
    r
}

/// Whether a file of this name is a candidate for rewriting.
pub fn is_candidate_file(name: &str) -> (r: bool)
    ensures
        r == candidate_name(name@),
{
    proof {
        reveal_strlit(".txt");
        reveal_strlit("sample-prompts.txt");
        reveal_strlit("-sample-prompts.txt");
    }
    let c = chars_of(name);
    let txt = chars_of(".txt");
    let plain = chars_of("sample-prompts.txt");
    let suffixed = chars_of("-sample-prompts.txt");
    assert(txt@ =~= txt_suffix());
    assert(plain@ =~= sample_prompts());
    assert(suffixed@ =~= sample_prompts_suffix());
    c.len() > 4 && ends_with_chars(&c, &txt) && !same_chars(&c, &plain) && !ends_with_chars(
        &c,
        &suffixed,
    )
}

/// Whether a directory of this name is left out of the scan, with all beneath it.
pub fn is_excluded_dir(name: &str) -> (r: bool)
    ensures
        r == skipped_dir(name@),
{
    proof {
        reveal_strlit(".git");
    }
    let c = chars_of(name);
    let git = chars_of(".git");
    assert(git@ =~= git_name());
    same_chars(&c, &git)
}

/// `first` followed by the names of `rest`.
fn prefixed(first: &String, rest: &Vec<String>) -> (r: Vec<String>)
    ensures
        path_view(r) == seq![first@] + path_view(*rest),
{
    let mut r: Vec<String> = Vec::new();
    r.push(first.clone());
    let mut t: usize = 0;
    while t < rest.len()
        invariant
            t <= rest@.len(),
            path_view(r) == seq![first@] + path_view(*rest).take(t as int),
        decreases rest.len() - t,
    {
        let ghost before = r@;
        r.push(rest[t].clone());
        assert(path_view(r) =~= (seq![first@] + path_view(*rest).take(t as int)).push(rest@[t as int]@)) by {
            assert(r@ =~= before.push(rest@[t as int]));
        }
        assert(path_view(*rest).take(t + 1) =~= path_view(*rest).take(t as int).push(rest@[t as int]@));
        assert((seq![first@] + path_view(*rest).take(t as int)).push(rest@[t as int]@) =~= seq![first@] + path_view(*rest).take(t + 1));
        t = t + 1;
    }
    assert(path_view(*rest).take(rest@.len() as int) =~= path_view(*rest));
    r
}

/// Appends to `r`, for each path of `sub`, that path with `first` put in front.
fn push_prefixed(r: &mut Vec<Vec<String>>, first: &String, sub: &Vec<Vec<String>>)
    ensures
        final(r)@.len() == old(r)@.len() + sub@.len(),
        forall|k: int| 0 <= k < old(r)@.len() ==> #[trigger] final(r)@[k] == old(r)@[k],
        forall|t: int|
            0 <= t < sub@.len() ==> #[trigger] path_view(final(r)@[old(r)@.len() + t]) == seq![
                first@,
            ] + path_view(sub@[t]),
{
    let ghost start = r@;
    let mut m: usize = 0;
    while m < sub.len()
        invariant
            m <= sub@.len(),
            r@.len() == start.len() + m,
            forall|k: int| 0 <= k < start.len() ==> #[trigger] r@[k] == start[k],
            forall|t: int|
                0 <= t < m ==> #[trigger] path_view(r@[start.len() + t]) == seq![first@]
                    + path_view(sub@[t]),
        decreases sub.len() - m,
    {
        let path = prefixed(first, &sub[m]);
        r.push(path);
        m = m + 1;
    }
}

/// `r` holds exactly the paths, headed by `name`, to candidate files within `kids[0..i]`.
#[verifier::opaque]
spec fn holds_paths(name: Seq<char>, kids: Seq<Entry>, i: int, r: Seq<Vec<String>>) -> bool {
    &&& forall|k: int|
        0 <= k < r.len() ==> {
            let p = #[trigger] path_view(r[k]);
            &&& p.len() >= 1
            &&& p[0] == name
            &&& exists|j: int| 0 <= j < i && #[trigger] selected(kids[j], p.drop_first())
        }
    &&& forall|j: int, q: Seq<Seq<char>>|
        0 <= j < i && #[trigger] selected(kids[j], q) ==> exists|k: int|
            0 <= k < r.len() && #[trigger] path_view(r[k]) == seq![name] + q
}

proof fn lemma_holds_paths_start(name: Seq<char>, kids: Seq<Entry>)
    ensures
        holds_paths(name, kids, 0, Seq::empty()),
{
    reveal(holds_paths);
}

proof fn lemma_holds_paths_step(
    name: Seq<char>,
    kids: Seq<Entry>,
    i: int,
    before: Seq<Vec<String>>,
    sub: Seq<Vec<String>>,
    after: Seq<Vec<String>>,
)
    requires
        0 <= i < kids.len(),
        holds_paths(name, kids, i, before),
        after.len() == before.len() + sub.len(),
        forall|k: int| 0 <= k < before.len() ==> #[trigger] after[k] == before[k],
        forall|t: int|
            0 <= t < sub.len() ==> #[trigger] path_view(after[before.len() + t]) == seq![name]
                + path_view(sub[t]),
        forall|k: int| 0 <= k < sub.len() ==> selected(kids[i], #[trigger] path_view(sub[k])),
        forall|q: Seq<Seq<char>>|
            selected(kids[i], q) ==> exists|k: int| 0 <= k < sub.len() && #[trigger] path_view(sub[k]) == q,
    ensures
        holds_paths(name, kids, i + 1, after),
{
    reveal(holds_paths);
    assert forall|k: int| 0 <= k < after.len() implies {
        let p = #[trigger] path_view(after[k]);
        &&& p.len() >= 1
        &&& p[0] == name
        &&& exists|j: int| 0 <= j < i + 1 && #[trigger] selected(kids[j], p.drop_first())
    } by {
        if k < before.len() {
            assert(after[k] == before[k]);
        } else {
            let t = k - before.len();
            assert(path_view(after[before.len() + t]) == seq![name] + path_view(sub[t]));
            assert(path_view(after[k]).drop_first() =~= path_view(sub[t]));
            assert(selected(kids[i], path_view(after[k]).drop_first()));
        }
    }
    assert forall|j: int, q: Seq<Seq<char>>|
        0 <= j < i + 1 && #[trigger] selected(kids[j], q) implies exists|k: int|
        0 <= k < after.len() && #[trigger] path_view(after[k]) == seq![name] + q by {
        if j < i {
            let k = choose|k: int|
                0 <= k < before.len() && #[trigger] path_view(before[k]) == seq![name] + q;
            assert(after[k] == before[k]);
        } else {
            let t = choose|t: int| 0 <= t < sub.len() && #[trigger] path_view(sub[t]) == q;
            assert(path_view(after[before.len() + t]) == seq![name] + path_view(sub[t]));
        }
    }
}

proof fn lemma_holds_paths_done(name: String, kids: Vec<Entry>, r: Seq<Vec<String>>)
    requires
        !skipped_dir(name@),
        holds_paths(name@, kids@, kids@.len() as int, r),
    ensures
        forall|k: int|
            0 <= k < r.len() ==> selected(Entry::Dir(name, kids), #[trigger] path_view(r[k])),
        forall|p: Seq<Seq<char>>|
            selected(Entry::Dir(name, kids), p) ==> exists|k: int|
                0 <= k < r.len() && #[trigger] path_view(r[k]) == p,
{
    reveal(holds_paths);
    let e = Entry::Dir(name, kids);
    assert forall|k: int| 0 <= k < r.len() implies selected(e, #[trigger] path_view(r[k])) by {
        lemma_selected_dir(name, kids, path_view(r[k]));
    }
    assert forall|p: Seq<Seq<char>>| selected(e, p) implies exists|k: int|
        0 <= k < r.len() && #[trigger] path_view(r[k]) == p by {
        lemma_selected_dir(name, kids, p);
        let j = choose|j: int| 0 <= j < kids@.len() && #[trigger] selected(kids@[j], p.drop_first());
        assert(seq![name@] + p.drop_first() =~= p);
    }
}

/// Every path, from `e`'s own name down to a file, that leads to a candidate file.
fn collect(e: &Entry) -> (r: Vec<Vec<String>>)
    ensures
        forall|k: int| 0 <= k < r@.len() ==> selected(*e, #[trigger] path_view(r@[k])),
        forall|p: Seq<Seq<char>>|
            selected(*e, p) ==> exists|k: int| 0 <= k < r@.len() && #[trigger] path_view(r@[k]) == p,
    decreases e,
{
    let mut r: Vec<Vec<String>> = Vec::new();
    match e {
        Entry::File(name) => {
            proof {
                assert forall|p: Seq<Seq<char>>| #[trigger] selected(*e, p) == (p == seq![name@]
                    && candidate_name(name@)) by {
                    lemma_selected_file(*name, p);
                }
            }
            if is_candidate_file(name.as_str()) {
                let mut path: Vec<String> = Vec::new();
                path.push(name.clone());
                assert(path_view(path) =~= seq![name@]);
                r.push(path);
                assert(path_view(r@[0]) == seq![name@]);
            }
        },
        Entry::Dir(name, kids) => {
            if is_excluded_dir(name.as_str()) {
                proof {
                    assert forall|p: Seq<Seq<char>>| !selected(*e, p) by {
                        lemma_selected_dir(*name, *kids, p);
                    }
                }
                return r;
            }
            proof {
                lemma_holds_paths_start(name@, kids@);
            }
            let mut i: usize = 0;
            while i < kids.len()
                invariant
                    *e == Entry::Dir(*name, *kids),
                    !skipped_dir(name@),
                    i <= kids@.len(),
                    holds_paths(name@, kids@, i as int, r@),
                decreases kids.len() - i,
            {
                proof {
                    assert(decreases_to!(*e => e->Dir_1));
                    assert(decreases_to!(e->Dir_1 => e->Dir_1[i as int]));
                }
                let sub = collect(&kids[i]);
                let ghost before = r@;
                push_prefixed(&mut r, name, &sub);
                proof {
                    lemma_holds_paths_step(name@, kids@, i as int, before, sub@, r@);
                }
                i = i + 1;
            }
            proof {
                lemma_holds_paths_done(*name, *kids, r@);
            }
        },
    }
    r
}

/// The path of names `p`, from the root's own name down to a file, is one that a scan of
/// `root` selects; a root that is not a directory selects nothing.
pub open spec fn found(root: Entry, p: Seq<Seq<char>>) -> bool {
    root is Dir && selected(root, p)
}

/// The candidate files of the tree `root`, each as the names along its path from the root's
/// own name down to the file. Directories named `.git` are not entered.
pub fn get_txt_files(root: &Entry) -> (r: Vec<Vec<String>>)
    ensures
        forall|k: int| 0 <= k < r@.len() ==> found(*root, #[trigger] path_view(r@[k])),
        forall|p: Seq<Seq<char>>|
            found(*root, p) ==> exists|k: int| 0 <= k < r@.len() && #[trigger] path_view(r@[k]) == p,
{
    match root {
        Entry::File(_) => Vec::new(),
        Entry::Dir(_, _) => collect(root),
    }
}

proof fn lemma_reaches_shape(e: Entry, idx: Seq<int>, p: Seq<Seq<char>>)
    requires
        reaches(e, idx, p),
    ensures
        p.len() >= 1,
        candidate_name(p.last()),
        forall|j: int| 0 <= j < p.len() ==> p[j] != git_name(),
    decreases idx.len(),
{
    match e {
        Entry::File(name) => {
            assert(p[0] == p.last());
        },
        Entry::Dir(name, kids) => {
            let rest = p.drop_first();
            lemma_reaches_shape(kids@[idx[0]], idx.drop_first(), rest);
            assert(rest.last() == p.last());
            assert forall|j: int| 0 <= j < p.len() implies p[j] != git_name() by {
                if j > 0 {
                    assert(p[j] == rest[j - 1]);
                }
            }
        },
    }
}

/// A selected file never is `sample-prompts.txt` nor has a name ending with
/// `-sample-prompts.txt`, and no name along its path is `.git`, whatever the directory.
pub proof fn lemma_selected_exclusions(e: Entry, p: Seq<Seq<char>>)
    requires
        selected(e, p),
    ensures
        p.len() >= 1,
        p.last() != sample_prompts(),
        !ends_with(p.last(), sample_prompts_suffix()),
        forall|j: int| 0 <= j < p.len() ==> p[j] != git_name(),
{
    let idx = choose|idx: Seq<int>| reaches(e, idx, p);
    lemma_reaches_shape(e, idx, p);
}

/// A selected file always has the extension `txt`: its name ends with `.txt` after at least
/// one other character, so a file without an extension, or with another one, is never selected.
pub proof fn lemma_selected_extension(e: Entry, p: Seq<Seq<char>>)
    requires
        selected(e, p),
    ensures
        p.len() >= 1,
        has_txt_extension(p.last()),
{
    let idx = choose|idx: Seq<int>| reaches(e, idx, p);
    lemma_reaches_shape(e, idx, p);
}

} // verus!
