use tag_normalizer::normalize::{concat_lines, filter_tags, format_output, normalize_content};
use tag_normalizer::record::{find_delimiter, split_content};
use tag_normalizer::text::{chars_of, contains_chars, is_white_space, trim_bounds};

fn allow_list() -> Vec<&'static str> {
    vec!["feral", "weasel", "photography \\(artwork\\)"]
}

#[test]
fn scenario_a_split() {
    let (tags, sentence) = split_content("feral,cat,weasel,outside., A feral cat sits outside.");
    assert_eq!(tags, vec!["feral", "cat", "weasel", "outside"]);
    assert_eq!(sentence, "A feral cat sits outside.");
}

#[test]
fn scenario_a_filter() {
    let tags = vec!["feral", "cat", "weasel", "outside"];
    let kept = filter_tags(&tags, &allow_list(), "A feral cat sits outside.");
    assert_eq!(kept, vec!["feral", "cat", "outside"]);
}

#[test]
fn scenario_a_output() {
    let out = normalize_content(
        &allow_list(),
        "feral,cat,weasel,outside., A feral cat sits outside.",
    );
    assert_eq!(
        out,
        "feral, weasel, photography \\(artwork\\) ||| feral, cat, outside, A feral cat sits outside."
    );
}

#[test]
fn scenario_b_no_delimiter() {
    let (tags, sentence) = split_content("a,b,c");
    assert_eq!(tags, vec!["a", "b", "c"]);
    assert_eq!(sentence, "");
    let out = normalize_content(&allow_list(), "a,b,c");
    assert_eq!(out, "feral, weasel, photography \\(artwork\\) ||| a, b, c, ");
    assert!(out.ends_with(", "));
}

#[test]
fn scenario_c_empty_content() {
    let (tags, sentence) = split_content("");
    assert_eq!(tags, vec![""]);
    assert_eq!(sentence, "");
    let out = normalize_content(&allow_list(), "");
    assert_eq!(out, "feral, weasel, photography \\(artwork\\) ||| , ");
}

#[test]
fn empty_allow_list_and_empty_content() {
    assert_eq!(normalize_content(&Vec::new(), ""), " ||| , ");
}

#[test]
fn processing_twice_differs() {
    let once = normalize_content(&allow_list(), "feral,cat,weasel,outside., A feral cat sits outside.");
    let twice = normalize_content(&allow_list(), &once);
    assert_ne!(once, twice);
}

#[test]
fn filter_drops_only_listed_tags_absent_from_sentence() {
    let tags = vec!["weasel", "dog", "feral", "weasel"];
    let kept = filter_tags(&tags, &allow_list(), "a dog");
    assert_eq!(kept, vec!["dog"]);
    let kept = filter_tags(&tags, &allow_list(), "the weasel");
    assert_eq!(kept, vec!["weasel", "dog", "weasel"]);
}

#[test]
fn filter_membership_is_exact_equality() {
    let tags = vec![" feral", "feral ", "Feral", "feral"];
    let kept = filter_tags(&tags, &allow_list(), "");
    assert_eq!(kept, vec![" feral", "feral ", "Feral"]);
}

#[test]
fn filter_keeps_order() {
    let tags = vec!["z", "weasel", "y", "feral", "x"];
    let kept = filter_tags(&tags, &allow_list(), "nothing here");
    assert_eq!(kept, vec!["z", "y", "x"]);
}

#[test]
fn filter_substring_not_token() {
    let tags = vec!["feral"];
    let kept = filter_tags(&tags, &allow_list(), "ferality");
    assert_eq!(kept, vec!["feral"]);
}

#[test]
fn filter_empty_tag_always_kept() {
    let kept = filter_tags(&vec![""], &vec![""], "");
    assert_eq!(kept, vec![""]);
}

#[test]
fn split_keeps_tag_whitespace() {
    let (tags, sentence) = split_content(" a , b,,c., \t  x y \n");
    assert_eq!(tags, vec![" a ", " b", "", "c"]);
    assert_eq!(sentence, "x y");
}

#[test]
fn split_sentence_is_whole_remainder() {
    let (tags, sentence) = split_content("a., b., c");
    assert_eq!(tags, vec!["a"]);
    assert_eq!(sentence, "b., c");
}

#[test]
fn split_trims_unicode_white_space() {
    let (tags, sentence) = split_content("t., \u{3000}\u{a0}caf\u{e9} \u{2003}");
    assert_eq!(tags, vec!["t"]);
    assert_eq!(sentence, "caf\u{e9}");
}

#[test]
fn split_delimiter_at_start_and_end() {
    let (tags, sentence) = split_content("., ");
    assert_eq!(tags, vec![""]);
    assert_eq!(sentence, "");
    let (tags, sentence) = split_content("a,b.,");
    assert_eq!(tags, vec!["a", "b.", ""]);
    assert_eq!(sentence, "");
}

#[test]
fn find_delimiter_positions() {
    assert_eq!(find_delimiter(&chars_of("ab., c")), Some(2));
    assert_eq!(find_delimiter(&chars_of("ab.,c")), None);
    assert_eq!(find_delimiter(&chars_of("., ., ")), Some(0));
    assert_eq!(find_delimiter(&chars_of("")), None);
}

#[test]
fn format_output_exact() {
    let out = format_output(&vec!["a", "b"], &vec!["c"], "s");
    assert_eq!(out, "a, b ||| c, s");
    let out = format_output(&vec![], &vec![], "");
    assert_eq!(out, " ||| , ");
}

#[test]
fn concat_lines_has_no_separator() {
    let lines = vec!["ab".to_string(), "".to_string(), "c d".to_string()];
    assert_eq!(concat_lines(&lines), "abc d");
    assert_eq!(concat_lines(&Vec::new()), "");
}

#[test]
fn substring_search() {
    assert!(contains_chars(&chars_of("a feral cat"), &chars_of("feral")));
    assert!(contains_chars(&chars_of("abc"), &chars_of("")));
    assert!(!contains_chars(&chars_of("ab"), &chars_of("abc")));
    assert!(!contains_chars(&chars_of("a b"), &chars_of("ab")));
}

#[test]
fn white_space_set() {
    for c in ['\t', '\n', '\u{b}', '\u{c}', '\r', ' ', '\u{85}', '\u{a0}', '\u{1680}', '\u{2000}',
        '\u{200a}', '\u{2028}', '\u{2029}', '\u{202f}', '\u{205f}', '\u{3000}'] {
        assert!(is_white_space(c));
        assert!(c.is_whitespace());
    }
    for c in ['a', '\u{180e}', '\u{200b}', '\u{feff}', '_', '\u{0}'] {
        assert!(!is_white_space(c));
        assert!(!c.is_whitespace());
    }
    for u in 0u32..0x3100 {
        if let Some(c) = char::from_u32(u) {
            assert_eq!(is_white_space(c), c.is_whitespace());
        }
    }
}

#[test]
fn trim_bounds_inner_range() {
    let c = chars_of("  ab  ");
    assert_eq!(trim_bounds(&c, 0, 6), (2, 4));
    assert_eq!(trim_bounds(&c, 0, 2), (2, 2));
    assert_eq!(trim_bounds(&c, 3, 5), (3, 4));
}
