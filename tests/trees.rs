use constituency::annotated::{annotate, node_total, prompt_for, AnnotatedConstituent};
use constituency::constituent::{leaves_of, Constituent};
use constituency::mark::{decode_mark, ConsistencyError, DecodeError, Label, Mark};
use constituency::merge::select_and_merge;
use constituency::text::{is_white_space, parse_positive, split_runs, Separator};

fn the_cat_sat() -> Constituent<'static> {
    let mut row = leaves_of("the cat sat");
    select_and_merge(&mut row, 1, 2).unwrap();
    select_and_merge(&mut row, 1, 2).unwrap();
    row.remove(0)
}

#[test]
fn words_are_split_on_any_white_space() {
    let row = leaves_of("  the\tcat\u{3000}sat \n");
    assert_eq!(
        row,
        vec![Constituent::Word("the"), Constituent::Word("cat"), Constituent::Word("sat")]
    );
    assert!(leaves_of(" \t ").is_empty());
    assert!(is_white_space('\u{85}'));
    assert!(!is_white_space('x'));
    assert_eq!(split_runs("a1b22", Separator::NonNumeric), vec!["1", "22"]);
}

#[test]
fn positive_numbers_are_read_in_decimal() {
    assert_eq!(parse_positive("42"), Some(42));
    assert_eq!(parse_positive("0"), None);
    assert_eq!(parse_positive("4a"), None);
    assert_eq!(parse_positive(""), None);
}

#[test]
fn display_of_a_word_is_the_word() {
    assert_eq!(Constituent::Word("cat").display(), "cat");
    let p = Constituent::Pair(Box::new(Constituent::Word("a")), Box::new(Constituent::Word("b")));
    assert_eq!(p.display(), "[a] [b]");
}

#[test]
fn prompts_come_in_post_order() {
    let tree = the_cat_sat();
    let total = node_total(&tree);
    assert_eq!(total, 5);
    let answers = ["D", "N", "NP", "V", "S"];
    let mut marks: Vec<String> = Vec::new();
    let mut prompts = Vec::new();
    while marks.len() < total {
        prompts.push(prompt_for(&tree, &marks));
        marks.push(answers[marks.len()].to_string());
    }
    assert_eq!(
        prompts,
        vec![
            "[? the]",
            "[? cat]",
            "[? [D the] [N cat]]",
            "[? sat]",
            "[? [NP [D the] [N cat]] [V sat]]",
        ]
    );
    let annotated = annotate(tree, marks);
    assert_eq!(annotated.display(), "[S [NP [D the] [N cat]] [V sat]]");
    assert_eq!(annotated.mark(), "S");
}

#[test]
fn annotation_keeps_the_shape() {
    let tree = the_cat_sat();
    let marks: Vec<String> = ["a", "b", "c", "d", "e"].iter().map(|s| s.to_string()).collect();
    let annotated = annotate(tree, marks);
    let expected = AnnotatedConstituent::APair(
        "e".to_string(),
        Box::new(AnnotatedConstituent::APair(
            "c".to_string(),
            Box::new(AnnotatedConstituent::AWord("a".to_string(), "the")),
            Box::new(AnnotatedConstituent::AWord("b".to_string(), "cat")),
        )),
        Box::new(AnnotatedConstituent::AWord("d".to_string(), "sat")),
    );
    assert_eq!(annotated, expected);
}

#[test]
fn raw_marks_decode_by_suffix() {
    assert_eq!(decode_mark("NP"), Ok(Mark::Phrase('N')));
    assert_eq!(decode_mark("N"), Ok(Mark::Bare('N')));
    assert_eq!(decode_mark("N'"), Ok(Mark::Bar('N')));
    assert_eq!(decode_mark("N!"), Err(DecodeError::BadSuffix));
    assert_eq!(decode_mark(""), Err(DecodeError::Empty));
    assert_eq!(decode_mark("NPP"), Err(DecodeError::BadSuffix));
}

#[test]
fn structured_marks_show_their_level() {
    assert_eq!(Mark::Phrase('N').label(), "NP");
    assert_eq!(Mark::Bar('V').label(), "V'");
    assert_eq!(Mark::Bare('D').label(), "D");
    assert_eq!(Mark::Bar('V').category(), 'V');
}

#[test]
fn leaf_normalization_gives_the_bare_head() {
    for m in [Mark::Phrase('N'), Mark::Bar('N'), Mark::Bare('N')] {
        let once = m.normalize_leaf();
        assert_eq!(once, Mark::Bare('N'));
        assert_eq!(once.normalize_leaf(), once);
    }
}

#[test]
fn projection_is_checked_against_the_head() {
    assert_eq!(Mark::Phrase('N').check_projection(&Mark::Bare('N')), Ok(()));
    assert_eq!(Mark::Bar('N').check_projection(&Mark::Bar('N')), Ok(()));
    assert_eq!(
        Mark::Bare('N').check_projection(&Mark::Bare('N')),
        Err(ConsistencyError::BarePair)
    );
    assert_eq!(
        Mark::Phrase('V').check_projection(&Mark::Bare('N')),
        Err(ConsistencyError::CategoryMismatch)
    );
}

#[test]
fn tree_marks_are_normalized() {
    let tree = the_cat_sat();
    let marks = vec![Mark::Phrase('D'), Mark::Bar('N'), Mark::Phrase('N'), Mark::Bare('V'), Mark::Phrase('V')];
    let fixed = annotate(tree, marks).normalize_marks().unwrap();
    assert_eq!(fixed.display(), "[VP [NP [D the] [N cat]] [V sat]]");

    let tree = the_cat_sat();
    let marks = vec![Mark::Bare('D'), Mark::Bare('N'), Mark::Bare('N'), Mark::Bare('V'), Mark::Phrase('V')];
    assert_eq!(annotate(tree, marks).normalize_marks(), Err(ConsistencyError::BarePair));
}

#[test]
fn trees_are_written_for_qtree() {
    let tree = the_cat_sat();
    let marks: Vec<String> = ["D", "N", "NP", "V", "S"].iter().map(|s| s.to_string()).collect();
    let annotated = annotate(tree, marks);
    assert_eq!(annotated.qtree_text(), "[.S [.NP [.D\\\\the ] [.N\\\\cat ] ] [.V\\\\sat ] ]");
    let doc = annotated.latex_document();
    assert!(doc.starts_with("\\documentclass[12pt, margin=5mm]{standalone}\n"));
    assert!(doc.contains("\\begin{document}\n\n\\Tree [.S [.NP"));
    assert!(doc.ends_with(" ]\n\n\\end{document}\n"));
}

#[test]
fn different_shapes_show_differently() {
    let left = Constituent::Pair(
        Box::new(Constituent::Pair(Box::new(Constituent::Word("a")), Box::new(Constituent::Word("b")))),
        Box::new(Constituent::Word("c")),
    );
    let right = Constituent::Pair(
        Box::new(Constituent::Word("a")),
        Box::new(Constituent::Pair(Box::new(Constituent::Word("b")), Box::new(Constituent::Word("c")))),
    );
    assert_eq!(left.display(), "[[a] [b]] [c]");
    assert_eq!(right.display(), "[a] [[b] [c]]");
    assert_ne!(left.display(), right.display());
}

#[test]
fn a_word_alone_is_one_prompt() {
    let tree = Constituent::Word("hi");
    assert_eq!(node_total(&tree), 1);
    let none: Vec<Mark> = Vec::new();
    assert_eq!(prompt_for(&tree, &none), "[? hi]");
    let annotated = annotate(tree, vec![Mark::Phrase('I')]);
    assert_eq!(*annotated.mark(), Mark::Phrase('I'));
    assert_eq!(annotated.display(), "[IP hi]");
    let fixed = annotated.normalize_marks().unwrap();
    assert_eq!(fixed, AnnotatedConstituent::AWord(Mark::Bare('I'), "hi"));
}
