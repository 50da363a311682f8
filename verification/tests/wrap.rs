use tdo_export::errors::ExportError;
use tdo_export::wrap::wrap;

#[test]
fn wrap_empty_text_gives_one_empty_line() {
    assert_eq!(wrap("", 1).unwrap(), vec![String::new()]);
    assert_eq!(wrap("", 7).unwrap(), vec![String::new()]);
    assert_eq!(wrap("", 1000).unwrap(), vec![String::new()]);
}

#[test]
fn wrap_whitespace_only_gives_one_empty_line() {
    assert_eq!(wrap("  \t \n ", 5).unwrap(), vec![String::new()]);
}

#[test]
fn wrap_zero_width_is_invalid() {
    assert_eq!(wrap("anything", 0), Err(ExportError::InvalidWidth));
    assert_eq!(wrap("", 0), Err(ExportError::InvalidWidth));
}

#[test]
fn wrap_hard_splits_overlong_word() {
    assert_eq!(
        wrap("supercalifragilisticexpialidocious", 10).unwrap(),
        vec!["supercalif", "ragilistic", "expialidoc", "ious"]
    );
}

#[test]
fn wrap_word_of_exact_width_is_one_line() {
    assert_eq!(wrap("abcde", 5).unwrap(), vec!["abcde"]);
}

#[test]
fn wrap_packs_greedily() {
    assert_eq!(
        wrap("the quick brown fox jumps over the lazy dog", 10).unwrap(),
        vec!["the quick", "brown fox", "jumps", "over the", "lazy dog"]
    );
}

#[test]
fn wrap_collapses_whitespace_runs() {
    assert_eq!(wrap("a\t b\n\n c", 10).unwrap(), vec!["a b c"]);
}

#[test]
fn wrap_lines_never_exceed_width() {
    let texts = [
        "the quick brown fox jumps over the lazy dog",
        "supercalifragilisticexpialidocious and more",
        "a bb ccc dddd eeeee ffffff",
        "x",
        "",
    ];
    for text in texts.iter() {
        for width in 1..25usize {
            let lines = wrap(text, width).unwrap();
            assert!(!lines.is_empty());
            for line in lines.iter() {
                assert!(line.chars().count() <= width, "{:?} at width {}", line, width);
            }
        }
    }
}

#[test]
fn wrap_is_idempotent_on_rejoined_text() {
    let texts = [
        "the quick brown fox jumps over the lazy dog",
        "supercalifragilisticexpialidocious and a tail",
        "short",
        "",
        "one two three four five six seven eight nine ten",
    ];
    for text in texts.iter() {
        for width in 1..20usize {
            let lines = wrap(text, width).unwrap();
            let rejoined = lines.join(" ");
            assert_eq!(wrap(&rejoined, width).unwrap(), lines, "width {}", width);
        }
    }
}

#[test]
fn wrap_resumes_packing_after_hard_split() {
    // The four-character remainder of the split word opens the next line
    // and the following words pack onto it.
    assert_eq!(
        wrap("supercalifragilisticexpialidocious is fun", 10).unwrap(),
        vec!["supercalif", "ragilistic", "expialidoc", "ious is", "fun"]
    );
}
