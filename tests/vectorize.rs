use sms_classifier::error::PipelineError;
use sms_classifier::vectorize::{vectorize, Corpus};

fn corpus(text: &str) -> Corpus {
    match vectorize(text) {
        Ok(c) => c,
        Err(e) => panic!("unexpected error: {:?}", e),
    }
}

#[test]
fn labels_follow_line_order() {
    let c = corpus("spam\thi there\nham\thello world");
    assert_eq!(c.labels, vec![0u8, 1u8]);
    assert_eq!(c.features.n_rows(), 2);
}

#[test]
fn label_vector_has_one_binary_entry_per_line() {
    let c = corpus("ham\ta\nham\tb\nspam\tc\nham\td\nspam\te");
    assert_eq!(c.labels.len(), 5);
    assert!(c.labels.iter().all(|&l| l == 0 || l == 1));
    assert_eq!(c.labels, vec![1u8, 1, 0, 1, 0]);
}

#[test]
fn duplicate_tokens_accumulate() {
    let c = corpus("spam\ta b a\nham\tb c");
    assert_eq!(c.vocabulary.len(), 3);
    assert_eq!(c.features.n_cols, 3);
    let a = c.vocabulary.index_of("a").unwrap();
    let b = c.vocabulary.index_of("b").unwrap();
    let cc = c.vocabulary.index_of("c").unwrap();
    assert_eq!((a, b, cc), (0, 1, 2));
    assert_eq!(c.features.get(0, a), 2);
    assert_eq!(c.features.get(0, b), 1);
    assert_eq!(c.features.get(0, cc), 0);
    assert_eq!(c.features.get(1, a), 0);
    assert_eq!(c.features.get(1, b), 1);
    assert_eq!(c.features.get(1, cc), 1);
    assert_eq!(c.features.nnz(), 4);
    assert_eq!(c.vocabulary.index_of("d"), None);
}

#[test]
fn missing_tab_is_format_error() {
    match vectorize("spam hello") {
        Err(PipelineError::Format { line }) => assert_eq!(line, 0),
        other => panic!("expected a format error, got {:?}", other.err()),
    }
}

#[test]
fn unknown_label_is_invalid_label() {
    match vectorize("ham\tfine\nunknown\thello") {
        Err(PipelineError::InvalidLabel { line, label }) => {
            assert_eq!(line, 1);
            assert_eq!(label, "unknown");
        }
        other => panic!("expected an invalid label, got {:?}", other.err()),
    }
}

#[test]
fn first_bad_line_is_reported() {
    match vectorize("ham\tok\nno tab here\nbogus\tx") {
        Err(PipelineError::Format { line }) => assert_eq!(line, 1),
        other => panic!("expected a format error, got {:?}", other.err()),
    }
}

#[test]
fn labels_are_case_sensitive() {
    match vectorize("Spam\tx") {
        Err(PipelineError::InvalidLabel { line, label }) => {
            assert_eq!(line, 0);
            assert_eq!(label, "Spam");
        }
        other => panic!("expected an invalid label, got {:?}", other.err()),
    }
}

#[test]
fn empty_text_gives_empty_corpus() {
    let c = corpus("");
    assert_eq!(c.features.n_rows(), 0);
    assert_eq!(c.features.n_cols, 0);
    assert!(c.labels.is_empty());
}

#[test]
fn final_newline_and_crlf_are_line_endings() {
    let c = corpus("spam\tx y\r\nham\ty\n");
    assert_eq!(c.labels, vec![0u8, 1u8]);
    assert_eq!(c.vocabulary.len(), 2);
}

#[test]
fn empty_message_gives_zero_row() {
    let c = corpus("ham\t\nspam\tw");
    assert_eq!(c.features.rows[0].len(), 0);
    let w = c.vocabulary.index_of("w").unwrap();
    assert_eq!(c.features.get(0, w), 0);
    assert_eq!(c.features.get(1, w), 1);
}

#[test]
fn tokens_split_on_whitespace_runs() {
    let c = corpus("ham\t  Hi\t hi \u{3000}HI  ");
    assert_eq!(c.vocabulary.len(), 3);
    assert!(c.vocabulary.index_of("Hi").is_some());
    assert!(c.vocabulary.index_of("hi").is_some());
    assert!(c.vocabulary.index_of("HI").is_some());
}

#[test]
fn split_is_at_first_tab_only() {
    let c = corpus("spam\ta\tb");
    assert_eq!(c.vocabulary.len(), 2);
    assert_eq!(c.labels, vec![0u8]);
}

#[test]
fn vectorizing_twice_gives_the_same_corpus() {
    let text = "spam\twin cash now\nham\tsee you now\nham\tcash";
    let c1 = corpus(text);
    let c2 = corpus(text);
    assert_eq!(c1.vocabulary.tokens, c2.vocabulary.tokens);
    assert_eq!(c1.features.rows, c2.features.rows);
    assert_eq!(c1.labels, c2.labels);
}
