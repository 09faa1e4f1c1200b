use sms_classifier::score::{select_labels, Score};
use sms_classifier::vectorize::vectorize;

#[test]
fn score_counts_agreements() {
    let s = Score::of(&vec![0, 1, 1, 0], &vec![0, 0, 1, 1]);
    assert_eq!(s.correct, 2);
    assert_eq!(s.total, 4);
    let perfect = Score::of(&vec![1, 0], &vec![1, 0]);
    assert_eq!(perfect.correct, perfect.total);
    let none = Score::of(&vec![1, 0], &vec![0, 1]);
    assert_eq!(none.correct, 0);
}

#[test]
fn slicing_keeps_the_given_row_order() {
    let c = vectorize("spam\ta\nham\tb b\nham\tc").unwrap_or_else(|e| panic!("{:?}", e));
    let rows = vec![2, 0];
    let labels = select_labels(&c.labels, &rows);
    assert_eq!(labels, vec![1, 0]);
    let m = c.features.select_rows(&rows);
    assert_eq!(m.n_rows(), 2);
    assert_eq!(m.n_cols, 3);
    let cc = c.vocabulary.index_of("c").unwrap();
    let a = c.vocabulary.index_of("a").unwrap();
    assert_eq!(m.get(0, cc), 1);
    assert_eq!(m.get(1, a), 1);
    assert_eq!(m.get(0, a), 0);
}
