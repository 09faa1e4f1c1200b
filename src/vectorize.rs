//! Turning a labeled corpus into a vocabulary, a sparse count matrix and a
//! label vector.
use vstd::prelude::*;
use vstd::string::*;
use crate::error::PipelineError;
use crate::matrix::{lemma_row_absent, lemma_row_update, row_value, row_wf, CountMatrix};
use crate::text::{chars_of, copy_range, find_tab, lines, lines_from, split_tokens, strip_cr, has_tab, label_part, message_part, tokens};

verus! {

/// Tokens of `toks` appended to `v` in order of first appearance, skipping
/// those already present.
pub open spec fn extend_vocab(v: Seq<Seq<char>>, toks: Seq<Seq<char>>) -> Seq<Seq<char>>
    decreases toks.len(),
{
    if toks.len() == 0 {
        v
    } else {
        let w = extend_vocab(v, toks.drop_last());
        if w.contains(toks.last()) { w } else { w.push(toks.last()) }
    }
}

/// Tokens of the messages of `ls`, each once, in order of first appearance.
pub open spec fn vocabulary_of(ls: Seq<Seq<char>>) -> Seq<Seq<char>>
    decreases ls.len(),
{
    if ls.len() == 0 {
        seq![]
    } else {
        extend_vocab(vocabulary_of(ls.drop_last()), tokens(message_part(ls.last())))
    }
}

/// How often `t` occurs in `toks`.
pub open spec fn count_of(toks: Seq<Seq<char>>, t: Seq<char>) -> nat
    decreases toks.len(),
{
    if toks.len() == 0 {
        0
    } else {
        count_of(toks.drop_last(), t) + if toks.last() == t { 1nat } else { 0nat }
    }
}

pub open spec fn spam_label() -> Seq<char> {
    seq!['s', 'p', 'a', 'm']
}

pub open spec fn ham_label() -> Seq<char> {
    seq!['h', 'a', 'm']
}

/// A line that has a tab and a known label.
pub open spec fn line_ok(l: Seq<char>) -> bool {
    has_tab(l) && (label_part(l) == spam_label() || label_part(l) == ham_label())
}

/// Numeric label of a line: 0 for spam, 1 for ham.
pub open spec fn label_value(l: Seq<char>) -> u8 {
    if label_part(l) == spam_label() { 0 } else { 1 }
}

/// The vocabulary: each token's column is its position.
pub struct Vocabulary {
    pub tokens: Vec<Vec<char>>,
}

impl View for Vocabulary {
    type V = Seq<Seq<char>>;

    open spec fn view(&self) -> Seq<Seq<char>> {
        self.tokens@.map_values(|t: Vec<char>| t@)
    }
}

/// A vectorized corpus: vocabulary, count matrix and labels, aligned by row.
pub struct Corpus {
    pub vocabulary: Vocabulary,
    pub features: CountMatrix,
    pub labels: Vec<u8>,
}

/// `c` is the vectorization of the lines `ls`.
pub open spec fn corpus_of(c: Corpus, ls: Seq<Seq<char>>) -> bool {
    let v = c.vocabulary@;
    &&& v == vocabulary_of(ls)
    &&& c.features.n_cols == v.len()
    &&& c.features.rows.len() == ls.len()
    &&& forall|i: int| 0 <= i < ls.len() ==> row_wf(#[trigger] c.features.rows@[i]@, v.len())
    &&& forall|i: int, col: usize|
        0 <= i < ls.len() && col < v.len() ==> #[trigger] row_value(c.features.rows@[i]@, col)
            == count_of(tokens(message_part(ls[i])), v[col as int])
    &&& c.labels@ == ls.map_values(|l: Seq<char>| label_value(l))
}

/// `e` reports line `j` of `ls`, which is the first line that is not well formed.
pub open spec fn reports_line(e: PipelineError, ls: Seq<Seq<char>>, j: int) -> bool {
    &&& 0 <= j < ls.len()
    &&& forall|i: int| 0 <= i < j ==> line_ok(#[trigger] ls[i])
    &&& !line_ok(ls[j])
    &&& if !has_tab(ls[j]) {
        e == PipelineError::Format { line: j as usize }
    } else {
        e matches PipelineError::InvalidLabel { line, label } && line == j && label@ == label_part(ls[j])
    }
}

proof fn lemma_count_bound(toks: Seq<Seq<char>>, t: Seq<char>)
    ensures
        count_of(toks, t) <= toks.len(),
    decreases toks.len(),
{
    if toks.len() > 0 {
        lemma_count_bound(toks.drop_last(), t);
    }
}

/// A token that no element of `toks` equals is not counted.
proof fn lemma_count_absent(toks: Seq<Seq<char>>, t: Seq<char>)
    requires
        !toks.contains(t),
    ensures
        count_of(toks, t) == 0,
    decreases toks.len(),
{
    if toks.len() > 0 {
        assert(toks.drop_last().contains(t) ==> toks.contains(t));
        lemma_count_absent(toks.drop_last(), t);
    }
}

/// Extending keeps the old vocabulary as a prefix, stays free of duplicates,
/// and contains every token it was extended with.
proof fn lemma_extend(v: Seq<Seq<char>>, toks: Seq<Seq<char>>)
    requires
        v.no_duplicates(),
    ensures
        extend_vocab(v, toks).len() >= v.len(),
        extend_vocab(v, toks).subrange(0, v.len() as int) == v,
        extend_vocab(v, toks).no_duplicates(),
        forall|k: int| 0 <= k < toks.len() ==> extend_vocab(v, toks).contains(#[trigger] toks[k]),
    decreases toks.len(),
{
    if toks.len() > 0 {
        let d = toks.drop_last();
        lemma_extend(v, d);
        let w = extend_vocab(v, d);
        assert forall|k: int| 0 <= k < toks.len() implies extend_vocab(v, toks).contains(#[trigger] toks[k]) by {
            if k < toks.len() - 1 {
                assert(d[k] == toks[k]);
                assert(w.contains(d[k]));
                if !w.contains(toks.last()) {
                    let x = choose|x: int| 0 <= x < w.len() && w[x] == d[k];
                    assert(w.push(toks.last())[x] == toks[k]);
                }
            } else if !w.contains(toks.last()) {
                assert(w.push(toks.last())[w.len() as int] == toks[k]);
            }
        }
        if !w.contains(toks.last()) {
            assert(w.push(toks.last()).subrange(0, v.len() as int) =~= w.subrange(0, v.len() as int));
        }
    }
}

/// The vocabulary of a corpus has no duplicates and contains every token of every message.
proof fn lemma_vocabulary(ls: Seq<Seq<char>>)
    ensures
        vocabulary_of(ls).no_duplicates(),
        forall|i: int, k: int|
            0 <= i < ls.len() && 0 <= k < tokens(message_part(ls[i])).len()
                ==> vocabulary_of(ls).contains(#[trigger] tokens(message_part(ls[i]))[k]),
    decreases ls.len(),
{
    if ls.len() > 0 {
        let d = ls.drop_last();
        lemma_vocabulary(d);
        let v = vocabulary_of(d);
        let toks = tokens(message_part(ls.last()));
        lemma_extend(v, toks);
        let w = vocabulary_of(ls);
        assert forall|i: int, k: int|
            0 <= i < ls.len() && 0 <= k < tokens(message_part(ls[i])).len()
            implies w.contains(#[trigger] tokens(message_part(ls[i]))[k]) by {
            if i < ls.len() - 1 {
                assert(d[i] == ls[i]);
                let t = tokens(message_part(ls[i]))[k];
                assert(v.contains(t));
                let x = choose|x: int| 0 <= x < v.len() && v[x] == t;
                assert(w.subrange(0, v.len() as int)[x] == t);
            } else {
                assert(ls[i] == ls.last());
            }
        }
    }
}

impl Vocabulary {
    pub fn new() -> (r: Vocabulary)
        ensures
            r@ == Seq::<Seq<char>>::empty(),
    {
        let r = Vocabulary { tokens: Vec::new() };
        assert(r@ =~= Seq::<Seq<char>>::empty());
        r
    }

    pub fn len(&self) -> (r: usize)
        ensures
            r == self@.len(),
    {
        self.tokens.len()
    }

    /// Column of `tok`, if it is in the vocabulary.
    pub fn position(&self, tok: &Vec<char>) -> (r: Option<usize>)
        ensures
            match r {
                Some(c) => c < self@.len() && self@[c as int] == tok@,
                None => !self@.contains(tok@),
            },
    {
        let mut c: usize = 0;
        while c < self.tokens.len()
            invariant
                c <= self.tokens.len(),
                forall|x: int| 0 <= x < c ==> self@[x] != tok@,
            decreases self.tokens.len() - c,
        {
            if same_chars(&self.tokens[c], tok) {
                return Some(c);
            }
            c = c + 1;
        }
        None
    }

    /// Adds the tokens of one message, in order, and returns that message's
    /// row of counts over the extended vocabulary.
    fn add_tokens(&mut self, toks: &Vec<Vec<char>>) -> (row: Vec<(usize, usize)>)
        requires
            old(self)@.no_duplicates(),
        ensures
            final(self)@ == extend_vocab(old(self)@, toks@.map_values(|t: Vec<char>| t@)),
            row_wf(row@, final(self)@.len()),
            forall|c: usize| c < final(self)@.len() ==> #[trigger] row_value(row@, c)
                == count_of(toks@.map_values(|t: Vec<char>| t@), final(self)@[c as int]),
    {
        let ghost v0 = self@;
        let ghost all = toks@.map_values(|t: Vec<char>| t@);
        let mut row: Vec<(usize, usize)> = Vec::new();
        let mut j: usize = 0;
        while j < toks.len()
            invariant
                j <= toks.len(),
                v0.no_duplicates(),
                all == toks@.map_values(|t: Vec<char>| t@),
                self@ == extend_vocab(v0, all.take(j as int)),
                row_wf(row@, self@.len()),
                forall|c: usize| c < self@.len() ==> #[trigger] row_value(row@, c) == count_of(all.take(j as int), self@[c as int]),
            decreases toks.len() - j,
        {
            let ghost before = all.take(j as int);
            let ghost after = all.take(j as int + 1);
            let ghost t = all[j as int];
            proof {
                assert(after.drop_last() =~= before);
                assert(after.last() == t);
                lemma_extend(v0, before);
                lemma_count_bound(before, t);
            }
            let ghost vb = self@;
            let ghost rb = row@;
            match self.position(&toks[j]) {
                Some(c0) => {
                    let pos = find_column(&row, c0);
                    if let Some(p) = pos {
                        let cnt = row[p].1;
                        proof {
                            lemma_row_update(rb, vb.len(), p as int, (cnt + 1) as usize, c0);
                        }
                        row.set(p, (c0, cnt + 1));
                        proof {
                            assert forall|c: usize| c < self@.len() implies #[trigger] row_value(row@, c)
                                == count_of(after, self@[c as int]) by {
                                lemma_row_update(rb, vb.len(), p as int, (cnt + 1) as usize, c);
                                if c != c0 {
                                    assert(self@[c as int] != self@[c0 as int]);
                                }
                            }
                            assert forall|q: int| 0 <= q < row@.len() implies (#[trigger] row@[q]).0 < self@.len() && row@[q].1 > 0 by {
                                assert(rb[q].0 < vb.len());
                            }
                            assert forall|q: int, r: int| 0 <= q < r < row@.len() implies (#[trigger] row@[q]).0 != (#[trigger] row@[r]).0 by {
                                assert(rb[q].0 != rb[r].0);
                            }
                        }
                    } else {
                        proof {
                            lemma_row_absent(rb, c0);
                        }
                        row.push((c0, 1));
                        proof {
                            assert(row@.drop_last() =~= rb);
                            assert forall|c: usize| c < self@.len() implies #[trigger] row_value(row@, c)
                                == count_of(after, self@[c as int]) by {
                                assert(row_value(rb, c) == count_of(before, vb[c as int]));
                                assert(row_value(row@, c) == if c == c0 { 1 } else { row_value(rb, c) });
                                if c != c0 {
                                    assert(self@[c as int] != self@[c0 as int]);
                                } else {
                                    assert(row_value(rb, c0) == count_of(before, vb[c0 as int]));
                                }
                            }
                            assert forall|q: int, r: int| 0 <= q < r < row@.len() implies (#[trigger] row@[q]).0 != (#[trigger] row@[r]).0 by {
                                if r == row@.len() - 1 {
                                    assert(rb[q].0 != c0);
                                } else {
                                    assert(rb[q].0 != rb[r].0);
                                }
                            }
                            assert forall|q: int| 0 <= q < row@.len() implies (#[trigger] row@[q]).0 < self@.len() && row@[q].1 > 0 by {
                                if q < rb.len() {
                                    assert(rb[q].0 < vb.len());
                                }
                            }
                        }
                    }
                },
                None => {
                    let c0 = self.tokens.len();
                    let copy = copy_chars(&toks[j]);
                    self.tokens.push(copy);
                    proof {
                        assert(self@ =~= vb.push(t));
                        assert(!before.contains(t)) by {
                            if before.contains(t) {
                                let x = choose|x: int| 0 <= x < before.len() && before[x] == t;
                                assert(vb.contains(before[x]));
                            }
                        }
                        lemma_count_absent(before, t);
                        lemma_row_absent(rb, c0);
                    }
                    row.push((c0, 1));
                    proof {
                        assert(row@.drop_last() =~= rb);
                        assert forall|c: usize| c < self@.len() implies #[trigger] row_value(row@, c)
                            == count_of(after, self@[c as int]) by {
                            assert(row_value(row@, c) == if c == c0 { 1 } else { row_value(rb, c) });
                            if c != c0 {
                                assert(self@[c as int] == vb[c as int]);
                                assert(vb[c as int] != t);
                                assert(row_value(rb, c) == count_of(before, vb[c as int]));
                            }
                        }
                        assert forall|q: int, r: int| 0 <= q < r < row@.len() implies (#[trigger] row@[q]).0 != (#[trigger] row@[r]).0 by {
                            if r == row@.len() - 1 {
                                assert(rb[q].0 < vb.len());
                            } else {
                                assert(rb[q].0 != rb[r].0);
                            }
                        }
                        assert forall|q: int| 0 <= q < row@.len() implies (#[trigger] row@[q]).0 < self@.len() && row@[q].1 > 0 by {
                            if q < rb.len() {
                                assert(rb[q].0 < vb.len());
                            }
                        }
                    }
                },
            }
            j = j + 1;
        }
        assert(all.take(j as int) =~= all);
        row
    }

    /// Column of the token spelled by `token`, if it is in the vocabulary.
    pub fn index_of(&self, token: &str) -> (r: Option<usize>)
        ensures
            match r {
                Some(c) => c < self@.len() && self@[c as int] == token@,
                None => !self@.contains(token@),
            },
    {
        let t = chars_of(token);
        self.position(&t)
    }
}

/// Position of the entry for column `c` in a sparse row.
fn find_column(row: &Vec<(usize, usize)>, c: usize) -> (r: Option<usize>)
    ensures
        match r {
            Some(p) => p < row.len() && row@[p as int].0 == c,
            None => forall|q: int| 0 <= q < row.len() ==> (#[trigger] row@[q]).0 != c,
        },
{
    let mut p: usize = 0;
    while p < row.len()
        invariant
            p <= row.len(),
            forall|q: int| 0 <= q < p ==> (#[trigger] row@[q]).0 != c,
        decreases row.len() - p,
    {
        if row[p].0 == c {
            return Some(p);
        }
        p = p + 1;
    }
    None
}

fn copy_chars(v: &Vec<char>) -> (r: Vec<char>)
    ensures
        r@ == v@,
{
    let r = copy_range(v, 0, v.len());
    assert(r@ =~= v@);
    r
}

fn same_chars(a: &Vec<char>, b: &Vec<char>) -> (r: bool)
    ensures
        r == (a@ == b@),
{
    if a.len() != b.len() {
        return false;
    }
    let mut i: usize = 0;
    while i < a.len()
        invariant
            i <= a.len() == b.len(),
            a@.subrange(0, i as int) == b@.subrange(0, i as int),
        decreases a.len() - i,
    {
        if a[i] != b[i] {
            assert(a@.subrange(0, i as int + 1)[i as int] != b@.subrange(0, i as int + 1)[i as int]);
            return false;
        }
        i = i + 1;
        assert(a@.subrange(0, i as int) =~= a@.subrange(0, i as int - 1).push(a[i as int - 1]));
        assert(b@.subrange(0, i as int) =~= b@.subrange(0, i as int - 1).push(b[i as int - 1]));
    }
    assert(a@ =~= a@.subrange(0, i as int));
    assert(b@ =~= b@.subrange(0, i as int));
    true
}

/// Vectorizing the same lines twice yields the same vocabulary, the same
/// column count, the same counts in every row and the same labels.
pub proof fn lemma_vectorize_deterministic(c1: Corpus, c2: Corpus, ls: Seq<Seq<char>>)
    requires
        corpus_of(c1, ls),
        corpus_of(c2, ls),
    ensures
        c1.vocabulary@ == c2.vocabulary@,
        c1.features.n_cols == c2.features.n_cols,
        c1.features.rows.len() == c2.features.rows.len(),
        forall|i: int, col: usize| 0 <= i < ls.len() ==> #[trigger] row_value(c1.features.rows@[i]@, col)
            == row_value(c2.features.rows@[i]@, col),
        c1.labels@ == c2.labels@,
{
    assert forall|i: int, col: usize| 0 <= i < ls.len() implies #[trigger] row_value(c1.features.rows@[i]@, col)
        == row_value(c2.features.rows@[i]@, col) by {
        if col >= c1.vocabulary@.len() {
            assert forall|p: int| 0 <= p < c1.features.rows@[i]@.len() implies (#[trigger] c1.features.rows@[i]@[p]).0 != col by {
                assert(row_wf(c1.features.rows@[i]@, c1.vocabulary@.len()));
            }
            assert forall|p: int| 0 <= p < c2.features.rows@[i]@.len() implies (#[trigger] c2.features.rows@[i]@[p]).0 != col by {
                assert(row_wf(c2.features.rows@[i]@, c2.vocabulary@.len()));
            }
            lemma_row_absent(c1.features.rows@[i]@, col);
            lemma_row_absent(c2.features.rows@[i]@, col);
        }
    }
}

impl Corpus {
    /// The vectorization of no lines.
    pub fn empty() -> (r: Corpus)
        ensures
            corpus_of(r, seq![]),
    {
        let r = Corpus {
            vocabulary: Vocabulary::new(),
            features: CountMatrix { rows: Vec::new(), n_cols: 0 },
            labels: Vec::new(),
        };
        assert(r.labels@ =~= Seq::<Seq<char>>::empty().map_values(|l: Seq<char>| label_value(l)));
        r
    }

    /// Appends one line, the text's characters `start..start + line.len()`.
    fn add_line(&mut self, line: &Vec<char>, text: &str, start: usize, ls: Ghost<Seq<Seq<char>>>) -> (r: Result<(), PipelineError>)
        requires
            corpus_of(*old(self), ls@),
            start + line.len() <= text@.len() <= usize::MAX,
            line@ == text@.subrange(start as int, start + line.len()),
        ensures
            match r {
                Ok(()) => line_ok(line@) && corpus_of(*final(self), ls@.push(line@)),
                Err(e) => !line_ok(line@) && if !has_tab(line@) {
                    e == PipelineError::Format { line: ls@.len() as usize }
                } else {
                    e matches PipelineError::InvalidLabel { line: n, label } && n == ls@.len()
                        && label@ == label_part(line@)
                },
            },
    {
        let ghost l = line@;
        let row_index = self.labels.len();
        let tab = find_tab(line);
        if tab == line.len() {
            return Err(PipelineError::Format { line: row_index });
        }
        let is_spam = tab == 4 && line[0] == 's' && line[1] == 'p' && line[2] == 'a' && line[3] == 'm';
        let is_ham = tab == 3 && line[0] == 'h' && line[1] == 'a' && line[2] == 'm';
        proof {
            let lp = label_part(l);
            assert(lp.len() == tab);
            if is_spam {
                assert(lp =~= spam_label());
            } else if lp == spam_label() {
                assert(lp[0] == 's' && lp[1] == 'p' && lp[2] == 'a' && lp[3] == 'm');
            }
            if is_ham {
                assert(lp =~= ham_label());
            } else if lp == ham_label() {
                assert(lp[0] == 'h' && lp[1] == 'a' && lp[2] == 'm');
            }
        }
        if !is_spam && !is_ham {
            let label = text.substring_char(start, start + tab).to_owned();
            assert(label@ =~= label_part(l));
            return Err(PipelineError::InvalidLabel { line: row_index, label });
        }
        let message = copy_range(line, tab + 1, line.len());
        let toks = split_tokens(&message);
        let ghost v0 = self.vocabulary@;
        proof {
            lemma_vocabulary(ls@);
        }
        let row = self.vocabulary.add_tokens(&toks);
        let ghost v1 = self.vocabulary@;
        let ghost nls = ls@.push(l);
        proof {
            assert(nls.drop_last() =~= ls@);
            assert(v1 == vocabulary_of(nls));
            lemma_extend(v0, tokens(message_part(l)));
            assert forall|i: int, col: usize|
                0 <= i < ls@.len() && col < v1.len() implies #[trigger] row_value(self.features.rows@[i]@, col)
                    == count_of(tokens(message_part(ls@[i])), v1[col as int]) by {
                let old_row = self.features.rows@[i]@;
                assert(row_wf(old_row, v0.len()));
                if col < v0.len() {
                    assert(v1.subrange(0, v0.len() as int)[col as int] == v1[col as int]);
                } else {
                    assert forall|q: int| 0 <= q < old_row.len() implies (#[trigger] old_row[q]).0 != col by {}
                    lemma_row_absent(old_row, col);
                    let toks_i = tokens(message_part(ls@[i]));
                    if toks_i.contains(v1[col as int]) {
                        let k = choose|k: int| 0 <= k < toks_i.len() && toks_i[k] == v1[col as int];
                        assert(v0.contains(toks_i[k]));
                        let x = choose|x: int| 0 <= x < v0.len() && v0[x] == toks_i[k];
                        assert(v1.subrange(0, v0.len() as int)[x] == v1[x]);
                    }
                    lemma_count_absent(toks_i, v1[col as int]);
                }
            }
        }
        self.features.rows.push(row);
        self.features.n_cols = self.vocabulary.len();
        let value: u8 = if is_spam { 0 } else { 1 };
        self.labels.push(value);
        proof {
            assert(self.labels@ =~= nls.map_values(|l: Seq<char>| label_value(l)));
            assert forall|i: int| 0 <= i < nls.len() implies row_wf(#[trigger] self.features.rows@[i]@, v1.len()) by {
                if i < ls@.len() {
                    assert(row_wf(self.features.rows@[i]@, v0.len()));
                }
            }
            assert forall|i: int, col: usize|
                0 <= i < nls.len() && col < v1.len() implies #[trigger] row_value(self.features.rows@[i]@, col)
                    == count_of(tokens(message_part(nls[i])), v1[col as int]) by {
                if i < ls@.len() {
                    assert(nls[i] == ls@[i]);
                }
            }
        }
        Ok(())
    }
}

/// Vectorizes a corpus of one labeled example per line: the label, a tab,
/// then the message. Stops at the first line that has no tab or whose label
/// is neither `spam` nor `ham`.
pub fn vectorize(text: &str) -> (r: Result<Corpus, PipelineError>)
    ensures
        match r {
            Ok(c) => {
                &&& forall|i: int| 0 <= i < lines(text@).len() ==> line_ok(#[trigger] lines(text@)[i])
                &&& corpus_of(c, lines(text@))
                &&& c.features.wf()
                &&& c.labels.len() == lines(text@).len()
                &&& forall|i: int| 0 <= i < c.labels.len() ==> #[trigger] c.labels[i] == 0 || c.labels[i] == 1
            },
            Err(e) => exists|j: int| reports_line(e, lines(text@), j),
        },
{
    let s = chars_of(text);
    let mut corpus = Corpus::empty();
    let ghost done: Seq<Seq<char>> = seq![];
    let mut start: usize = 0;
    let mut i: usize = 0;
    while i < s.len()
        invariant
            start <= i <= s.len(),
            s@ == text@,
            lines(s@) == done + lines_from(s@, start as int, i as int),
            corpus_of(corpus, done),
            forall|k: int| 0 <= k < done.len() ==> line_ok(#[trigger] done[k]),
        decreases s.len() - i,
    {
        if s[i] == '\n' {
            let end = if i > start && s[i - 1] == '\r' { i - 1 } else { i };
            let line = copy_range(&s, start, end);
            assert(line@ =~= strip_cr(s@.subrange(start as int, i as int)));
            let ghost rest = lines_from(s@, i + 1, i + 1);
            assert(lines(s@) =~= done.push(line@) + rest);
            match corpus.add_line(&line, text, start, Ghost(done)) {
                Err(e) => {
                    assert(lines(s@)[done.len() as int] == line@);
                    assert forall|k: int| 0 <= k < done.len() implies line_ok(#[trigger] lines(s@)[k]) by {
                        assert(lines(s@)[k] == done[k]);
                    }
                    assert(reports_line(e, lines(text@), done.len() as int));
                    return Err(e);
                },
                Ok(()) => {},
            }
            proof {
                done = done.push(line@);
            }
            i = i + 1;
            start = i;
        } else {
            i = i + 1;
        }
    }
    if start < s.len() {
        let line = copy_range(&s, start, s.len());
        assert(lines(s@) =~= done.push(line@));
        match corpus.add_line(&line, text, start, Ghost(done)) {
            Err(e) => {
                assert(lines(s@)[done.len() as int] == line@);
                assert forall|k: int| 0 <= k < done.len() implies line_ok(#[trigger] lines(s@)[k]) by {
                    assert(lines(s@)[k] == done[k]);
                }
                assert(reports_line(e, lines(text@), done.len() as int));
                return Err(e);
            },
            Ok(()) => {},
        }
        proof {
            done = done.push(line@);
        }
    }
    assert(lines(s@) =~= done);
    assert(corpus.labels.len() == done.len());
    Ok(corpus)
}

} // verus!
