use vstd::prelude::*;
use vstd::string::StrSliceExecFns;

use crate::token::{TokView, Token};
use crate::BoundaryConfigs;

verus! {

// ---------------------------------------------------------------------------
// Character classes.
// ---------------------------------------------------------------------------

/// The Unicode white-space characters, the class that line splitting is
/// defined over.
pub open spec fn is_space_char(c: char) -> bool {
    ||| c == ' '
    ||| c == '\t'
    ||| c == '\n'
    ||| c == '\r'
    ||| c == '\u{000B}'
    ||| c == '\u{000C}'
    ||| c == '\u{0085}'
    ||| c == '\u{00A0}'
    ||| c == '\u{1680}'
    ||| c == '\u{2000}'
    ||| c == '\u{2001}'
    ||| c == '\u{2002}'
    ||| c == '\u{2003}'
    ||| c == '\u{2004}'
    ||| c == '\u{2005}'
    ||| c == '\u{2006}'
    ||| c == '\u{2007}'
    ||| c == '\u{2008}'
    ||| c == '\u{2009}'
    ||| c == '\u{200A}'
    ||| c == '\u{2028}'
    ||| c == '\u{2029}'
    ||| c == '\u{202F}'
    ||| c == '\u{205F}'
    ||| c == '\u{3000}'
}

/// Characters that end a sentence.
pub open spec fn is_sentence_ending(c: char) -> bool {
    c == '.' || c == '!' || c == '?'
}

/// Trailing punctuation that is split off the end of a word.
pub open spec fn is_punctuation_ending(c: char) -> bool {
    ||| c == '.'
    ||| c == '!'
    ||| c == '?'
    ||| c == ','
    ||| c == '"'
    ||| c == '\''
    ||| c == '}'
    ||| c == ')'
}

/// Leading punctuation that is split off the start of a word.
pub open spec fn is_punctuation_beginning(c: char) -> bool {
    c == '"' || c == '\'' || c == '{' || c == '('
}

fn is_space(c: char) -> (r: bool)
    ensures
        r == is_space_char(c),
{
    c == ' ' || c == '\t' || c == '\n' || c == '\r' || c == '\u{000B}' || c == '\u{000C}' || c
        == '\u{0085}' || c == '\u{00A0}' || c == '\u{1680}' || c == '\u{2000}' || c == '\u{2001}'
        || c == '\u{2002}' || c == '\u{2003}' || c == '\u{2004}' || c == '\u{2005}' || c
        == '\u{2006}' || c == '\u{2007}' || c == '\u{2008}' || c == '\u{2009}' || c == '\u{200A}'
        || c == '\u{2028}' || c == '\u{2029}' || c == '\u{202F}' || c == '\u{205F}' || c
        == '\u{3000}'
}

fn is_sentence_ending_char(c: char) -> (r: bool)
    ensures
        r == is_sentence_ending(c),
{
    c == '.' || c == '!' || c == '?'
}

fn is_punctuation_ending_char(c: char) -> (r: bool)
    ensures
        r == is_punctuation_ending(c),
{
    c == '.' || c == '!' || c == '?' || c == ',' || c == '"' || c == '\'' || c == '}' || c == ')'
}

fn is_punctuation_beginning_char(c: char) -> (r: bool)
    ensures
        r == is_punctuation_beginning(c),
{
    c == '"' || c == '\'' || c == '{' || c == '('
}

// ---------------------------------------------------------------------------
// Whitespace splitting, modelled as a left-to-right scan whose state is
// the words completed so far and the partial word being read.
// ---------------------------------------------------------------------------

/// One step of the scan: a white-space character closes the partial word
/// (if any), any other character extends it.
pub open spec fn split_step(acc: (Seq<Seq<char>>, Seq<char>), c: char) -> (Seq<Seq<char>>, Seq<
    char,
>) {
    if is_space_char(c) {
        if acc.1.len() > 0 {
            (acc.0.push(acc.1), Seq::empty())
        } else {
            acc
        }
    } else {
        (acc.0, acc.1.push(c))
    }
}

/// The scan state after reading all of `s`.
pub open spec fn split_state(s: Seq<char>) -> (Seq<Seq<char>>, Seq<char>)
    decreases s.len(),
{
    if s.len() == 0 {
        (Seq::empty(), Seq::empty())
    } else {
        split_step(split_state(s.drop_last()), s.last())
    }
}

/// The whitespace-split of a line: its maximal runs of non-white-space
/// characters, in order.
pub open spec fn split_words(s: Seq<char>) -> Seq<Seq<char>> {
    let st = split_state(s);
    if st.1.len() > 0 {
        st.0.push(st.1)
    } else {
        st.0
    }
}

/// Splits a line on runs of white space.
fn split_on_whitespace(line: &str) -> (r: Vec<String>)
    ensures
        r.deep_view() == split_words(line@),
{
    let n = line.unicode_len();
    let mut words: Vec<String> = Vec::new();
    let mut start: usize = 0;
    let mut i: usize = 0;
    while i < n
        invariant
            n == line@.len(),
            0 <= start <= i <= n,
            words.deep_view() == split_state(line@.take(i as int)).0,
            line@.subrange(start as int, i as int) == split_state(line@.take(i as int)).1,
        decreases n - i,
    {
        let ghost prev_words = words.deep_view();
        let c = line.get_char(i);
        proof {
            assert(line@.take(i + 1).drop_last() =~= line@.take(i as int));
            assert(line@.take(i + 1).last() == c);
        }
        if is_space(c) {
            if start < i {
                let w = line.substring_char(start, i).to_owned();
                words.push(w);
                proof {
                    assert(words.deep_view() =~= prev_words.push(
                        line@.subrange(start as int, i as int),
                    ));
                }
            }
            start = i + 1;
        }
        i += 1;
        proof {
            assert(line@.subrange(start as int, i as int) =~= if start < i {
                split_state(line@.take(i - 1)).1.push(line@[i - 1])
            } else {
                Seq::<char>::empty()
            });
        }
    }
    proof {
        assert(line@.take(n as int) =~= line@);
    }
    if start < n {
        let ghost prev_words = words.deep_view();
        let w = line.substring_char(start, n).to_owned();
        words.push(w);
        proof {
            assert(words.deep_view() =~= prev_words.push(line@.subrange(start as int, n as int)));
        }
    }
    words
}

// ---------------------------------------------------------------------------
// The three per-token rewriting passes.
// ---------------------------------------------------------------------------

/// What the sentence-boundary pass makes of one token: a word ending in
/// sentence punctuation becomes the word without that character (dropped
/// entirely when nothing remains) followed by a boundary.
pub open spec fn sentence_split_one(t: TokView) -> Seq<TokView> {
    match t {
        TokView::Word(w) => {
            if w.len() > 0 && is_sentence_ending(w.last()) {
                if w.len() > 1 {
                    seq![TokView::Word(w.drop_last()), TokView::Boundary]
                } else {
                    seq![TokView::Boundary]
                }
            } else {
                seq![TokView::Word(w)]
            }
        },
        TokView::Boundary => seq![TokView::Boundary],
    }
}

/// What the trailing-punctuation pass makes of one token: a word ending
/// in punctuation becomes the word without that character (omitted when
/// nothing remains) followed by the one-character word.
pub open spec fn ending_split_one(t: TokView) -> Seq<TokView> {
    match t {
        TokView::Word(w) => {
            if w.len() > 0 && is_punctuation_ending(w.last()) {
                if w.len() > 1 {
                    seq![TokView::Word(w.drop_last()), TokView::Word(seq![w.last()])]
                } else {
                    seq![TokView::Word(w)]
                }
            } else {
                seq![TokView::Word(w)]
            }
        },
        TokView::Boundary => seq![TokView::Boundary],
    }
}

/// What the leading-punctuation pass makes of one token: a word starting
/// with punctuation becomes the one-character word followed by the rest
/// (omitted when nothing remains).
pub open spec fn beginning_split_one(t: TokView) -> Seq<TokView> {
    match t {
        TokView::Word(w) => {
            if w.len() > 0 && is_punctuation_beginning(w[0]) {
                if w.len() > 1 {
                    seq![TokView::Word(seq![w[0]]), TokView::Word(w.drop_first())]
                } else {
                    seq![TokView::Word(w)]
                }
            } else {
                seq![TokView::Word(w)]
            }
        },
        TokView::Boundary => seq![TokView::Boundary],
    }
}

/// Splits out tokens with sentence boundaries:
/// `["man."]` becomes `["man", Boundary]`.
pub fn split_out_sentence_boundaries(tokens: &mut Vec<Token>)
    ensures
        final(tokens).deep_view() == old(tokens).deep_view().flat_map(
            |t: TokView| sentence_split_one(t),
        ),
{
    let ghost f = |t: TokView| sentence_split_one(t);
    let ghost toks = tokens.deep_view();
    let n = tokens.len();
    let mut out: Vec<Token> = Vec::new();
    let mut i: usize = 0;
    proof {
        assert(toks.take(0).flat_map(f) =~= out.deep_view());
        assert(toks.take(0) =~= Seq::<TokView>::empty());
        assert(Seq::<TokView>::empty().map_values(f) =~= Seq::<Seq<TokView>>::empty());
    }
    while i < n
        invariant
            n == tokens@.len(),
            toks == tokens.deep_view(),
            f == (|t: TokView| sentence_split_one(t)),
            0 <= i <= n,
            out.deep_view() == toks.take(i as int).flat_map(f),
        decreases n - i,
    {
        let ghost prev = out.deep_view();
        let t = &tokens[i];
        match t {
            Token::Word(s) => {
                proof {
                    assert(toks[i as int] == TokView::Word(s@));
                }
                let st = s.as_str();
                let len = st.unicode_len();
                if len > 0 && is_sentence_ending_char(st.get_char(len - 1)) {
                    if len > 1 {
                        let trimmed = st.substring_char(0, len - 1).to_owned();
                        proof {
                            assert(trimmed@ =~= s@.drop_last());
                        }
                        out.push(Token::Word(trimmed));
                        out.push(Token::Boundary);
                        proof {
                            assert(f(toks[i as int]) == seq![
                                TokView::Word(s@.drop_last()),
                                TokView::Boundary,
                            ]);
                            assert(out.deep_view() =~= prev + f(toks[i as int]));
                        }
                    } else {
                        out.push(Token::Boundary);
                        proof {
                            assert(f(toks[i as int]) == seq![TokView::Boundary]);
                            assert(out.deep_view() =~= prev + f(toks[i as int]));
                        }
                    }
                } else {
                    out.push(Token::Word(s.clone()));
                    proof {
                        assert(f(toks[i as int]) == seq![TokView::Word(s@)]);
                        assert(out.deep_view() =~= prev + f(toks[i as int]));
                    }
                }
            },
            Token::Boundary => {
                out.push(Token::Boundary);
                proof {
                    assert(f(toks[i as int]) == seq![TokView::Boundary]);
                    assert(out.deep_view() =~= prev + f(toks[i as int]));
                }
            },
        }
        proof {
            toks.lemma_flat_map_take_append(f, i as int);
            assert(out.deep_view() =~= prev + f(toks[i as int]));
        }
        i += 1;
    }
    proof {
        assert(toks.take(n as int) =~= toks);
    }
    *tokens = out;
}

/// Splits trailing punctuation off the ends of words:
/// `["Paren)"]` becomes `["Paren", ")"]`.
pub fn split_out_punctuation_endings(tokens: &mut Vec<Token>)
    ensures
        final(tokens).deep_view() == old(tokens).deep_view().flat_map(
            |t: TokView| ending_split_one(t),
        ),
{
    let ghost f = |t: TokView| ending_split_one(t);
    let ghost toks = tokens.deep_view();
    let n = tokens.len();
    let mut out: Vec<Token> = Vec::new();
    let mut i: usize = 0;
    proof {
        assert(toks.take(0).flat_map(f) =~= out.deep_view());
        assert(toks.take(0) =~= Seq::<TokView>::empty());
        assert(Seq::<TokView>::empty().map_values(f) =~= Seq::<Seq<TokView>>::empty());
    }
    while i < n
        invariant
            n == tokens@.len(),
            toks == tokens.deep_view(),
            f == (|t: TokView| ending_split_one(t)),
            0 <= i <= n,
            out.deep_view() == toks.take(i as int).flat_map(f),
        decreases n - i,
    {
        let ghost prev = out.deep_view();
        let t = &tokens[i];
        match t {
            Token::Word(s) => {
                let st = s.as_str();
                let len = st.unicode_len();
                if len > 0 && is_punctuation_ending_char(st.get_char(len - 1)) {
                    if len > 1 {
                        let trimmed = st.substring_char(0, len - 1).to_owned();
                        let last = st.substring_char(len - 1, len).to_owned();
                        proof {
                            assert(trimmed@ =~= s@.drop_last());
                            assert(last@ =~= seq![s@.last()]);
                        }
                        out.push(Token::Word(trimmed));
                        out.push(Token::Word(last));
                    } else {
                        out.push(Token::Word(s.clone()));
                    }
                } else {
                    out.push(Token::Word(s.clone()));
                }
            },
            Token::Boundary => {
                out.push(Token::Boundary);
            },
        }
        proof {
            toks.lemma_flat_map_take_append(f, i as int);
            assert(out.deep_view() =~= prev + f(toks[i as int]));
        }
        i += 1;
    }
    proof {
        assert(toks.take(n as int) =~= toks);
    }
    *tokens = out;
}

/// Splits leading punctuation off the starts of words:
/// `["(Paren"]` becomes `["(", "Paren"]`.
pub fn split_out_punctuation_beginings(tokens: &mut Vec<Token>)
    ensures
        final(tokens).deep_view() == old(tokens).deep_view().flat_map(
            |t: TokView| beginning_split_one(t),
        ),
{
    let ghost f = |t: TokView| beginning_split_one(t);
    let ghost toks = tokens.deep_view();
    let n = tokens.len();
    let mut out: Vec<Token> = Vec::new();
    let mut i: usize = 0;
    proof {
        assert(toks.take(0).flat_map(f) =~= out.deep_view());
        assert(toks.take(0) =~= Seq::<TokView>::empty());
        assert(Seq::<TokView>::empty().map_values(f) =~= Seq::<Seq<TokView>>::empty());
    }
    while i < n
        invariant
            n == tokens@.len(),
            toks == tokens.deep_view(),
            f == (|t: TokView| beginning_split_one(t)),
            0 <= i <= n,
            out.deep_view() == toks.take(i as int).flat_map(f),
        decreases n - i,
    {
        let ghost prev = out.deep_view();
        let t = &tokens[i];
        match t {
            Token::Word(s) => {
                let st = s.as_str();
                let len = st.unicode_len();
                if len > 0 && is_punctuation_beginning_char(st.get_char(0)) {
                    if len > 1 {
                        let first = st.substring_char(0, 1).to_owned();
                        let rest = st.substring_char(1, len).to_owned();
                        proof {
                            assert(first@ =~= seq![s@[0]]);
                            assert(rest@ =~= s@.drop_first());
                        }
                        out.push(Token::Word(first));
                        out.push(Token::Word(rest));
                    } else {
                        out.push(Token::Word(s.clone()));
                    }
                } else {
                    out.push(Token::Word(s.clone()));
                }
            },
            Token::Boundary => {
                out.push(Token::Boundary);
            },
        }
        proof {
            toks.lemma_flat_map_take_append(f, i as int);
            assert(out.deep_view() =~= prev + f(toks[i as int]));
        }
        i += 1;
    }
    proof {
        assert(toks.take(n as int) =~= toks);
    }
    *tokens = out;
}

// ---------------------------------------------------------------------------
// The tokenizer.
// ---------------------------------------------------------------------------

/// The whitespace-split words of a line, as word tokens.
pub open spec fn word_views(ws: Seq<Seq<char>>) -> Seq<TokView> {
    ws.map_values(|w: Seq<char>| TokView::Word(w))
}

/// The token sequence produced from one line of text: whitespace
/// splitting, then (under `SentenceEndings` only) sentence-boundary
/// extraction, then trailing- and leading-punctuation splitting.
pub open spec fn spec_tokenize(s: Seq<char>, cfg: BoundaryConfigs) -> Seq<TokView> {
    let words = word_views(split_words(s));
    let after_sentence = if cfg is SentenceEndings {
        words.flat_map(|t: TokView| sentence_split_one(t))
    } else {
        words
    };
    let after_endings = after_sentence.flat_map(|t: TokView| ending_split_one(t));
    after_endings.flat_map(|t: TokView| beginning_split_one(t))
}

/// Every character of `s` satisfies `p`.
pub open spec fn all_chars(s: Seq<char>, p: spec_fn(char) -> bool) -> bool {
    forall|i: int| 0 <= i < s.len() ==> p(#[trigger] s[i])
}

/// Every character of every word of `ws` satisfies `p`.
pub open spec fn all_words_chars(ws: Seq<Seq<char>>, p: spec_fn(char) -> bool) -> bool {
    forall|k: int| 0 <= k < ws.len() ==> all_chars(#[trigger] ws[k], p)
}

proof fn lemma_split_state_chars(s: Seq<char>, p: spec_fn(char) -> bool)
    requires
        all_chars(s, p),
    ensures
        all_words_chars(split_state(s).0, p),
        all_chars(split_state(s).1, p),
    decreases s.len(),
{
    if s.len() > 0 {
        assert forall|i: int| 0 <= i < s.drop_last().len() implies p(
            #[trigger] s.drop_last()[i],
        ) by {
            assert(s.drop_last()[i] == s[i]);
        }
        lemma_split_state_chars(s.drop_last(), p);
        let st = split_state(s.drop_last());
        let c = s.last();
        assert(p(c));
        if is_space_char(c) {
            if st.1.len() > 0 {
                assert forall|k: int| 0 <= k < st.0.push(st.1).len() implies all_chars(
                    #[trigger] st.0.push(st.1)[k],
                    p,
                ) by {
                    if k < st.0.len() {
                        assert(st.0.push(st.1)[k] == st.0[k]);
                    } else {
                        assert(st.0.push(st.1)[k] == st.1);
                    }
                }
            }
        } else {
            assert forall|i: int| 0 <= i < st.1.push(c).len() implies p(
                #[trigger] st.1.push(c)[i],
            ) by {
                if i < st.1.len() {
                    assert(st.1.push(c)[i] == st.1[i]);
                } else {
                    assert(st.1.push(c)[i] == c);
                }
            }
        }
    }
}

proof fn lemma_split_words_chars(s: Seq<char>, p: spec_fn(char) -> bool)
    requires
        all_chars(s, p),
    ensures
        all_words_chars(split_words(s), p),
{
    lemma_split_state_chars(s, p);
    let st = split_state(s);
    if st.1.len() > 0 {
        assert forall|k: int| 0 <= k < st.0.push(st.1).len() implies all_chars(
            #[trigger] st.0.push(st.1)[k],
            p,
        ) by {
            if k < st.0.len() {
                assert(st.0.push(st.1)[k] == st.0[k]);
            } else {
                assert(st.0.push(st.1)[k] == st.1);
            }
        }
    }
}

proof fn lemma_flat_map_identity(ts: Seq<TokView>, f: spec_fn(TokView) -> Seq<TokView>)
    requires
        forall|i: int| 0 <= i < ts.len() ==> f(#[trigger] ts[i]) == seq![ts[i]],
    ensures
        ts.flat_map(f) == ts,
    decreases ts.len(),
{
    if ts.len() == 0 {
        assert(ts.map_values(f) =~= Seq::<Seq<TokView>>::empty());
        assert(Seq::<Seq<TokView>>::empty().flatten() =~= Seq::<TokView>::empty());
        assert(ts.flat_map(f) =~= ts);
    } else {
        assert forall|i: int| 0 <= i < ts.drop_last().len() implies f(
            #[trigger] ts.drop_last()[i],
        ) == seq![ts.drop_last()[i]] by {
            assert(ts.drop_last()[i] == ts[i]);
        }
        lemma_flat_map_identity(ts.drop_last(), f);
        ts.drop_last().lemma_flat_map_push(f, ts.last());
        assert(ts.drop_last().push(ts.last()) =~= ts);
        assert(f(ts.last()) == seq![ts.last()]);
        assert(ts.flat_map(f) =~= ts.drop_last() + seq![ts.last()]);
        assert(ts.drop_last() + seq![ts.last()] =~= ts);
    }
}

/// Law: tokenizing a line that contains no punctuation yields exactly
/// its whitespace-split words, under either boundary configuration.
pub proof fn lemma_tokenize_plain_words(s: Seq<char>, cfg: BoundaryConfigs)
    requires
        forall|i: int|
            0 <= i < s.len() ==> !is_punctuation_ending(#[trigger] s[i])
                && !is_punctuation_beginning(s[i]),
    ensures
        spec_tokenize(s, cfg) == word_views(split_words(s)),
{
    let p = |c: char| !is_punctuation_ending(c) && !is_punctuation_beginning(c);
    assert(all_chars(s, p));
    lemma_split_words_chars(s, p);
    let ws = split_words(s);
    let words = word_views(ws);
    assert forall|i: int| 0 <= i < words.len() implies #[trigger] words[i] == TokView::Word(
        ws[i],
    ) && all_chars(ws[i], p) by {
    }
    let fs = |t: TokView| sentence_split_one(t);
    let fe = |t: TokView| ending_split_one(t);
    let fb = |t: TokView| beginning_split_one(t);
    assert forall|i: int| 0 <= i < words.len() implies f_identity_at(words, i, fs, fe, fb) by {
        let w = ws[i];
        if w.len() > 0 {
            assert(p(w.last()));
            assert(p(w[0]));
        }
    }
    lemma_flat_map_identity(words, fs);
    lemma_flat_map_identity(words, fe);
    lemma_flat_map_identity(words, fb);
}

spec fn f_identity_at(
    words: Seq<TokView>,
    i: int,
    fs: spec_fn(TokView) -> Seq<TokView>,
    fe: spec_fn(TokView) -> Seq<TokView>,
    fb: spec_fn(TokView) -> Seq<TokView>,
) -> bool {
    0 <= i < words.len() ==> fs(words[i]) == seq![words[i]] && fe(words[i]) == seq![words[i]]
        && fb(words[i]) == seq![words[i]]
}

/// A well-formed token: the boundary, or a word that is non-empty and
/// contains no white space.
pub open spec fn wf_token(t: TokView) -> bool {
    match t {
        TokView::Word(w) => w.len() > 0 && all_chars(w, |c: char| !is_space_char(c)),
        TokView::Boundary => true,
    }
}

proof fn lemma_split_state_wellformed(s: Seq<char>)
    ensures
        forall|k: int|
            0 <= k < split_state(s).0.len() ==> (#[trigger] split_state(s).0[k]).len() > 0
                && all_chars(split_state(s).0[k], |c: char| !is_space_char(c)),
        all_chars(split_state(s).1, |c: char| !is_space_char(c)),
    decreases s.len(),
{
    let p = |c: char| !is_space_char(c);
    if s.len() > 0 {
        lemma_split_state_wellformed(s.drop_last());
        let st = split_state(s.drop_last());
        let c = s.last();
        if is_space_char(c) {
            if st.1.len() > 0 {
                assert forall|k: int| 0 <= k < st.0.push(st.1).len() implies (#[trigger] st.0.push(
                    st.1,
                )[k]).len() > 0 && all_chars(st.0.push(st.1)[k], p) by {
                    if k < st.0.len() {
                        assert(st.0.push(st.1)[k] == st.0[k]);
                    } else {
                        assert(st.0.push(st.1)[k] == st.1);
                    }
                }
            }
        } else {
            assert forall|j: int| 0 <= j < st.1.push(c).len() implies p(
                #[trigger] st.1.push(c)[j],
            ) by {
                if j < st.1.len() {
                    assert(st.1.push(c)[j] == st.1[j]);
                } else {
                    assert(st.1.push(c)[j] == c);
                }
            }
        }
    }
}

proof fn lemma_flat_map_all(
    ts: Seq<TokView>,
    f: spec_fn(TokView) -> Seq<TokView>,
    p: spec_fn(TokView) -> bool,
)
    requires
        forall|i: int, j: int|
            0 <= i < ts.len() && 0 <= j < f(#[trigger] ts[i]).len() ==> p(#[trigger] f(ts[i])[j]),
    ensures
        forall|k: int| 0 <= k < ts.flat_map(f).len() ==> p(#[trigger] ts.flat_map(f)[k]),
    decreases ts.len(),
{
    if ts.len() == 0 {
        assert(ts.map_values(f) =~= Seq::<Seq<TokView>>::empty());
        assert(Seq::<Seq<TokView>>::empty().flatten() =~= Seq::<TokView>::empty());
        assert(ts.flat_map(f) =~= Seq::<TokView>::empty());
    } else {
        assert forall|i: int, j: int|
            0 <= i < ts.drop_last().len() && 0 <= j < f(
                #[trigger] ts.drop_last()[i],
            ).len() implies p(#[trigger] f(ts.drop_last()[i])[j]) by {
            assert(ts.drop_last()[i] == ts[i]);
        }
        lemma_flat_map_all(ts.drop_last(), f, p);
        ts.drop_last().lemma_flat_map_push(f, ts.last());
        assert(ts.drop_last().push(ts.last()) =~= ts);
        let glued = ts.drop_last().flat_map(f) + f(ts.last());
        assert(ts.flat_map(f) == glued);
        assert forall|k: int| 0 <= k < glued.len() implies p(#[trigger] glued[k]) by {
            if k < ts.drop_last().flat_map(f).len() {
                assert(glued[k] == ts.drop_last().flat_map(f)[k]);
            } else {
                assert(glued[k] == f(ts.last())[k - ts.drop_last().flat_map(f).len()]);
                assert(ts.last() == ts[ts.len() - 1]);
            }
        }
    }
}

/// Every token that tokenizing a line produces is well formed: the
/// boundary, or a word that is non-empty and holds no white space.
pub proof fn lemma_tokenize_tokens_wellformed(s: Seq<char>, cfg: BoundaryConfigs)
    ensures
        forall|k: int|
            0 <= k < spec_tokenize(s, cfg).len() ==> wf_token(#[trigger] spec_tokenize(s, cfg)[k]),
{
    let p = |t: TokView| wf_token(t);
    let nospace = |c: char| !is_space_char(c);
    lemma_split_state_wellformed(s);
    let ws = split_words(s);
    let st = split_state(s);
    assert forall|k: int| 0 <= k < ws.len() implies (#[trigger] ws[k]).len() > 0 && all_chars(
        ws[k],
        nospace,
    ) by {
        if st.1.len() > 0 && k == st.0.len() {
            assert(ws[k] == st.1);
        } else {
            assert(ws[k] == st.0[k]);
        }
    }
    let words = word_views(ws);
    assert forall|i: int| 0 <= i < words.len() implies p(#[trigger] words[i]) by {
        assert(words[i] == TokView::Word(ws[i]));
    }
    let fs = |t: TokView| sentence_split_one(t);
    let fe = |t: TokView| ending_split_one(t);
    let fb = |t: TokView| beginning_split_one(t);
    let after_sentence = if cfg is SentenceEndings {
        words.flat_map(fs)
    } else {
        words
    };
    if cfg is SentenceEndings {
        assert forall|i: int, j: int|
            0 <= i < words.len() && 0 <= j < fs(#[trigger] words[i]).len() implies p(
            #[trigger] fs(words[i])[j],
        ) by {
            lemma_split_one_wellformed(words[i]);
        }
        lemma_flat_map_all(words, fs, p);
    }
    assert forall|i: int, j: int|
        0 <= i < after_sentence.len() && 0 <= j < fe(#[trigger] after_sentence[i]).len() implies p(
        #[trigger] fe(after_sentence[i])[j],
    ) by {
        lemma_split_one_wellformed(after_sentence[i]);
    }
    lemma_flat_map_all(after_sentence, fe, p);
    let after_endings = after_sentence.flat_map(fe);
    assert forall|i: int, j: int|
        0 <= i < after_endings.len() && 0 <= j < fb(#[trigger] after_endings[i]).len() implies p(
        #[trigger] fb(after_endings[i])[j],
    ) by {
        lemma_split_one_wellformed(after_endings[i]);
    }
    lemma_flat_map_all(after_endings, fb, p);
}

/// Each rewriting pass turns a well-formed token into well-formed
/// tokens: dropping an end character or keeping a single one leaves a
/// non-empty, space-free word.
proof fn lemma_split_one_wellformed(t: TokView)
    requires
        wf_token(t),
    ensures
        forall|j: int| 0 <= j < sentence_split_one(t).len() ==> wf_token(#[trigger] sentence_split_one(t)[j]),
        forall|j: int| 0 <= j < ending_split_one(t).len() ==> wf_token(#[trigger] ending_split_one(t)[j]),
        forall|j: int| 0 <= j < beginning_split_one(t).len() ==> wf_token(#[trigger] beginning_split_one(t)[j]),
{
    let nospace = |c: char| !is_space_char(c);
    match t {
        TokView::Word(w) => {
            if w.len() > 1 {
                assert(all_chars(w.drop_last(), nospace)) by {
                    assert forall|j: int| 0 <= j < w.drop_last().len() implies nospace(
                        #[trigger] w.drop_last()[j],
                    ) by {
                        assert(w.drop_last()[j] == w[j]);
                    }
                }
                assert(all_chars(w.drop_first(), nospace)) by {
                    assert forall|j: int| 0 <= j < w.drop_first().len() implies nospace(
                        #[trigger] w.drop_first()[j],
                    ) by {
                        assert(w.drop_first()[j] == w[j + 1]);
                    }
                }
                assert(all_chars(seq![w.last()], nospace)) by {
                    assert(seq![w.last()][0] == w[w.len() - 1]);
                }
                assert(all_chars(seq![w[0]], nospace)) by {
                    assert(seq![w[0]][0] == w[0]);
                }
            }
        },
        TokView::Boundary => {
        },
    }
}

/// Takes an input line of text, returns the line broken up as a vector
/// of tokens.
pub fn tokenize(line: &str, boundary_config: &BoundaryConfigs) -> (r: Vec<Token>)
    ensures
        r.deep_view() == spec_tokenize(line@, *boundary_config),
{
    let words = split_on_whitespace(line);
    let ghost ws = words.deep_view();
    let mut tokens: Vec<Token> = Vec::new();
    let k = words.len();
    let mut i: usize = 0;
    while i < k
        invariant
            k == words@.len(),
            ws == words.deep_view(),
            0 <= i <= k,
            tokens.deep_view() == word_views(ws.take(i as int)),
        decreases k - i,
    {
        let ghost prev = tokens.deep_view();
        tokens.push(Token::Word(words[i].clone()));
        proof {
            assert(tokens.deep_view() =~= prev.push(TokView::Word(ws[i as int])));
            assert(word_views(ws.take(i + 1)) =~= word_views(ws.take(i as int)).push(
                TokView::Word(ws[i as int]),
            ));
        }
        i += 1;
    }
    proof {
        assert(ws.take(k as int) =~= ws);
        assert(word_views(ws) =~= tokens.deep_view());
    }
    match boundary_config {
        BoundaryConfigs::SentenceEndings => {
            split_out_sentence_boundaries(&mut tokens);
        },
        BoundaryConfigs::LineEndings => {
        },
    }
    split_out_punctuation_endings(&mut tokens);
    split_out_punctuation_beginings(&mut tokens);
    tokens
}

} // verus!
