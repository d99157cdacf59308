use vstd::prelude::*;

use crate::token::{TokView, Token};
use crate::tokenize::{spec_tokenize, tokenize};
use crate::transitions::{spec_count, Transitions};
use crate::BoundaryConfigs;

verus! {

// ---------------------------------------------------------------------------
// The counting rule.
// ---------------------------------------------------------------------------

/// Recording one adjacency: count it, except that a boundary-to-boundary
/// adjacency (from blank lines or consecutive boundaries) is suppressed.
pub open spec fn spec_record(
    m: Map<TokView, Map<TokView, u32>>,
    a: TokView,
    b: TokView,
) -> Map<TokView, Map<TokView, u32>> {
    if a is Boundary && b is Boundary {
        m
    } else {
        spec_count(m, a, b)
    }
}

/// Recording every adjacent pair of a token sequence, in order.
pub open spec fn spec_count_pairs(m: Map<TokView, Map<TokView, u32>>, ts: Seq<TokView>) -> Map<
    TokView,
    Map<TokView, u32>,
>
    decreases ts.len(),
{
    if ts.len() < 2 {
        m
    } else {
        spec_count_pairs(spec_record(m, ts[0], ts[1]), ts.drop_first())
    }
}

/// The token sequence a single line contributes: under `LineEndings` the
/// line's tokens wrapped in boundaries, under `SentenceEndings` the token
/// carried over from the previous line followed by the line's tokens.
pub open spec fn line_tokens(line: Seq<char>, cfg: BoundaryConfigs, carry: TokView) -> Seq<
    TokView,
> {
    match cfg {
        BoundaryConfigs::LineEndings => seq![TokView::Boundary] + spec_tokenize(line, cfg)
            + seq![TokView::Boundary],
        BoundaryConfigs::SentenceEndings => seq![carry] + spec_tokenize(line, cfg),
    }
}

/// Training over a sequence of lines, threading the carried token.
pub open spec fn spec_train_lines(
    m: Map<TokView, Map<TokView, u32>>,
    lines: Seq<Seq<char>>,
    cfg: BoundaryConfigs,
    carry: TokView,
) -> Map<TokView, Map<TokView, u32>>
    decreases lines.len(),
{
    if lines.len() == 0 {
        m
    } else {
        let ts = line_tokens(lines[0], cfg, carry);
        let m2 = spec_count_pairs(m, ts);
        let carry2 = if cfg is SentenceEndings {
            ts.last()
        } else {
            carry
        };
        spec_train_lines(m2, lines.drop_first(), cfg, carry2)
    }
}

// ---------------------------------------------------------------------------
// Training.
// ---------------------------------------------------------------------------

/// Input tokens and add their adjacent-pair transitions to the table,
/// suppressing boundary-to-boundary pairs.
pub fn train_with_tokens(tokens: Vec<Token>, transitions: &mut Transitions)
    requires
        old(transitions).wf(),
    ensures
        final(transitions).wf(),
        final(transitions)@ == spec_count_pairs(old(transitions)@, tokens.deep_view()),
{
    let ghost ts = tokens.deep_view();
    let ghost m0 = transitions@;
    let n = tokens.len();
    if n < 2 {
        return ;
    }
    proof {
        assert(ts.skip(0) =~= ts);
    }
    let mut i: usize = 1;
    while i < n
        invariant
            n == tokens@.len(),
            ts == tokens.deep_view(),
            2 <= n,
            1 <= i <= n,
            transitions.wf(),
            spec_count_pairs(m0, ts) == spec_count_pairs(transitions@, ts.skip(i - 1)),
        decreases n - i,
    {
        proof {
            assert(ts.skip(i - 1)[0] == ts[i - 1]);
            assert(ts.skip(i - 1)[1] == ts[i as int]);
            assert(ts.skip(i - 1).drop_first() =~= ts.skip(i as int));
        }
        let a_is_boundary = tokens[i - 1].is_boundary();
        let b_is_boundary = tokens[i].is_boundary();
        if !(a_is_boundary && b_is_boundary) {
            transitions.count_transition(&tokens[i - 1], &tokens[i]);
        }
        i += 1;
    }
    proof {
        assert(ts.skip(n - 1).len() == 1);
    }
}

/// Trains the table on a corpus given line by line, carrying the chain
/// across line breaks as the boundary configuration demands.
pub fn train_with_lines(
    lines: &Vec<String>,
    transitions: &mut Transitions,
    boundary_config: &BoundaryConfigs,
)
    requires
        old(transitions).wf(),
    ensures
        final(transitions).wf(),
        final(transitions)@ == spec_train_lines(
            old(transitions)@,
            lines.deep_view(),
            *boundary_config,
            TokView::Boundary,
        ),
{
    let ghost ls = lines.deep_view();
    let ghost m0 = transitions@;
    let ghost cfg = *boundary_config;
    let mut carry: Token = Token::Boundary;
    let n = lines.len();
    proof {
        assert(ls.skip(0) =~= ls);
    }
    let mut i: usize = 0;
    while i < n
        invariant
            n == lines@.len(),
            ls == lines.deep_view(),
            cfg == *boundary_config,
            0 <= i <= n,
            transitions.wf(),
            spec_train_lines(m0, ls, cfg, TokView::Boundary) == spec_train_lines(
                transitions@,
                ls.skip(i as int),
                cfg,
                carry@,
            ),
        decreases n - i,
    {
        let ghost carry0 = carry@;
        let line = &lines[i];
        let mut toks: Vec<Token> = Vec::new();
        match boundary_config {
            BoundaryConfigs::LineEndings => {
                toks.push(Token::Boundary);
            },
            BoundaryConfigs::SentenceEndings => {
                toks.push(carry.clone());
            },
        }
        let ghost head = toks.deep_view();
        let mut line_toks = tokenize(line.as_str(), boundary_config);
        toks.append(&mut line_toks);
        proof {
            assert(toks.deep_view() =~= head + spec_tokenize(ls[i as int], cfg));
        }
        match boundary_config {
            BoundaryConfigs::LineEndings => {
                let ghost mid = toks.deep_view();
                toks.push(Token::Boundary);
                proof {
                    assert(toks.deep_view() =~= mid.push(TokView::Boundary));
                    assert(toks.deep_view() =~= line_tokens(ls[i as int], cfg, carry0));
                }
            },
            BoundaryConfigs::SentenceEndings => {
                proof {
                    assert(head =~= seq![carry0]);
                    assert(toks.deep_view() =~= line_tokens(ls[i as int], cfg, carry0));
                }
                carry = (&toks[toks.len() - 1]).clone();
                proof {
                    assert(carry@ == toks.deep_view().last());
                }
            },
        }
        let ghost contributed = toks.deep_view();
        train_with_tokens(toks, transitions);
        proof {
            assert(ls.skip(i as int)[0] == ls[i as int]);
            assert(ls.skip(i as int).drop_first() =~= ls.skip(i + 1));
            assert(contributed == line_tokens(ls[i as int], cfg, carry0));
        }
        i += 1;
    }
    proof {
        assert(ls.skip(n as int).len() == 0);
    }
}

// ---------------------------------------------------------------------------
// The boundary-suppression law.
// ---------------------------------------------------------------------------

/// A table with no transition recorded from the boundary back to itself.
pub open spec fn no_boundary_self_loop(m: Map<TokView, Map<TokView, u32>>) -> bool {
    m.dom().contains(TokView::Boundary) ==> !m[TokView::Boundary].dom().contains(TokView::Boundary)
}

proof fn lemma_record_no_boundary_self_loop(m: Map<TokView, Map<TokView, u32>>, a: TokView, b: TokView)
    requires
        no_boundary_self_loop(m),
    ensures
        no_boundary_self_loop(spec_record(m, a, b)),
{
}

proof fn lemma_count_pairs_no_boundary_self_loop(m: Map<TokView, Map<TokView, u32>>, ts: Seq<TokView>)
    requires
        no_boundary_self_loop(m),
    ensures
        no_boundary_self_loop(spec_count_pairs(m, ts)),
    decreases ts.len(),
{
    if ts.len() >= 2 {
        lemma_record_no_boundary_self_loop(m, ts[0], ts[1]);
        lemma_count_pairs_no_boundary_self_loop(spec_record(m, ts[0], ts[1]), ts.drop_first());
    }
}

/// Law: training never records a boundary-to-boundary transition.  From
/// any table without such an entry — in particular the empty one — any
/// corpus, under either boundary configuration and whatever token is
/// carried, leaves the table without one; blank lines and consecutive
/// boundaries are suppressed rather than counted.
pub proof fn lemma_training_never_records_boundary_to_boundary(
    m: Map<TokView, Map<TokView, u32>>,
    lines: Seq<Seq<char>>,
    cfg: BoundaryConfigs,
    carry: TokView,
)
    requires
        no_boundary_self_loop(m),
    ensures
        no_boundary_self_loop(spec_train_lines(m, lines, cfg, carry)),
    decreases lines.len(),
{
    if lines.len() > 0 {
        let ts = line_tokens(lines[0], cfg, carry);
        lemma_count_pairs_no_boundary_self_loop(m, ts);
        let carry2 = if cfg is SentenceEndings {
            ts.last()
        } else {
            carry
        };
        lemma_training_never_records_boundary_to_boundary(
            spec_count_pairs(m, ts),
            lines.drop_first(),
            cfg,
            carry2,
        );
    }
}

} // verus!
